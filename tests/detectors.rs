use environment::boolean::parse_bool;
use environment::floats::is_float_literal;
use environment::integer::{parse_base_10, parse_base_16, parse_base_2, parse_base_8, parse_int};
use environment::socketaddr::{parse_ip, parse_socket, IpAddr, SocketAddr};

#[test]
fn test_parse_bool() {
    let dut0 = "t";
    assert_eq!(parse_bool(&dut0), Some(true));
    let dut1 = "f";
    assert_eq!(parse_bool(&dut1), Some(false));
    let dut2 = "true";
    assert_eq!(parse_bool(&dut2), Some(true));
    let dut3 = "false";
    assert_eq!(parse_bool(&dut3), Some(false));
    let dut4 = "T";
    assert_eq!(parse_bool(&dut4), Some(true));
    let dut5 = "F";
    assert_eq!(parse_bool(&dut5), Some(false));
    let dut6 = "TRUE";
    assert_eq!(parse_bool(&dut6), Some(true));
    let dut7 = "FALSE";
    assert_eq!(parse_bool(&dut7), Some(false));
}

#[test]
fn test_parse_base_10() {
    let dut0 = "10";
    assert_eq!(parse_base_10(&dut0), Some(10i64));
    let dut1 = "+10";
    assert_eq!(parse_base_10(&dut1), Some(10i64));
    let dut2 = "-10";
    assert_eq!(parse_base_10(&dut2), Some(-10i64));
}

#[test]
fn test_parse_base_16() {
    let dut0 = "0xA";
    assert_eq!(parse_base_16(&dut0), Some(10i64));
}

#[test]
fn bool_is_case_exact() {
    assert_eq!(parse_bool("True"), None);
    assert_eq!(parse_bool("tRuE"), None);
    assert_eq!(parse_bool("yes"), None);
    assert_eq!(parse_bool(""), None);
}

#[test]
fn integer_bases() {
    assert_eq!(parse_int("0x1F"), Some(31));
    assert_eq!(parse_int("0o17"), Some(15));
    assert_eq!(parse_int("0b101"), Some(5));
    assert_eq!(parse_base_8("0o777"), Some(511));
    assert_eq!(parse_base_2("0b11111111"), Some(255));
    assert_eq!(parse_base_16("0xff"), Some(255));
    assert_eq!(parse_base_10("0x10"), None);
    assert_eq!(parse_base_16("10"), None);
}

#[test]
fn integer_limits() {
    assert_eq!(parse_int("9223372036854775807"), Some(i64::MAX));
    assert_eq!(parse_int("-9223372036854775808"), Some(i64::MIN));
    assert_eq!(parse_int("9223372036854775808"), None);
    assert_eq!(parse_int("99999999999999999999"), None);
    assert_eq!(parse_int("0x7FFFFFFFFFFFFFFF"), Some(i64::MAX));
    assert_eq!(parse_int("0xFFFFFFFFFFFFFFFF"), None);
    assert_eq!(parse_int("0x"), None);
    assert_eq!(parse_int("+"), None);
    assert_eq!(parse_int("|10"), None);
    assert_eq!(parse_int("0x11111111111111111"), None);
}

#[test]
fn float_shapes() {
    assert!(is_float_literal("3.14"));
    assert!(is_float_literal("-3.14"));
    assert!(is_float_literal("2.5E10"));
    assert!(is_float_literal("-2.5e-10"));
    assert!(is_float_literal(".5"));
    assert!(is_float_literal("0.5"));
    assert!(is_float_literal("inf"));
    assert!(is_float_literal("-Nan"));
    assert!(is_float_literal("1e5"));
    assert!(is_float_literal("99999999999999999999"));
    assert!(!is_float_literal("5."));
    assert!(!is_float_literal("12e"));
    assert!(!is_float_literal("1+5"));
    assert!(!is_float_literal("NaN"));
    assert!(!is_float_literal("1.2.3"));
    assert!(!is_float_literal(""));
}

#[test]
fn ip_addresses() {
    assert_eq!(parse_ip("127.0.0.1"), Some(IpAddr::V4(vec![127, 0, 0, 1])));
    assert_eq!(parse_ip("::1"), Some(IpAddr::V6(vec![0, 0, 0, 0, 0, 0, 0, 1])));
    assert_eq!(
        parse_ip("fe80::1:2"),
        Some(IpAddr::V6(vec![0xfe80, 0, 0, 0, 0, 0, 1, 2]))
    );
    assert_eq!(
        parse_ip("::ffff:10.0.0.1"),
        Some(IpAddr::V6(vec![0, 0, 0, 0, 0, 0xffff, 0x0a00, 0x0001]))
    );
    assert_eq!(
        parse_ip("1:2:3:4:5:6:7:8"),
        Some(IpAddr::V6(vec![1, 2, 3, 4, 5, 6, 7, 8]))
    );
    assert_eq!(parse_ip("256.0.0.1"), None);
    assert_eq!(parse_ip("01.0.0.1"), None);
    assert_eq!(parse_ip("1.2.3"), None);
    assert_eq!(parse_ip("1:2:3"), None);
    assert_eq!(parse_ip("12345::"), None);
}

#[test]
fn socket_addresses() {
    assert_eq!(
        parse_socket("127.0.0.1:8080"),
        Some(SocketAddr { ip: IpAddr::V4(vec![127, 0, 0, 1]), port: 8080, scope_id: 0 })
    );
    assert_eq!(
        parse_socket("[::1]:443"),
        Some(SocketAddr { ip: IpAddr::V6(vec![0, 0, 0, 0, 0, 0, 0, 1]), port: 443, scope_id: 0 })
    );
    assert_eq!(
        parse_socket("[fe80::1%3]:22"),
        Some(SocketAddr { ip: IpAddr::V6(vec![0xfe80, 0, 0, 0, 0, 0, 0, 1]), port: 22, scope_id: 3 })
    );
    assert_eq!(parse_socket("127.0.0.1:65536"), None);
    assert_eq!(parse_socket("127.0.0.1"), None);
    assert_eq!(parse_socket("::1:80"), None);
}
