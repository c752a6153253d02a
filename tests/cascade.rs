use environment::envir::Envir;
use environment::socketaddr::{IpAddr, SocketAddr};
use environment::value::Value;

fn infer(s: &str) -> Value {
    Value::new(s.to_string())
}

fn text(s: &str) -> String {
    s.to_string()
}

#[test]
fn priority_examples() {
    assert_eq!(infer("10"), Value::Int(10, text("10")));
    assert_eq!(infer("0x1F"), Value::Int(31, text("0x1F")));
    assert_eq!(infer("0o17"), Value::Int(15, text("0o17")));
    assert_eq!(infer("0b101"), Value::Int(5, text("0b101")));
    assert_eq!(infer("3.14"), Value::Float(text("3.14")));
    for t in ["t", "true", "TRUE"] {
        assert_eq!(infer(t), Value::Bool(true, text(t)));
    }
    for f in ["f", "false", "FALSE"] {
        assert_eq!(infer(f), Value::Bool(false, text(f)));
    }
    assert_eq!(
        infer("127.0.0.1"),
        Value::IpAddr(IpAddr::V4(vec![127, 0, 0, 1]), text("127.0.0.1"))
    );
    assert_eq!(
        infer("127.0.0.1:8080"),
        Value::SocketAddr(
            SocketAddr { ip: IpAddr::V4(vec![127, 0, 0, 1]), port: 8080, scope_id: 0 },
            text("127.0.0.1:8080")
        )
    );
}

#[test]
fn arrays_and_collapse() {
    assert_eq!(
        infer("a:b:c"),
        Value::Array(
            vec![Value::String(text("a")), Value::String(text("b")), Value::String(text("c"))],
            text("a:b:c")
        )
    );
    assert_eq!(infer("lonely:"), Value::String(text("lonely")));
    assert_eq!(infer(":"), Value::String(text(":")));
    assert_eq!(infer(" : :"), Value::String(text(" : :")));
    assert_eq!(
        infer(" 1 : true :x"),
        Value::Array(
            vec![Value::Int(1, text("1")), Value::Bool(true, text("true")), Value::String(text("x"))],
            text(" 1 : true :x")
        )
    );
    assert_eq!(infer(":: 7 :"), Value::Int(7, text("7")));
    assert_eq!(
        infer("/usr/bin:/bin"),
        Value::Array(
            vec![Value::String(text("/usr/bin")), Value::String(text("/bin"))],
            text("/usr/bin:/bin")
        )
    );
}

#[test]
fn overflow_falls_through() {
    let v = infer("99999999999999999999");
    assert_eq!(v.as_int(), None);
    assert_eq!(v, Value::Float(text("99999999999999999999")));
    assert_eq!(infer("0xFFFFFFFFFFFFFFFF"), Value::String(text("0xFFFFFFFFFFFFFFFF")));
}

#[test]
fn case_sensitive_booleans() {
    assert_eq!(infer("True"), Value::String(text("True")));
    assert_eq!(infer("tRuE"), Value::String(text("tRuE")));
}

#[test]
fn ipv6_values() {
    assert_eq!(
        infer("::1"),
        Value::IpAddr(IpAddr::V6(vec![0, 0, 0, 0, 0, 0, 0, 1]), text("::1"))
    );
    assert_eq!(infer("::1").as_ipv6(), Some(&vec![0, 0, 0, 0, 0, 0, 0, 1]));
    assert_eq!(infer("::1").as_ipv4(), None);
    assert_eq!(infer("[::1]:80").as_socket().map(|a| a.port), Some(80));
}

#[test]
fn round_trip_keeps_text() {
    for s in ["10", "3.14", "t", "127.0.0.1:8080", "a:b:c", " x : y ", "plain", "", "inf"] {
        let v = infer(s);
        assert_eq!(v.as_str(), Some(s));
        let again = infer(v.as_str().unwrap());
        assert_eq!(again, v);
    }
    let v = infer("lonely:");
    assert_eq!(infer(v.as_str().unwrap()), v);
}

#[test]
fn accessors_by_variant() {
    let b = infer("true");
    assert_eq!(b.as_bool(), Some(&true));
    assert_eq!(b.as_int(), None);
    let i = infer("-42");
    assert_eq!(i.as_int(), Some(&-42));
    assert_eq!(i.as_bool(), None);
    let f = infer("2.5E10");
    assert_eq!(f.as_float_literal(), Some("2.5E10"));
    assert_eq!(f.as_int(), None);
    let ip = infer("10.1.2.3");
    assert_eq!(ip.as_ipv4(), Some(&vec![10, 1, 2, 3]));
    assert_eq!(ip.as_socket(), None);
}

fn snapshot(pairs: &[(&str, &str)]) -> Envir {
    let owned: Vec<(String, String)> = pairs.iter().map(|(k, v)| (text(k), text(v))).collect();
    Envir::from_pairs(&owned)
}

#[test]
fn snapshot_lookups() {
    let env = snapshot(&[("PORT", "8080"), ("DEBUG", "T"), ("HOST", "::1"), ("PATH", "a:b")]);
    assert_eq!(env.get_int("PORT"), Some(&8080));
    assert_eq!(env.get_bool("DEBUG"), Some(&true));
    assert_eq!(env.get_ipv6("HOST"), Some(&vec![0, 0, 0, 0, 0, 0, 0, 1]));
    assert_eq!(env.get_ipv4("HOST"), None);
    assert_eq!(env.get_str("PATH"), Some("a:b"));
    assert_eq!(env.get_int("DEBUG"), None);
    assert_eq!(env.get_float_literal("PORT"), None);
}

#[test]
fn snapshot_absence() {
    let env = snapshot(&[("PORT", "8080")]);
    assert!(env.get("MISSING").is_none());
    assert!(env.get("port").is_none());
    assert_eq!(env.get_str("MISSING"), None);
    assert!(snapshot(&[]).get("PORT").is_none());
}

#[test]
fn snapshot_last_entry_wins() {
    let env = snapshot(&[("A", "1"), ("B", "x"), ("A", "2")]);
    assert_eq!(env.get_int("A"), Some(&2));
    assert_eq!(env.get_str("B"), Some("x"));
}

fn shareable<T: Send + Sync + Clone>(_: &T) {}

#[test]
fn snapshot_shared_reads() {
    let env = snapshot(&[("N", "0x10"), ("S", "s")]);
    shareable(&env);
    let copies: Vec<Envir> = (0..16).map(|_| env.clone()).collect();
    for c in copies.iter() {
        assert_eq!(c.get_int("N"), env.get_int("N"));
        assert_eq!(c.get_str("S"), Some("s"));
    }
}

#[test]
fn snapshots_are_independent() {
    let one = snapshot(&[("K", "1")]);
    let two = snapshot(&[("K", "2")]);
    assert_eq!(one.get_int("K"), Some(&1));
    assert_eq!(two.get_int("K"), Some(&2));
}
