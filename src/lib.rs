//! Typed, lossless inference of configuration-style strings.
//!
//! Every raw string is run through a fixed cascade of detectors (integer,
//! float, boolean, socket address, IP address, `:`-delimited array) and
//! becomes the first typed value that recognises it, or stays a plain
//! string. The raw text is always kept. A snapshot maps names to such
//! values and is never changed once built.
pub mod text;
pub mod boolean;
pub mod integer;
pub mod floats;
pub mod socketaddr;
pub mod value;
pub mod envir;
