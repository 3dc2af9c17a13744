//! Text helpers: appending to strings, and the std I/O errors that the
//! error types of the crate turn into.
use vstd::prelude::*;

verus! {

/// `String::push_str` appends the given slice.
pub assume_specification[ String::push_str ](s: &mut String, string: &str)
    ensures
        final(s)@ == old(s)@ + string@,
;

/// The concatenation of `a` and `b`.
pub fn concat(a: &str, b: &str) -> (r: String)
    ensures
        r@ == a@ + b@,
{
    let mut s = a.to_owned();
    s.push_str(b);
    s
}

/// The kinds of std I/O error that the crate makes.
#[derive(Debug, Clone, Copy, PartialEq, Eq, Structural)]
pub enum IoKind {
    NotFound,
    InvalidData,
}

/// Calls `std::io::Error::new` with the kind and the message. Nothing is
/// stated of the error value, which Verus cannot look into.
#[verifier::external_body]
pub(crate) fn io_error_new(kind: IoKind, msg: String) -> std::io::Error {
    match kind {
        IoKind::NotFound => std::io::Error::new(std::io::ErrorKind::NotFound, msg),
        IoKind::InvalidData => std::io::Error::new(std::io::ErrorKind::InvalidData, msg),
    }
}

/// Calls `to_string` on an I/O error: its `Display` text. The text comes
/// from std and the operating system and is not stated.
#[verifier::external_body]
pub(crate) fn io_error_text(e: &std::io::Error) -> String {
    e.to_string()
}

} // verus!
