//! What this crate assumes of the standard library, where `vstd` says
//! nothing: each item below gives a contract to a function of `core` or
//! `alloc`, and nothing here is proved.

use vstd::prelude::*;
use vstd::utf8::*;

verus! {

/// The error type of `core::str::from_utf8`; nothing is read from it.
#[verifier::external_type_specification]
#[verifier::external_body]
pub struct ExUtf8Error(core::str::Utf8Error);

/// `core::str::from_utf8` of the standard library: the bytes as a string
/// slice, which holds the same bytes, where they are UTF-8, and an error where
/// they are not.
pub assume_specification[ core::str::from_utf8 ](bytes: &[u8]) -> (res: Result<
    &str,
    core::str::Utf8Error,
>)
    ensures
        res is Ok <==> valid_utf8(bytes@),
        res matches Ok(s) ==> encode_utf8(s@) == bytes@,
;

/// `String::capacity` of the standard library: the size of the string's
/// buffer, which is never less than the length of the string. How large it is
/// beyond that depends on how the string came about.
pub assume_specification[ String::capacity ](s: &String) -> (capacity: usize)
    ensures
        capacity >= encode_utf8(s@).len(),
;

/// `str::into_boxed_bytes` of the standard library: the same allocation, seen
/// as the bytes of the text.
pub assume_specification[ str::into_boxed_bytes ](text: Box<str>) -> (bytes: Box<[u8]>)
    ensures
        bytes@ == encode_utf8(text@),
;

/// `char::from_u32` of the standard library: the scalar value with the given
/// number, and `None` for a number that is no scalar value (a surrogate, or a
/// number above `0x10FFFF`).
pub assume_specification[ char::from_u32 ](code: u32) -> (c: Option<char>)
    ensures
        is_scalar(code) ==> c == Some(code as char),
        !is_scalar(code) ==> c is None,
;

/// `String::into_bytes` of the standard library: the buffer of the string, as
/// it is, which holds the UTF-8 encoding of its characters.
pub assume_specification[ String::into_bytes ](s: String) -> (bytes: Vec<u8>)
    ensures
        bytes@ == encode_utf8(s@),
;

/// Longest text, in bytes, to which the standard library's `String` is made
/// to grow here: the half of `isize::MAX`, so that a buffer that doubles still
/// fits the address space.
pub open spec fn growth_limit() -> int {
    isize::MAX / 2
}

/// `String::push` of the standard library: the character is appended. The
/// call panics when the buffer would have to grow beyond `isize::MAX` bytes,
/// which the bound on the new length keeps out.
pub assume_specification[ String::push ](s: &mut String, ch: char)
    requires
        encode_utf8(old(s)@).len() + 4 <= growth_limit(),
    ensures
        final(s)@ == old(s)@.push(ch),
;

/// `String::push_str` of the standard library: the text is appended. The call
/// panics when the buffer would have to grow beyond `isize::MAX` bytes, which
/// the bound on the new length keeps out.
pub assume_specification[ String::push_str ](s: &mut String, text: &str)
    requires
        encode_utf8(old(s)@).len() + encode_utf8(text@).len() <= growth_limit(),
    ensures
        final(s)@ == old(s)@ + text@,
;

/// `String::pop` of the standard library: the last character is removed and
/// returned, and `None` is returned for the empty string, which stays as it
/// is.
pub assume_specification[ String::pop ](s: &mut String) -> (res: Option<char>)
    ensures
        old(s)@.len() == 0 ==> res is None && final(s)@ == old(s)@,
        old(s)@.len() > 0 ==> res == Some(old(s)@.last()) && final(s)@ == old(s)@.drop_last(),
;

} // verus!
