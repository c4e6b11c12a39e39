//! The few standard-library text operations that the lexer and the parser
//! need and that vstd gives no contract: each is a thin call, and its
//! contract is what the standard library documents of it.
use vstd::prelude::*;
use vstd::utf8::is_scalar;

verus! {

/// `String::push`: appends one character to the end of the string.
#[verifier::external_body]
pub(crate) fn push_char(s: &mut String, c: char)
    ensures
        final(s)@ == old(s)@.push(c),
{
    s.push(c);
}

/// `char::from_u32`: the character with the given code point, or `None`
/// when the number is not a Unicode scalar value (a surrogate, or above
/// `0x10FFFF`).
#[verifier::external_body]
pub(crate) fn char_from_u32(v: u32) -> (r: Option<char>)
    ensures
        r == (if is_scalar(v) { Some(v as char) } else { None }),
{
    char::from_u32(v)
}

/// The text that the standard library's `Debug` formatting writes for a
/// string slice: the characters between double quotes, with quotes,
/// backslashes and control characters escaped.
pub uninterp spec fn debug_str_text(s: Seq<char>) -> Seq<char>;

/// `<str as Debug>::fmt`, through `format!("{:?}", s)`. Nothing is claimed
/// of the text beyond its being a function of the characters: the escaping
/// rules take pages to state.
#[verifier::external_body]
pub(crate) fn debug_str(s: &str) -> (r: String)
    ensures
        r@ == debug_str_text(s@),
{
    format!("{:?}", s)
}

} // verus!
