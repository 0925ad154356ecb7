//! Character classes used by the text analyses.
use vstd::prelude::*;

verus! {

/// Unicode `Alphabetic` or `Numeric` property, as std's `char::is_alphanumeric` reads it.
pub uninterp spec fn unicode_alphanumeric(c: char) -> bool;

/// Unicode `Uppercase` property, as std's `char::is_uppercase` reads it.
pub uninterp spec fn unicode_uppercase(c: char) -> bool;

/// Unicode `Lowercase` property, as std's `char::is_lowercase` reads it.
pub uninterp spec fn unicode_lowercase(c: char) -> bool;

pub open spec fn is_ascii_char(c: char) -> bool {
    (c as u32) < 0x80
}

pub open spec fn is_ascii_lower(c: char) -> bool {
    'a' <= c && c <= 'z'
}

pub open spec fn is_ascii_upper(c: char) -> bool {
    'A' <= c && c <= 'Z'
}

pub open spec fn is_ascii_digit(c: char) -> bool {
    '0' <= c && c <= '9'
}

pub open spec fn is_ascii_alnum(c: char) -> bool {
    is_ascii_lower(c) || is_ascii_upper(c) || is_ascii_digit(c)
}

/// std's `char::is_alphanumeric`.  Stated: the result is the Unicode property,
/// which on ASCII holds exactly of letters and digits.
#[verifier::external_body]
pub(crate) fn char_is_alphanumeric(c: char) -> (r: bool)
    ensures
        r == unicode_alphanumeric(c),
        is_ascii_char(c) ==> (r <==> is_ascii_alnum(c)),
{
    c.is_alphanumeric()
}

/// std's `char::is_uppercase`.  Stated: the result is the Unicode property,
/// which on ASCII holds exactly of `'A'..='Z'`.
#[verifier::external_body]
pub(crate) fn char_is_uppercase(c: char) -> (r: bool)
    ensures
        r == unicode_uppercase(c),
        is_ascii_char(c) ==> (r <==> is_ascii_upper(c)),
{
    c.is_uppercase()
}

/// std's `char::is_lowercase`.  Stated: the result is the Unicode property,
/// which on ASCII holds exactly of `'a'..='z'`.
#[verifier::external_body]
pub(crate) fn char_is_lowercase(c: char) -> (r: bool)
    ensures
        r == unicode_lowercase(c),
        is_ascii_char(c) ==> (r <==> is_ascii_lower(c)),
{
    c.is_lowercase()
}

/// Unicode `White_Space`, the class that std's `char::is_whitespace`, `str::trim`
/// and `str::split_whitespace` use.
pub open spec fn is_white_space(c: char) -> bool {
    let u = c as u32;
    (0x09 <= u && u <= 0x0D) || u == 0x20 || u == 0x85 || u == 0xA0 || u == 0x1680 || (0x2000
        <= u && u <= 0x200A) || u == 0x2028 || u == 0x2029 || u == 0x202F || u == 0x205F || u
        == 0x3000
}

pub fn char_is_white_space(c: char) -> (r: bool)
    ensures
        r == is_white_space(c),
{
    let u = c as u32;
    (0x09 <= u && u <= 0x0D) || u == 0x20 || u == 0x85 || u == 0xA0 || u == 0x1680 || (0x2000
        <= u && u <= 0x200A) || u == 0x2028 || u == 0x2029 || u == 0x202F || u == 0x205F || u
        == 0x3000
}

} // verus!
