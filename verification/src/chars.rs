//! Character classification, as the lexer sees it.
//!
//! The lexer distinguishes alphanumeric characters (they accumulate into
//! identifiers) from whitespace (it flushes a pending identifier). For the
//! ASCII range both classes are written out; outside it they are named,
//! since the Unicode tables are not restated here.

use vstd::prelude::*;

verus! {

/// Whether a non-ASCII character has a Unicode letter or number category.
pub uninterp spec fn unicode_alnum(c: char) -> bool;

/// Whether a non-ASCII character has the Unicode `White_Space` property.
pub uninterp spec fn unicode_space(c: char) -> bool;

/// What `char::is_alphanumeric` returns: for ASCII, exactly the letters
/// and digits; beyond ASCII, the named Unicode classification.
pub open spec fn is_alnum_char(c: char) -> bool {
    if (c as u32) < 128 {
        ('a' as u32 <= c as u32 && c as u32 <= 'z' as u32)
            || ('A' as u32 <= c as u32 && c as u32 <= 'Z' as u32)
            || ('0' as u32 <= c as u32 && c as u32 <= '9' as u32)
    } else {
        unicode_alnum(c)
    }
}

/// What `char::is_whitespace` returns: for ASCII, exactly space, tab,
/// line feed, vertical tab, form feed and carriage return; beyond ASCII,
/// the named Unicode classification.
pub open spec fn is_space_char(c: char) -> bool {
    if (c as u32) < 128 {
        c == ' ' || c == '\t' || c == '\n' || c == '\u{b}' || c == '\u{c}' || c == '\r'
    } else {
        unicode_space(c)
    }
}

/// Relies on `char::is_alphanumeric`: true exactly for characters in one of
/// the Unicode letter or number general categories, which for ASCII are the
/// letters `a`-`z`, `A`-`Z` and the digits `0`-`9`.
pub assume_specification[ char::is_alphanumeric ](c: char) -> (r: bool)
    ensures
        r == is_alnum_char(c),
        (c as u32) >= 128 ==> r == unicode_alnum(c),
;

/// Relies on `char::is_whitespace`: true exactly for characters with the
/// Unicode `White_Space` property, which for ASCII are space, tab, line
/// feed, vertical tab, form feed and carriage return.
pub assume_specification[ char::is_whitespace ](c: char) -> (r: bool)
    ensures
        r == is_space_char(c),
        (c as u32) >= 128 ==> r == unicode_space(c),
;

/// Relies on `String::push`: appends exactly one character at the end.
#[verifier::external_body]
pub fn push_char(s: &mut String, c: char)
    ensures
        final(s)@ == old(s)@.push(c),
{
    s.push(c);
}

} // verus!
