//! Character classes used by the scanner, and what is taken on trust from
//! the standard library about characters and strings.
use vstd::prelude::*;

verus! {

/// Whether a character outside ASCII has one of Unicode's numeric general
/// categories (`Nd`, `Nl`, `No`).
pub uninterp spec fn unicode_numeric(c: char) -> bool;

/// Whether a character outside ASCII has Unicode's `Alphabetic` property.
pub uninterp spec fn unicode_alphabetic(c: char) -> bool;

/// True for the ten ASCII digits.
pub open spec fn is_ascii_digit(c: char) -> bool {
    '0' <= c && c <= '9'
}

/// True for the fifty-two ASCII letters.
pub open spec fn is_ascii_letter(c: char) -> bool {
    ('a' <= c && c <= 'z') || ('A' <= c && c <= 'Z')
}

/// True for the characters of the 7-bit range.
pub open spec fn is_ascii_char(c: char) -> bool {
    c <= '\x7f'
}

/// The characters that may start and continue a number.
pub open spec fn numeric_char(c: char) -> bool {
    if is_ascii_char(c) {
        is_ascii_digit(c)
    } else {
        unicode_numeric(c)
    }
}

/// The characters that may start an identifier.
pub open spec fn alphabetic_char(c: char) -> bool {
    if is_ascii_char(c) {
        is_ascii_letter(c)
    } else {
        unicode_alphabetic(c)
    }
}

/// The characters that may continue an identifier.
pub open spec fn alphanumeric_char(c: char) -> bool {
    alphabetic_char(c) || numeric_char(c)
}

/// `char::is_numeric` of std, which tells whether a character has one of
/// Unicode's general categories for numbers.  Within ASCII the Unicode
/// database gives these categories to the digits `0` to `9` and to nothing
/// else; beyond ASCII the answer is that of the database, under the name
/// `unicode_numeric`.  Not proved.
pub assume_specification[ char::is_numeric ](c: char) -> (b: bool)
    ensures
        b == (if is_ascii_char(c) {
            is_ascii_digit(c)
        } else {
            unicode_numeric(c)
        }),
;

/// `char::is_alphabetic` of std, which tells whether a character has
/// Unicode's `Alphabetic` property.  Within ASCII the Unicode database gives
/// this property to the letters `a` to `z` and `A` to `Z` and to nothing
/// else; beyond ASCII the answer is that of the database, under the name
/// `unicode_alphabetic`.  Not proved.
pub assume_specification[ char::is_alphabetic ](c: char) -> (b: bool)
    ensures
        b == (if is_ascii_char(c) {
            is_ascii_letter(c)
        } else {
            unicode_alphabetic(c)
        }),
;

/// `char::is_alphanumeric` of std: true exactly where `char::is_alphabetic`
/// or `char::is_numeric` is.  Not proved.
pub assume_specification[ char::is_alphanumeric ](c: char) -> (b: bool)
    ensures
        b == (if is_ascii_char(c) {
            is_ascii_letter(c) || is_ascii_digit(c)
        } else {
            unicode_alphabetic(c) || unicode_numeric(c)
        }),
;

/// `String::push` of std: the character is appended to the end of the
/// string.  Not proved.
pub assume_specification[ std::string::String::push ](s: &mut String, ch: char)
    ensures
        final(s)@ == old(s)@.push(ch),
;

} // verus!
