//! Unicode facts this crate takes from the standard rather than tabulating itself.
//!
//! Normalization forms come from `unicode-normalization`, scripts from `unicode-script`, the
//! general category from `unicode-properties`, and a few character classes from `std`. Each is a
//! small trusted function: its result is given a name, and the crate's own logic is proved
//! against that name for every value it could take.

use unicode_normalization::UnicodeNormalization;
use unicode_properties::{GeneralCategory, UnicodeGeneralCategory};
use unicode_script::UnicodeScript;
use vstd::prelude::*;

verus! {

/// The NFC form of a text.
pub uninterp spec fn nfc_of(s: Seq<char>) -> Seq<char>;

/// The NFKC form of a text.
pub uninterp spec fn nfkc_of(s: Seq<char>) -> Seq<char>;

/// Whether a text is already in NFD.
pub uninterp spec fn is_nfd_text(s: Seq<char>) -> bool;

/// The full name of a character's Unicode script, as UAX #24 assigns it.
pub uninterp spec fn script_name(c: char) -> Seq<char>;

/// Whether a character's general category is `Nd`, a decimal digit.
pub uninterp spec fn is_decimal_digit(c: char) -> bool;

/// Whether a character has the Unicode `Alphabetic` property.
pub uninterp spec fn is_alphabetic_char(c: char) -> bool;

/// Whether a character has the general category `Cc`, a control character.
pub uninterp spec fn is_control_char(c: char) -> bool;

/// A code point that is a Unicode scalar value, which is what a `char` can hold.
pub open spec fn is_scalar_value(v: int) -> bool {
    0 <= v <= 0x10FFFF && !(0xD800 <= v <= 0xDFFF)
}

/// A character no normalization brings into a text that lacks it: the line feed, the byte
/// order mark, the zero-width space, the no-break space, the soft hyphen, the Latin, Hebrew and
/// Arabic presentation forms (U+FB00 to U+FDFF and U+FE70 to U+FEFF), and the halfwidth and
/// fullwidth forms (U+FF01 to U+FF60 and U+FFE0 to U+FFE6). None of them is a canonical
/// composite, and none appears in the canonical or compatibility mapping of another character.
pub open spec fn kept_out(c: char) -> bool {
    ||| c == '\n'
    ||| c == '\u{FEFF}'
    ||| c == '\u{200B}'
    ||| c == '\u{00A0}'
    ||| c == '\u{00AD}'
    ||| (0xFB00u32 <= (c as u32) && (c as u32) <= 0xFDFFu32)
    ||| (0xFE70u32 <= (c as u32) && (c as u32) <= 0xFEFFu32)
    ||| (0xFF01u32 <= (c as u32) && (c as u32) <= 0xFF60u32)
    ||| (0xFFE0u32 <= (c as u32) && (c as u32) <= 0xFFE6u32)
}

/// `unicode_normalization::UnicodeNormalization::nfc`, collected into a string. Besides naming
/// the result, this states what the normalization form guarantees: NFC is its own NFC form;
/// every character that `kept_out` lists came from the text; and since the soft hyphen neither
/// composes nor is reordered, the result ends with one exactly where the text does, and holds
/// one elsewhere only where the text does.
#[verifier::external_body]
pub fn nfc(s: &str) -> (r: String)
    ensures
        r@ == nfc_of(s@),
        nfc_of(r@) == r@,
        forall|i: int| 0 <= i < r@.len() && kept_out(#[trigger] r@[i]) ==> s@.contains(r@[i]),
        (r@.len() > 0 && r@.last() == '\u{00AD}') ==> (s@.len() > 0 && s@.last() == '\u{00AD}'),
        (r@.len() > 0 && r@.drop_last().contains('\u{00AD}')) ==> (s@.len() > 0 && s@.drop_last().contains(
            '\u{00AD}',
        )),
{
    s.nfc().collect()
}

/// `unicode_normalization::UnicodeNormalization::nfkc`, collected into a string. Besides naming
/// the result, this states what the normalization form guarantees: NFKC is its own NFKC form;
/// every character that `kept_out` lists came from the text, and such a character left in an
/// NFKC form is its own NFKC form on its own.
#[verifier::external_body]
pub fn nfkc(s: &str) -> (r: String)
    ensures
        r@ == nfkc_of(s@),
        nfkc_of(r@) == r@,
        forall|i: int| 0 <= i < r@.len() && kept_out(#[trigger] r@[i]) ==> s@.contains(r@[i]) && nfkc_of(seq![r@[i]])
            == seq![r@[i]],
{
    s.nfkc().collect()
}

/// `unicode_normalization::is_nfc`, which the crate documents as the authoritative check that
/// a text is in NFC: the text is its own NFC form.
#[verifier::external_body]
pub fn is_nfc(s: &str) -> (r: bool)
    ensures
        r == (nfc_of(s@) == s@),
{
    unicode_normalization::is_nfc(s)
}

/// `unicode_normalization::is_nfd`, the authoritative check that a text is in NFD.
#[verifier::external_body]
pub fn is_nfd(s: &str) -> (r: bool)
    ensures
        r == is_nfd_text(s@),
{
    unicode_normalization::is_nfd(s)
}

/// `unicode_script::Script::full_name` of `UnicodeScript::script`. The crate derives `Debug`
/// for `Script` with variant names equal to these full names, and every full name it defines
/// is written in ASCII.
#[verifier::external_body]
pub fn script_full_name(c: char) -> (r: &'static str)
    ensures
        r@ == script_name(c),
        vstd::utf8::is_ascii_chars(r@),
{
    c.script().full_name()
}

/// `unicode_properties::UnicodeGeneralCategory::general_category` compared with
/// `GeneralCategory::DecimalNumber`.
#[verifier::external_body]
pub fn is_decimal_number(c: char) -> (r: bool)
    ensures
        r == is_decimal_digit(c),
{
    c.general_category() == GeneralCategory::DecimalNumber
}

/// `char::is_alphabetic`.
#[verifier::external_body]
pub fn is_alphabetic(c: char) -> (r: bool)
    ensures
        r == is_alphabetic_char(c),
{
    c.is_alphabetic()
}

/// `char::is_control`.
#[verifier::external_body]
pub fn is_control(c: char) -> (r: bool)
    ensures
        r == is_control_char(c),
{
    c.is_control()
}

/// `char::from_u32`: the character with code point `v`, when `v` is a scalar value.
#[verifier::external_body]
pub fn char_from_u32(v: u32) -> (r: Option<char>)
    ensures
        r is Some <==> is_scalar_value(v as int),
        r matches Some(c) ==> c as u32 == v,
{
    char::from_u32(v)
}

} // verus!
