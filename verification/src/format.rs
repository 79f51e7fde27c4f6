//! Turning numbers and text into something a reader can act on.
//!
//! Counts in a corpus report run to seven digits, and the question a reader actually has is never
//! "how many" on its own: it is "how much of it". Both forms are shown, because the count says
//! how much work a fix is and the share says whether it matters.

use vstd::prelude::*;

use crate::binary64::{percent_double, percent_scaled, scaled_round, share_double, share_scaled};
use crate::text::{decimal, decimal_chars, digit, digit_char, from_chars, push_char, push_str, to_chars};

verus! {

/// Decimal digits with a comma before every group of three counted from the right.
pub open spec fn grouped_upto(digits: Seq<char>, k: int) -> Seq<char>
    decreases k,
{
    if k <= 0 {
        Seq::empty()
    } else {
        grouped_upto(digits, k - 1) + (if k - 1 > 0 && (digits.len() - (k - 1)) % 3 == 0 {
            seq![',']
        } else {
            Seq::empty()
        }) + seq![digits[k - 1]]
    }
}

/// A count as it is printed: its decimal digits, grouped in threes.
pub open spec fn count_text(value: nat) -> Seq<char> {
    grouped_upto(decimal(value), decimal(value).len() as int)
}

/// A count with thousands separators: `2104556` reads as `2,104,556`.
pub fn count(value: u64) -> (r: String)
    ensures
        r@ == count_text(value as nat),
{
    let digits = decimal_chars(value);
    let mut out: Vec<char> = Vec::new();
    let mut index: usize = 0;
    while index < digits.len()
        invariant
            0 <= index <= digits@.len(),
            digits@ == decimal(value as nat),
            out@ == grouped_upto(digits@, index as int),
        decreases digits.len() - index,
    {
        if index > 0 && (digits.len() - index) % 3 == 0 {
            out.push(',');
        }
        out.push(digits[index]);
        proof {
            let sep: Seq<char> = if index > 0 && (digits@.len() - index) % 3 == 0 {
                seq![',']
            } else {
                Seq::empty()
            };
            assert(out@ =~= grouped_upto(digits@, index as int) + sep + seq![digits@[index as int]]);
        }
        index = index + 1;
    }
    from_chars(out.as_slice())
}

/// `part` of `whole` in tenths of a percent, as `{:.1}` prints the double
/// `100.0 * part as f64 / whole as f64`: that double's exact value rounded to the nearest tenth,
/// a tie going to the even tenth.
pub open spec fn tenths(part: nat, whole: nat) -> nat {
    scaled_round(percent_double(part, whole).0, percent_double(part, whole).1, 10)
}

/// A percentage as it is printed: one decimal place and a percent sign.
pub open spec fn percent_text(part: nat, whole: nat) -> Seq<char> {
    if whole == 0 {
        seq!['0', '.', '0', '%']
    } else {
        decimal(tenths(part, whole) / 10) + seq!['.', digit_char(tenths(part, whole) % 10), '%']
    }
}

/// The decimal digits of a wide number.
fn wide_decimal(n: u128) -> (r: Vec<char>)
    ensures
        r@ == decimal(n as nat),
    decreases n,
{
    if n < 10 {
        let mut v: Vec<char> = Vec::new();
        v.push(digit(n as u64));
        v
    } else {
        let mut v = wide_decimal(n / 10);
        v.push(digit((n % 10) as u64));
        v
    }
}

/// `part` of `whole` as a percentage, to one decimal place.
///
/// A zero denominator yields `0.0%`: the caller has already established there is nothing to
/// report on, and a report is not the place to surface a division by zero.
pub fn percent(part: u64, whole: u64) -> (r: String)
    ensures
        r@ == percent_text(part as nat, whole as nat),
{
    if whole == 0 {
        let mut r = String::new();
        push_char(&mut r, '0');
        push_char(&mut r, '.');
        push_char(&mut r, '0');
        push_char(&mut r, '%');
        return r;
    }
    let t = percent_scaled(part, whole, 10);
    let mut chars = wide_decimal(t / 10);
    chars.push('.');
    chars.push(digit((t % 10) as u64));
    chars.push('%');
    from_chars(chars.as_slice())
}

/// A share as `{:.1}%` prints `100.0 * (part as f64 / whole as f64)`: the fraction is taken
/// first and scaled to a percentage after.
pub open spec fn share_text(part: nat, whole: nat) -> Seq<char> {
    let t = scaled_round(share_double(part, whole).0, share_double(part, whole).1, 10);
    decimal(t / 10) + seq!['.', digit_char(t % 10), '%']
}

/// `part` of `whole` as a percentage to one decimal place, the fraction taken before scaling.
pub fn share_percent(part: u64, whole: u64) -> (r: String)
    requires
        whole > 0,
    ensures
        r@ == share_text(part as nat, whole as nat),
{
    let t = share_scaled(part, whole, 10);
    let mut chars = wide_decimal(t / 10);
    chars.push('.');
    chars.push(digit((t % 10) as u64));
    chars.push('%');
    from_chars(chars.as_slice())
}

/// `part` of `whole` in hundredths of a percent, as `{:.2}` prints the double
/// `100.0 * part as f64 / whole as f64`.
pub open spec fn hundredths(part: nat, whole: nat) -> nat {
    scaled_round(percent_double(part, whole).0, percent_double(part, whole).1, 100)
}

/// A percentage printed to two decimal places, with its percent sign.
pub open spec fn fine_percent_text(part: nat, whole: nat) -> Seq<char> {
    let h = hundredths(part, whole);
    decimal(h / 100) + seq!['.', digit_char((h / 10) % 10), digit_char(h % 10), '%']
}

/// `part` of `whole` as a percentage, to two decimal places; `whole` must not be zero.
pub fn fine_percent(part: u64, whole: u64) -> (r: String)
    requires
        whole > 0,
    ensures
        r@ == fine_percent_text(part as nat, whole as nat),
{
    let h = percent_scaled(part, whole, 100);
    let mut chars = wide_decimal(h / 100);
    chars.push('.');
    chars.push(digit(((h / 10) % 10) as u64));
    chars.push(digit((h % 10) as u64));
    chars.push('%');
    from_chars(chars.as_slice())
}

/// `part` of `whole` as a count, its total and its share.
pub open spec fn ratio_text(part: nat, whole: nat) -> Seq<char> {
    count_text(part) + " of "@ + count_text(whole) + " ("@ + percent_text(part, whole) + ")"@
}

/// `part` of `whole` as `1,234 of 5,678 (21.7%)`.
pub fn ratio(part: u64, whole: u64) -> (r: String)
    ensures
        r@ == ratio_text(part as nat, whole as nat),
{
    let mut r = count(part);
    push_str(&mut r, " of ");
    push_str(&mut r, count(whole).as_str());
    push_str(&mut r, " (");
    push_str(&mut r, percent(part, whole).as_str());
    push_str(&mut r, ")");
    r
}

/// An upper-case hexadecimal digit for a value below sixteen.
pub open spec fn hex_digit(d: nat) -> char {
    if d < 10 {
        digit_char(d)
    } else if d == 10 {
        'A'
    } else if d == 11 {
        'B'
    } else if d == 12 {
        'C'
    } else if d == 13 {
        'D'
    } else if d == 14 {
        'E'
    } else {
        'F'
    }
}

/// The hexadecimal digits of `n`, most significant first, with no leading zero.
pub open spec fn hex(n: nat) -> Seq<char>
    decreases n,
{
    if n < 16 {
        seq![hex_digit(n)]
    } else {
        hex(n / 16).push(hex_digit(n % 16))
    }
}

/// Zeros in front of `s` until it is at least four long.
pub open spec fn pad4(s: Seq<char>) -> Seq<char> {
    if s.len() >= 4 {
        s
    } else {
        Seq::new((4 - s.len()) as nat, |i: int| '0') + s
    }
}

/// How a code point is named: `U+` and at least four hexadecimal digits.
pub open spec fn code_point(c: char) -> Seq<char> {
    "U+"@ + pad4(hex(c as u32 as nat))
}

fn hex_chars(n: u32) -> (r: Vec<char>)
    ensures
        r@ == hex(n as nat),
        r@.len() >= 1,
    decreases n,
{
    let d = n % 16;
    let c = if d < 10 {
        digit(d as u64)
    } else if d == 10 {
        'A'
    } else if d == 11 {
        'B'
    } else if d == 12 {
        'C'
    } else if d == 13 {
        'D'
    } else if d == 14 {
        'E'
    } else {
        'F'
    };
    if n < 16 {
        let mut v: Vec<char> = Vec::new();
        v.push(c);
        v
    } else {
        let mut v = hex_chars(n / 16);
        v.push(c);
        v
    }
}

fn push_code_point(out: &mut Vec<char>, c: char)
    ensures
        final(out)@ == old(out)@ + code_point(c),
{
    let digits = hex_chars(c as u32);
    out.push('U');
    out.push('+');
    let mut pad: usize = digits.len();
    let ghost before = out@;
    while pad < 4
        invariant
            digits@.len() <= pad <= 4 || (pad == digits@.len() && pad >= 4),
            out@ == before + Seq::new((pad - digits@.len()) as nat, |i: int| '0'),
        decreases 4 - pad,
    {
        out.push('0');
        proof {
            assert(Seq::new((pad + 1 - digits@.len()) as nat, |i: int| '0') =~= Seq::new((pad - digits@.len()) as nat, |i: int| '0').push('0'));
        }
        pad = pad + 1;
    }
    let ghost padded = out@;
    let mut k: usize = 0;
    while k < digits.len()
        invariant
            0 <= k <= digits@.len(),
            out@ == padded + digits@.take(k as int),
        decreases digits.len() - k,
    {
        out.push(digits[k]);
        proof {
            assert(digits@.take(k + 1) == digits@.take(k as int).push(digits@[k as int]));
        }
        k = k + 1;
    }
    proof {
        assert(digits@.take(k as int) == digits@);
        if digits@.len() >= 4 {
            assert(Seq::new((pad - digits@.len()) as nat, |i: int| '0') =~= Seq::<char>::empty());
        }
        reveal_strlit("U+");
        assert(out@ =~= old(out)@ + code_point(c));
    }
}

/// The code points of the non-ASCII characters of a text, in order.
pub open spec fn non_ascii_points(text: Seq<char>) -> Seq<char>
    decreases text.len(),
{
    if text.len() == 0 {
        Seq::empty()
    } else if (text.last() as u32) < 128 {
        non_ascii_points(text.drop_last())
    } else if non_ascii_points(text.drop_last()).len() == 0 {
        code_point(text.last())
    } else {
        non_ascii_points(text.drop_last()) + " "@ + code_point(text.last())
    }
}

/// A text as it is shown: quoted, then, when it has any, its non-ASCII code points in brackets.
pub open spec fn literal_text(text: Seq<char>) -> Seq<char> {
    if non_ascii_points(text).len() == 0 {
        "\""@ + text + "\""@
    } else {
        "\""@ + text + "\" ["@ + non_ascii_points(text) + "]"@
    }
}

/// Text as it renders, followed by the code points that do not render distinctly.
///
/// The two forms are both necessary and neither is sufficient. Printing only the escape makes a
/// reader decode `\u{301}` by hand; printing only the glyph is worse, because the whole class of
/// defect this tool reports is text that looks identical and is not.
///
/// Only non-ASCII characters get a code point, so an ordinary Latin piece stays readable.
pub fn literal(text: &str) -> (r: String)
    ensures
        r@ == literal_text(text@),
{
    let chars = to_chars(text);
    let mut points: Vec<char> = Vec::new();
    let mut i: usize = 0;
    while i < chars.len()
        invariant
            0 <= i <= chars@.len(),
            chars@ == text@,
            points@ == non_ascii_points(text@.take(i as int)),
        decreases chars.len() - i,
    {
        proof {
            assert(text@.take(i + 1).drop_last() == text@.take(i as int));
            assert(text@.take(i + 1).last() == chars@[i as int]);
        }
        let c = chars[i];
        if (c as u32) >= 128 {
            if points.len() > 0 {
                points.push(' ');
            }
            push_code_point(&mut points, c);
            proof {
                reveal_strlit(" ");
                if non_ascii_points(text@.take(i as int)).len() == 0 {
                    assert(points@ =~= code_point(c));
                }
            }
        }
        i = i + 1;
    }
    assert(text@.take(i as int) == text@);
    let mut r = String::new();
    push_char(&mut r, '"');
    push_str(&mut r, text);
    push_char(&mut r, '"');
    if points.len() > 0 {
        push_char(&mut r, ' ');
        push_char(&mut r, '[');
        push_str(&mut r, from_chars(points.as_slice()).as_str());
        push_char(&mut r, ']');
    }
    proof {
        reveal_strlit("\"");
        reveal_strlit("\" [");
        reveal_strlit("]");
    }
    r
}

} // verus!
