//! The ways two sources can disagree about how to encode the same text.
//!
//! An axis is a named transform plus a verdict on what should happen to it. A line is
//! *affected* when the transform changes it, which is all the scanner needs, and the
//! canonicalizer reuses the same transforms for the subset it is allowed to apply.
//!
//! [`Axis::apply`] returns a borrow when a line is already canonical along the axis: that is
//! both the fast path and the answer to "was this line affected?". Every axis fires only on
//! non-ASCII input, so an ASCII line is returned untouched before any work is done.

use std::borrow::Cow;

use vstd::prelude::*;
use vstd::utf8::is_ascii_chars;

use crate::text::{from_chars, str_eq, to_chars};
use crate::unicode::{char_from_u32, is_decimal_digit, is_decimal_number, is_nfc, is_scalar_value, kept_out, nfc, nfc_of, nfkc, nfkc_of};

verus! {

pub const SOFT_HYPHEN: char = '\u{00AD}';
pub const ZERO_WIDTH_NON_JOINER: char = '\u{200C}';
pub const ZERO_WIDTH_JOINER: char = '\u{200D}';

/// What should be done about text that varies along an axis.
#[derive(Debug, Clone, Copy, PartialEq, Eq, Structural)]
pub enum Action {
    /// Not a difference in the text. Canonicalizing folds these.
    Collapse,
    /// A genuine character difference that must survive. Reported, never folded.
    Preserve,
    /// Depends on your sources and rendering context. Opt in explicitly, after measuring.
    Decide,
}

/// Which compatibility mappings a fold is allowed to touch.
#[derive(Debug, Clone, Copy, PartialEq, Eq, Structural)]
pub enum Expansion {
    /// One character in, one out: a shaping or presentation variant. Safe to fold.
    Same,
    /// One character in, several out: a ligature. Reportable, never foldable.
    Expanding,
    /// Either. For axes that only ever report.
    Any,
}

/// How an axis rewrites a line.
#[derive(Debug, Clone, Copy)]
pub enum Rule {
    /// Delete every listed character.
    Strip(&'static [char]),
    /// Rewrite each listed character to its partner.
    Replace(&'static [(char, char)]),
    /// NFKC-fold characters inside the listed inclusive code-point ranges whose mapping the
    /// expansion accepts.
    NfkcWithin(&'static [(u32, u32)], Expansion),
    /// Compose the whole line.
    Nfc,
    /// Fold non-ASCII decimal digits to their ASCII value.
    AsciiDigits,
    /// A trailing soft hyphen was rendered as a real hyphen.
    SoftHyphenLineFinal,
    /// A soft hyphen anywhere but the end was never drawn.
    SoftHyphenMidLine,
}

/// One way two encodings of the same text can differ.
#[derive(Debug, Clone, Copy)]
pub struct Axis {
    pub name: &'static str,
    pub action: Action,
    pub rationale: &'static str,
    pub rule: Rule,
}

// ---------------------------------------------------------------------------------------------
// What each rule does to a line: `None` when the line is already canonical along the axis,
// `Some(folded)` when the transform changes it.

/// Characters `c` in `line` that are not in `set` are kept, in order.
pub open spec fn without(line: Seq<char>, set: Seq<char>) -> Seq<char> {
    line.filter(|c: char| !set.contains(c))
}

pub open spec fn strip_rule(set: Seq<char>, line: Seq<char>) -> Option<Seq<char>> {
    if exists|i: int| 0 <= i < line.len() && set.contains(line[i]) {
        Some(without(line, set))
    } else {
        None
    }
}

/// The partner of `c` under the first pair that names it.
pub open spec fn swap_of(pairs: Seq<(char, char)>, c: char) -> Option<char>
    decreases pairs.len(),
{
    if pairs.len() == 0 {
        None
    } else if pairs[0].0 == c {
        Some(pairs[0].1)
    } else {
        swap_of(pairs.drop_first(), c)
    }
}

pub open spec fn swapped(pairs: Seq<(char, char)>, c: char) -> char {
    match swap_of(pairs, c) {
        Some(to) => to,
        None => c,
    }
}

pub open spec fn replace_rule(pairs: Seq<(char, char)>, line: Seq<char>) -> Option<Seq<char>> {
    if exists|i: int| 0 <= i < line.len() && swap_of(pairs, line[i]) is Some {
        Some(line.map_values(|c: char| swapped(pairs, c)))
    } else {
        None
    }
}

pub open spec fn in_ranges(ranges: Seq<(u32, u32)>, c: char) -> bool {
    exists|i: int| 0 <= i < ranges.len() && ranges[i].0 <= (c as u32) && (c as u32) <= ranges[i].1
}

pub open spec fn accepts(expansion: Expansion, mapped: Seq<char>) -> bool {
    match expansion {
        Expansion::Same => mapped.len() <= 1,
        Expansion::Expanding => mapped.len() > 1,
        Expansion::Any => true,
    }
}

/// What one character becomes under an NFKC fold restricted to `ranges`.
pub open spec fn fold_char(ranges: Seq<(u32, u32)>, expansion: Expansion, c: char) -> Seq<char> {
    if !in_ranges(ranges, c) {
        seq![c]
    } else if accepts(expansion, nfkc_of(seq![c])) {
        nfkc_of(seq![c])
    } else {
        seq![c]
    }
}

pub open spec fn fold_all(ranges: Seq<(u32, u32)>, expansion: Expansion, line: Seq<char>) -> Seq<char>
    decreases line.len(),
{
    if line.len() == 0 {
        Seq::empty()
    } else {
        fold_all(ranges, expansion, line.drop_last()) + fold_char(ranges, expansion, line.last())
    }
}

pub open spec fn nfkc_within_rule(ranges: Seq<(u32, u32)>, expansion: Expansion, line: Seq<char>) -> Option<Seq<char>> {
    if exists|i: int| 0 <= i < line.len() && in_ranges(ranges, line[i]) {
        if fold_all(ranges, expansion, line) == line {
            None
        } else {
            Some(fold_all(ranges, expansion, line))
        }
    } else {
        None
    }
}

pub open spec fn nfc_rule(line: Seq<char>) -> Option<Seq<char>> {
    if nfc_of(line) == line {
        None
    } else {
        Some(nfc_of(line))
    }
}

/// Whether code point `v` is a decimal digit.
pub open spec fn digit_at(v: int) -> bool {
    is_scalar_value(v) && is_decimal_digit(v as u32 as char)
}

/// How many decimal digits directly precede code point `cp`, counting from `k` and stopping at
/// nine: a run of decimal digits is ten long, value zero first.
pub open spec fn run_offset(cp: int, k: nat) -> nat
    decreases 9 - k,
{
    if k >= 9 {
        k
    } else if digit_at(cp - k - 1) {
        run_offset(cp, k + 1)
    } else {
        k
    }
}

proof fn lemma_run_offset_bounded(cp: int, k: nat)
    requires
        k <= 9,
    ensures
        k <= run_offset(cp, k) <= 9,
    decreases 9 - k,
{
    if k < 9 && digit_at(cp - k - 1) {
        lemma_run_offset_bounded(cp, k + 1);
    }
}

/// The decimal value of a non-ASCII decimal digit: its distance from the start of its run.
pub open spec fn decimal_value_of(c: char) -> Option<nat> {
    if (c as u32) < 128 || !is_decimal_digit(c) {
        None
    } else {
        Some(run_offset(c as u32 as int, 0))
    }
}

pub open spec fn ascii_digit_of(c: char) -> char {
    match decimal_value_of(c) {
        Some(v) => crate::text::digit_char(v),
        None => c,
    }
}

pub open spec fn ascii_digits_rule(line: Seq<char>) -> Option<Seq<char>> {
    if exists|i: int| 0 <= i < line.len() && decimal_value_of(line[i]) is Some {
        Some(line.map_values(|c: char| ascii_digit_of(c)))
    } else {
        None
    }
}

pub open spec fn soft_hyphen_line_final_rule(line: Seq<char>) -> Option<Seq<char>> {
    if line.len() > 0 && line.last() == SOFT_HYPHEN {
        Some(line.drop_last().push('-'))
    } else {
        None
    }
}

pub open spec fn soft_hyphen_mid_line_rule(line: Seq<char>) -> Option<Seq<char>> {
    if line.len() > 0 && line.drop_last().contains(SOFT_HYPHEN) {
        Some(without(line.drop_last(), seq![SOFT_HYPHEN]).push(line.last()))
    } else {
        None
    }
}

pub open spec fn rule_result(rule: Rule, line: Seq<char>) -> Option<Seq<char>> {
    match rule {
        Rule::Strip(chars) => strip_rule(chars@, line),
        Rule::Replace(pairs) => replace_rule(pairs@, line),
        Rule::NfkcWithin(ranges, expansion) => nfkc_within_rule(ranges@, expansion, line),
        Rule::Nfc => nfc_rule(line),
        Rule::AsciiDigits => ascii_digits_rule(line),
        Rule::SoftHyphenLineFinal => soft_hyphen_line_final_rule(line),
        Rule::SoftHyphenMidLine => soft_hyphen_mid_line_rule(line),
    }
}

/// Every character of `after` is one a fold inside `ranges` leaves alone, and is either from
/// `before` or its own NFKC form and not one that `kept_out` lists.
pub open spec fn fold_settled(ranges: Seq<(u32, u32)>, before: Seq<char>, after: Seq<char>) -> bool {
    forall|i: int|
        0 <= i < after.len() ==> fold_char(ranges, Expansion::Same, #[trigger] after[i]) == seq![after[i]] && (before.contains(
            after[i],
        ) || (nfkc_of(seq![after[i]]) == seq![after[i]] && !kept_out(after[i])))
}

/// Every character a fold inside `ranges` looks at is one that `kept_out` lists.
pub open spec fn ranges_kept_out(ranges: Seq<(u32, u32)>) -> bool {
    forall|c: char| #[trigger] in_ranges(ranges, c) ==> kept_out(c)
}

/// Every character of `l` is one the fold leaves as it is.
pub open spec fn fold_fixed(ranges: Seq<(u32, u32)>, expansion: Expansion, l: Seq<char>) -> bool {
    forall|i: int| 0 <= i < l.len() ==> fold_char(ranges, expansion, #[trigger] l[i]) == seq![l[i]]
}

/// The axes of the default order.
pub open spec fn is_some_default_axis(axis: Axis) -> bool {
    exists|k: int| 0 <= k < 15 && #[trigger] is_default_axis(k, axis)
}

/// `after` is its own NFC form, holds a character that `kept_out` lists only where `before`
/// does, and ends with a soft hyphen, or holds one before its end, only where `before` does.
pub open spec fn composed_from(before: Seq<char>, after: Seq<char>) -> bool {
    &&& nfc_of(after) == after
    &&& forall|i: int| 0 <= i < after.len() && kept_out(#[trigger] after[i]) ==> before.contains(after[i])
    &&& (after.len() > 0 && after.last() == SOFT_HYPHEN) ==> (before.len() > 0 && before.last() == SOFT_HYPHEN)
    &&& (after.len() > 0 && after.drop_last().contains(SOFT_HYPHEN)) ==> (before.len() > 0 && before.drop_last().contains(
        SOFT_HYPHEN,
    ))
}

/// What an axis's step leaves behind beyond its rule: a composition that fired leaves its own
/// NFC form, bringing in nothing new of note; a one-for-one fold leaves only characters a second
/// fold leaves alone.
pub open spec fn step_facts(axis: Axis, line: Seq<char>) -> bool {
    match axis.rule {
        Rule::Nfc => axis.transform(line) matches Some(out) ==> composed_from(line, out),
        Rule::NfkcWithin(ranges, Expansion::Same) => !is_ascii_chars(line) ==> fold_settled(
            ranges@,
            line,
            match axis.transform(line) {
                Some(out) => out,
                None => line,
            },
        ),
        _ => true,
    }
}

pub open spec fn cow_is_owned(c: Cow<'_, str>) -> bool {
    match c {
        Cow::Owned(_) => true,
        Cow::Borrowed(_) => false,
    }
}

impl Axis {
    /// What this axis does to a line: `None` when the line is already canonical along it.
    pub open spec fn transform(self, line: Seq<char>) -> Option<Seq<char>> {
        if is_ascii_chars(line) {
            None
        } else {
            rule_result(self.rule, line)
        }
    }

    /// Whether this axis rewrites by an NFKC fold inside a code-point range.
    pub open spec fn spec_folds_compatibility(self) -> bool {
        self.rule is NfkcWithin
    }

    /// This line's canonical form along this axis, borrowed when it is already canonical.
    pub fn apply<'a>(&self, line: &'a str) -> (r: Cow<'a, str>)
        ensures
            r@ == match self.transform(line@) {
                Some(folded) => folded,
                None => line@,
            },
            cow_is_owned(r) == self.transform(line@) is Some,
            step_facts(*self, line@),
            (self.rule is Nfc || self.rule matches Rule::NfkcWithin(_, Expansion::Same) || is_some_default_axis(*self))
                ==> self.transform(r@) is None,
    {
        if line.is_ascii() {
            return Cow::Borrowed(line);
        }
        let folded = match &self.rule {
            Rule::Strip(chars) => strip(line, chars),
            Rule::Replace(pairs) => replace(line, pairs),
            Rule::NfkcWithin(ranges, expansion) => nfkc_within(line, ranges, *expansion),
            Rule::Nfc => compose(line),
            Rule::AsciiDigits => ascii_digits(line),
            Rule::SoftHyphenLineFinal => soft_hyphen_line_final(line),
            Rule::SoftHyphenMidLine => soft_hyphen_mid_line(line),
        };
        proof {
            let out = match &folded {
                Some(s) => s@,
                None => line@,
            };
            if let Rule::NfkcWithin(rs, e) = self.rule {
                if e == Expansion::Same {
                    assert(fold_settled(rs@, line@, out));
                    assert forall|i: int| 0 <= i < out.len() implies fold_char(rs@, Expansion::Same, #[trigger] out[i]) == seq![out[i]] by {}
                    crate::corpus::settle::lemma_fold_all_unchanged(rs@, Expansion::Same, out);
                }
            }
            if is_some_default_axis(*self) {
                let k = choose|k: int| 0 <= k < 15 && #[trigger] is_default_axis(k, *self);
                if let Rule::NfkcWithin(rs, e) = self.rule {
                    lemma_default_fold_ranges_kept_out(k, *self);
                    assert(fold_fixed(rs@, e, out));
                    crate::corpus::settle::lemma_fold_all_unchanged(rs@, e, out);
                } else if !(self.rule is Nfc) {
                    law_axis_transform_is_idempotent(k, *self, line@);
                    law_affects_means_changed(k, *self, out);
                }
            }
        }
        match folded {
            Some(s) => Cow::Owned(s),
            None => Cow::Borrowed(line),
        }
    }

    /// Whether this axis rewrites by an NFKC fold inside a code-point range, which is the kind
    /// of rule whose arity separates a presentation form from a ligature.
    pub fn folds_compatibility(&self) -> (r: bool)
        ensures
            r == self.spec_folds_compatibility(),
    {
        match &self.rule {
            Rule::NfkcWithin(..) => true,
            _ => false,
        }
    }

    /// The guide entry this axis is evidence for: mode 3 for the joiners, 5 for the Arabic
    /// forms, 4 for every other axis.
    pub fn failure_mode(&self) -> (r: u8)
        ensures
            r == axis_failure_mode(self.name@),
    {
        if str_eq(self.name, "zero_width_joiners") {
            3
        } else if str_eq(self.name, "arabic_presentation_forms") || str_eq(self.name, "arabic_ligatures") {
            5
        } else {
            4
        }
    }

    /// Whether this axis changes the line.
    pub fn affects(&self, line: &str) -> (r: bool)
        ensures
            r == self.transform(line@) is Some,
    {
        let folded = self.apply(line);
        match folded {
            Cow::Owned(_) => true,
            Cow::Borrowed(_) => false,
        }
    }
}

/// The failure mode an axis of this name is evidence for.
pub open spec fn axis_failure_mode(name: Seq<char>) -> u8 {
    if name == "zero_width_joiners"@ {
        3
    } else if name == "arabic_presentation_forms"@ || name == "arabic_ligatures"@ {
        5
    } else {
        4
    }
}

fn contains_char(set: &[char], c: char) -> (r: bool)
    ensures
        r == set@.contains(c),
{
    let mut i: usize = 0;
    while i < set.len()
        invariant
            0 <= i <= set@.len(),
            forall|j: int| 0 <= j < i ==> set@[j] != c,
        decreases set.len() - i,
    {
        if set[i] == c {
            return true;
        }
        i = i + 1;
    }
    false
}

fn strip(line: &str, set: &[char]) -> (r: Option<String>)
    ensures
        r matches Some(s) ==> strip_rule(set@, line@) == Some(s@),
        r is None ==> strip_rule(set@, line@) is None,
{
    let chars = to_chars(line);
    let mut out: Vec<char> = Vec::new();
    let mut found = false;
    let mut i: usize = 0;
    let ghost keep = |c: char| !set@.contains(c);
    while i < chars.len()
        invariant
            0 <= i <= chars@.len(),
            chars@ == line@,
            keep == (|c: char| !set@.contains(c)),
            out@ == chars@.take(i as int).filter(keep),
            found == exists|j: int| 0 <= j < i && set@.contains(chars@[j]),
        decreases chars.len() - i,
    {
        let c = chars[i];
        proof {
            assert(chars@.take(i + 1).drop_last() == chars@.take(i as int));
            reveal_with_fuel(Seq::filter, 1);
        }
        if contains_char(set, c) {
            found = true;
        } else {
            out.push(c);
        }
        i = i + 1;
    }
    assert(chars@.take(i as int) == chars@);
    if found {
        Some(from_chars(out.as_slice()))
    } else {
        None
    }
}

fn swap_char(pairs: &[(char, char)], c: char) -> (r: Option<char>)
    ensures
        r == swap_of(pairs@, c),
{
    let mut i: usize = 0;
    assert(pairs@.skip(0) == pairs@);
    while i < pairs.len()
        invariant
            0 <= i <= pairs@.len(),
            swap_of(pairs@, c) == swap_of(pairs@.skip(i as int), c),
        decreases pairs.len() - i,
    {
        assert(pairs@.skip(i as int)[0] == pairs@[i as int]);
        assert(pairs@.skip(i as int).drop_first() == pairs@.skip(i + 1));
        if pairs[i].0 == c {
            return Some(pairs[i].1);
        }
        i = i + 1;
    }
    None
}

fn replace(line: &str, pairs: &[(char, char)]) -> (r: Option<String>)
    ensures
        r matches Some(s) ==> replace_rule(pairs@, line@) == Some(s@),
        r is None ==> replace_rule(pairs@, line@) is None,
{
    let chars = to_chars(line);
    let mut out: Vec<char> = Vec::new();
    let mut found = false;
    let mut i: usize = 0;
    assert(pairs@.skip(0) == pairs@);
    while i < chars.len()
        invariant
            0 <= i <= chars@.len(),
            chars@ == line@,
            out@ == chars@.take(i as int).map_values(|c: char| swapped(pairs@, c)),
            found == exists|j: int| 0 <= j < i && swap_of(pairs@, chars@[j]) is Some,
        decreases chars.len() - i,
    {
        let c = chars[i];
        match swap_char(pairs, c) {
            Some(to) => {
                found = true;
                out.push(to);
            },
            None => {
                out.push(c);
            },
        }
        assert(out@ =~= chars@.take(i + 1).map_values(|c: char| swapped(pairs@, c)));
        i = i + 1;
    }
    assert(chars@.take(i as int) == chars@);
    if found {
        Some(from_chars(out.as_slice()))
    } else {
        None
    }
}

fn within(ranges: &[(u32, u32)], c: char) -> (r: bool)
    ensures
        r == in_ranges(ranges@, c),
{
    let v = c as u32;
    let mut i: usize = 0;
    while i < ranges.len()
        invariant
            0 <= i <= ranges@.len(),
            v == c as u32,
            forall|j: int| 0 <= j < i ==> !(ranges@[j].0 <= v && v <= ranges@[j].1),
        decreases ranges.len() - i,
    {
        if ranges[i].0 <= v && v <= ranges[i].1 {
            return true;
        }
        i = i + 1;
    }
    false
}

fn expansion_accepts(expansion: Expansion, mapped: &str) -> (r: bool)
    ensures
        r == accepts(expansion, mapped@),
{
    let expands = to_chars(mapped).len() > 1;
    match expansion {
        Expansion::Same => !expands,
        Expansion::Expanding => expands,
        Expansion::Any => true,
    }
}

fn nfkc_within(line: &str, ranges: &[(u32, u32)], expansion: Expansion) -> (r: Option<String>)
    ensures
        r matches Some(s) ==> nfkc_within_rule(ranges@, expansion, line@) == Some(s@),
        r is None ==> nfkc_within_rule(ranges@, expansion, line@) is None,
        expansion == Expansion::Same ==> fold_settled(
            ranges@,
            line@,
            match r {
                Some(s) => s@,
                None => line@,
            },
        ),
        ranges_kept_out(ranges@) ==> fold_fixed(
            ranges@,
            expansion,
            match r {
                Some(s) => s@,
                None => line@,
            },
        ),
{
    let chars = to_chars(line);
    let mut folded: Vec<char> = Vec::new();
    let mut any_inside = false;
    let mut i: usize = 0;
    while i < chars.len()
        invariant
            0 <= i <= chars@.len(),
            chars@ == line@,
            folded@ == fold_all(ranges@, expansion, chars@.take(i as int)),
            any_inside == exists|j: int| 0 <= j < i && in_ranges(ranges@, chars@[j]),
            expansion == Expansion::Same ==> fold_settled(ranges@, line@, folded@),
            ranges_kept_out(ranges@) ==> fold_fixed(ranges@, expansion, folded@),
            !any_inside ==> folded@ == chars@.take(i as int),
        decreases chars.len() - i,
    {
        let c = chars[i];
        assert(chars@.take(i + 1).drop_last() == chars@.take(i as int));
        assert(chars@.take(i + 1).last() == c);
        assert(line@.contains(c)) by {
            assert(line@[i as int] == c);
        }
        let ghost before = folded@;
        if !within(ranges, c) {
            folded.push(c);
            proof {
                assert(fold_char(ranges@, Expansion::Same, c) == seq![c]);
                assert(fold_char(ranges@, expansion, c) == seq![c]);
                assert(folded@ =~= before.push(c));
            }
        } else {
            any_inside = true;
            let one = from_chars(&[c]);
            let mapped = nfkc(one.as_str());
            assert(one@ == seq![c]);
            if expansion_accepts(expansion, mapped.as_str()) {
                let m = to_chars(mapped.as_str());
                folded.extend_from_slice(m.as_slice());
                proof {
                    assert(folded@ =~= before + m@);
                    if ranges_kept_out(ranges@) {
                        assert forall|k: int| 0 <= k < m@.len() implies fold_char(ranges@, expansion, #[trigger] m@[k]) == seq![m@[k]] by {
                            let d = m@[k];
                            if in_ranges(ranges@, d) {
                                assert(kept_out(d));
                                assert(mapped@[k] == d);
                                assert(nfkc_of(seq![d]) == seq![d]);
                            }
                        }
                        assert forall|k: int| 0 <= k < folded@.len() implies fold_char(ranges@, expansion, #[trigger] folded@[k]) == seq![folded@[k]] by {
                            if k < before.len() {
                                assert(folded@[k] == before[k]);
                            } else {
                                assert(folded@[k] == m@[k - before.len()]);
                            }
                        }
                    }
                    if expansion == Expansion::Same {
                        assert(m@.len() <= 1);
                        if m@.len() == 1 {
                            let d = m@[0];
                            assert(m@ =~= seq![d]);
                            assert(nfkc_of(seq![d]) == seq![d]);
                            if kept_out(d) {
                                assert(seq![c].contains(d));
                                assert(seq![c][0] == c);
                                assert(d == c);
                            }
                            if in_ranges(ranges@, d) {
                                assert(accepts(Expansion::Same, nfkc_of(seq![d])));
                            }
                            assert(fold_char(ranges@, Expansion::Same, d) == seq![d]);
                            assert forall|k: int| 0 <= k < folded@.len() implies fold_char(ranges@, Expansion::Same, #[trigger] folded@[k]) == seq![folded@[k]] && (line@.contains(
                                folded@[k],
                            ) || (nfkc_of(seq![folded@[k]]) == seq![folded@[k]] && !kept_out(folded@[k]))) by {
                                if k == before.len() {
                                    assert(folded@[k] == d);
                                } else {
                                    assert(folded@[k] == before[k]);
                                }
                            }
                        } else {
                            assert(folded@ =~= before);
                        }
                    }
                }
            } else {
                folded.push(c);
                proof {
                    assert(fold_char(ranges@, expansion, c) == seq![c]);
                    assert(folded@ =~= before.push(c));
                }
            }
        }
        proof {
            if ranges_kept_out(ranges@) {
                assert forall|k: int| 0 <= k < folded@.len() implies fold_char(ranges@, expansion, #[trigger] folded@[k]) == seq![folded@[k]] by {
                    if k < before.len() {
                        assert(folded@[k] == before[k]);
                    }
                }
            }
            if expansion == Expansion::Same {
                assert forall|k: int| 0 <= k < folded@.len() implies fold_char(ranges@, Expansion::Same, #[trigger] folded@[k]) == seq![folded@[k]] && (line@.contains(
                    folded@[k],
                ) || (nfkc_of(seq![folded@[k]]) == seq![folded@[k]] && !kept_out(folded@[k]))) by {
                    if k < before.len() {
                        assert(folded@[k] == before[k]);
                    }
                }
            }
        }
        i = i + 1;
    }
    assert(chars@.take(i as int) == chars@);
    if !any_inside {
        return None;
    }
    if same_chars(&folded, &chars) {
        None
    } else {
        Some(from_chars(folded.as_slice()))
    }
}

fn same_chars(a: &Vec<char>, b: &Vec<char>) -> (r: bool)
    ensures
        r == (a@ == b@),
{
    if a.len() != b.len() {
        return false;
    }
    let mut i: usize = 0;
    while i < a.len()
        invariant
            0 <= i <= a@.len(),
            a@.len() == b@.len(),
            forall|j: int| 0 <= j < i ==> a@[j] == b@[j],
        decreases a.len() - i,
    {
        if a[i] != b[i] {
            return false;
        }
        i = i + 1;
    }
    assert(a@ =~= b@);
    true
}

fn compose(line: &str) -> (r: Option<String>)
    ensures
        r matches Some(s) ==> nfc_rule(line@) == Some(s@) && composed_from(line@, s@),
        r is None ==> nfc_rule(line@) is None,
{
    if is_nfc(line) {
        None
    } else {
        Some(nfc(line))
    }
}

/// The decimal value of a non-ASCII decimal digit, or `None` for anything else.
///
/// Unicode assigns decimal digits in aligned runs of ten, value zero first, so the distance
/// back to the start of the run is the value.
pub fn decimal_value(c: char) -> (r: Option<u32>)
    ensures
        r matches Some(v) ==> decimal_value_of(c) == Some(v as nat),
        r is None ==> decimal_value_of(c) is None,
{
    if (c as u32) < 128 || !is_decimal_number(c) {
        return None;
    }
    let cp = c as u32;
    let mut value: u32 = 0;
    while value < 9
        invariant_except_break
            value <= 9,
            cp == c as u32,
            cp >= 128,
            run_offset(cp as int, 0) == run_offset(cp as int, value as nat),
        ensures
            value <= 9,
            run_offset(cp as int, 0) == value,
        decreases 9 - value,
    {
        let previous = char_from_u32(cp - (value + 1));
        match previous {
            Some(p) => {
                proof { vstd::utf8::char_u32_cast(p, (cp - (value + 1)) as u32); }
                if is_decimal_number(p) {
                    assert(digit_at(cp - value - 1));
                    value = value + 1;
                } else {
                    assert(!digit_at(cp - value - 1));
                    break;
                }
            },
            None => {
                assert(!digit_at(cp - value - 1));
                break;
            },
        }
    }
    Some(value)
}

fn ascii_digits(line: &str) -> (r: Option<String>)
    ensures
        r matches Some(s) ==> ascii_digits_rule(line@) == Some(s@),
        r is None ==> ascii_digits_rule(line@) is None,
{
    let chars = to_chars(line);
    let mut out: Vec<char> = Vec::new();
    let mut found = false;
    let mut i: usize = 0;
    while i < chars.len()
        invariant
            0 <= i <= chars@.len(),
            chars@ == line@,
            out@ == chars@.take(i as int).map_values(|c: char| ascii_digit_of(c)),
            found == exists|j: int| 0 <= j < i && decimal_value_of(chars@[j]) is Some,
        decreases chars.len() - i,
    {
        let c = chars[i];
        match decimal_value(c) {
            Some(v) => {
                proof { lemma_run_offset_bounded(c as u32 as int, 0); }
                found = true;
                out.push(crate::text::digit(v as u64));
            },
            None => {
                out.push(c);
            },
        }
        assert(out@ =~= chars@.take(i + 1).map_values(|c: char| ascii_digit_of(c)));
        i = i + 1;
    }
    assert(chars@.take(i as int) == chars@);
    if found {
        Some(from_chars(out.as_slice()))
    } else {
        None
    }
}

fn soft_hyphen_line_final(line: &str) -> (r: Option<String>)
    ensures
        r matches Some(s) ==> soft_hyphen_line_final_rule(line@) == Some(s@),
        r is None ==> soft_hyphen_line_final_rule(line@) is None,
{
    let mut chars = to_chars(line);
    let n = chars.len();
    if n > 0 && chars[n - 1] == SOFT_HYPHEN {
        chars.set(n - 1, '-');
        assert(chars@ =~= line@.drop_last().push('-'));
        Some(from_chars(chars.as_slice()))
    } else {
        None
    }
}

fn soft_hyphen_mid_line(line: &str) -> (r: Option<String>)
    ensures
        r matches Some(s) ==> soft_hyphen_mid_line_rule(line@) == Some(s@),
        r is None ==> soft_hyphen_mid_line_rule(line@) is None,
{
    let chars = to_chars(line);
    let n = chars.len();
    if n == 0 {
        return None;
    }
    let mut out: Vec<char> = Vec::new();
    let mut found = false;
    let mut i: usize = 0;
    let ghost head = chars@.drop_last();
    let ghost keep = |c: char| !seq![SOFT_HYPHEN].contains(c);
    while i < n - 1
        invariant
            0 <= i <= n - 1,
            n == chars@.len(),
            head == chars@.drop_last(),
            keep == (|c: char| !seq![SOFT_HYPHEN].contains(c)),
            out@ == head.take(i as int).filter(keep),
            found == exists|j: int| 0 <= j < i && head[j] == SOFT_HYPHEN,
        decreases n - 1 - i,
    {
        let c = chars[i];
        proof {
            assert(head.take(i + 1).drop_last() == head.take(i as int));
            assert(head[i as int] == c);
            reveal_with_fuel(Seq::filter, 1);
            assert(seq![SOFT_HYPHEN].contains(c) <==> c == SOFT_HYPHEN) by {
                if c == SOFT_HYPHEN { assert(seq![SOFT_HYPHEN][0] == c); }
            }
        }
        if c == SOFT_HYPHEN {
            found = true;
        } else {
            out.push(c);
        }
        i = i + 1;
    }
    assert(head.take(i as int) == head);
    assert(found == head.contains(SOFT_HYPHEN));
    if found {
        out.push(chars[n - 1]);
        Some(from_chars(out.as_slice()))
    } else {
        None
    }
}


/// Curly quotes and dash variants, each with its ASCII partner.
pub open spec fn typographic_punctuation() -> Seq<(char, char)> {
    seq![('\u{2018}', '\''), ('\u{2019}', '\''), ('\u{201C}', '"'), ('\u{201D}', '"'), ('\u{2010}', '-'), ('\u{2011}', '-'), ('\u{2012}', '-'), ('\u{2013}', '-'), ('\u{2014}', '-'), ('\u{2015}', '-'), ('\u{2212}', '-')]
}

/// The name of each default axis, in order.
pub open spec fn default_axis_names() -> Seq<Seq<char>> {
    seq!["zero_width_non_content"@, "arabic_presentation_forms"@, "arabic_ligatures"@, "hebrew_presentation_forms"@, "hebrew_ligatures"@, "nbsp"@, "soft_hyphen_line_final"@, "soft_hyphen_mid_line"@, "nfc_composition"@, "fullwidth_forms"@, "ligatures"@, "non_ascii_digits"@, "typographic_punctuation"@, "ideographic_space"@, "zero_width_joiners"@]
}

/// The verdict on each default axis, in order.
pub open spec fn default_axis_actions() -> Seq<Action> {
    seq![Action::Collapse, Action::Collapse, Action::Preserve, Action::Collapse, Action::Preserve, Action::Collapse, Action::Decide, Action::Decide, Action::Collapse, Action::Preserve, Action::Preserve, Action::Preserve, Action::Preserve, Action::Preserve, Action::Preserve]
}

/// The reason given for each default axis, in order.
pub open spec fn default_axis_rationales() -> Seq<Seq<char>> {
    seq!["BOM and zero-width space are not page content"@, "legacy pre-shaped glyphs; shaping is derivable from context"@, "a ligature is a distinct glyph on the page, like the Latin fi"@, "legacy precomposed letter+point glyphs; identical to the logical sequence"@, "a ligature is a distinct glyph on the page, like the Latin fi"@, "differs only in line-breaking, which a line image cannot show"@, "rendered as a real hyphen where the line breaks"@, "never drawn away from a line break"@, "canonically equivalent \u{2014} not a difference in the text"@, "different characters with visibly wider glyphs"@, "typography the model can see in the image"@, "Arabic-Indic and other digits are visibly distinct from ASCII"@, "curly quotes and dash widths are distinct glyphs"@, "U+3000 is a visibly wider space"@, "ZWJ and ZWNJ change the shape of neighbouring letters"@]
}

/// The rule of the `k`-th default axis.
pub open spec fn default_axis_rule(k: int, a: Axis) -> bool {
    if k == 0 {
        a.rule matches Rule::Strip(cs) && cs@ == seq!['\u{FEFF}', '\u{200B}']
    } else if k == 1 {
        a.rule matches Rule::NfkcWithin(rs, e) && rs@ == seq![(0xFB50u32, 0xFDFFu32), (0xFE70u32, 0xFEFFu32)] && e == Expansion::Same
    } else if k == 2 {
        a.rule matches Rule::NfkcWithin(rs, e) && rs@ == seq![(0xFB50u32, 0xFDFFu32), (0xFE70u32, 0xFEFFu32)] && e == Expansion::Expanding
    } else if k == 3 {
        a.rule matches Rule::NfkcWithin(rs, e) && rs@ == seq![(0xFB1Du32, 0xFB4Fu32)] && e == Expansion::Same
    } else if k == 4 {
        a.rule matches Rule::NfkcWithin(rs, e) && rs@ == seq![(0xFB1Du32, 0xFB4Fu32)] && e == Expansion::Expanding
    } else if k == 5 {
        a.rule matches Rule::Replace(ps) && ps@ == seq![('\u{00A0}', ' ')]
    } else if k == 6 {
        a.rule matches Rule::SoftHyphenLineFinal
    } else if k == 7 {
        a.rule matches Rule::SoftHyphenMidLine
    } else if k == 8 {
        a.rule matches Rule::Nfc
    } else if k == 9 {
        a.rule matches Rule::NfkcWithin(rs, e) && rs@ == seq![(0xFF01u32, 0xFF60u32), (0xFFE0u32, 0xFFE6u32)] && e == Expansion::Any
    } else if k == 10 {
        a.rule matches Rule::NfkcWithin(rs, e) && rs@ == seq![(0xFB00u32, 0xFB1Cu32)] && e == Expansion::Expanding
    } else if k == 11 {
        a.rule matches Rule::AsciiDigits
    } else if k == 12 {
        a.rule matches Rule::Replace(ps) && ps@ == typographic_punctuation()
    } else if k == 13 {
        a.rule matches Rule::Replace(ps) && ps@ == seq![('\u{3000}', ' ')]
    } else if k == 14 {
        a.rule matches Rule::Strip(cs) && cs@ == seq![ZERO_WIDTH_NON_JOINER, ZERO_WIDTH_JOINER]
    } else {
        false
    }
}

/// The `k`-th default axis: its name, verdict, reason and rule.
pub open spec fn is_default_axis(k: int, a: Axis) -> bool {
    &&& a.name@ == default_axis_names()[k]
    &&& a.action == default_axis_actions()[k]
    &&& a.rationale@ == default_axis_rationales()[k]
    &&& default_axis_rule(k, a)
}

/// The axes the guide covers.
///
/// Order matters for the axes a run can apply: the BOM sits inside the Arabic Forms-B range, so
/// it must be stripped before that fold runs, and NFC runs after every other such axis, because
/// folding can emit decomposed sequences and stripping a soft hyphen can bring a letter and a
/// combining mark together; composing last is what lets a second pass change nothing.
pub fn default_axes() -> (r: Vec<Axis>)
    ensures
        r@.len() == 15,
        forall|k: int| 0 <= k < 15 ==> #[trigger] is_default_axis(k, r@[k]),
{
    let r = vec![
        Axis {
            name: "zero_width_non_content",
            action: Action::Collapse,
            rationale: "BOM and zero-width space are not page content",
            rule: Rule::Strip(&['\u{FEFF}', '\u{200B}']),
        },
        Axis {
            name: "arabic_presentation_forms",
            action: Action::Collapse,
            rationale: "legacy pre-shaped glyphs; shaping is derivable from context",
            rule: Rule::NfkcWithin(&[(0xFB50, 0xFDFF), (0xFE70, 0xFEFF)], Expansion::Same),
        },
        Axis {
            name: "arabic_ligatures",
            action: Action::Preserve,
            rationale: "a ligature is a distinct glyph on the page, like the Latin fi",
            rule: Rule::NfkcWithin(&[(0xFB50, 0xFDFF), (0xFE70, 0xFEFF)], Expansion::Expanding),
        },
        Axis {
            name: "hebrew_presentation_forms",
            action: Action::Collapse,
            rationale: "legacy precomposed letter+point glyphs; identical to the logical sequence",
            rule: Rule::NfkcWithin(&[(0xFB1D, 0xFB4F)], Expansion::Same),
        },
        Axis {
            name: "hebrew_ligatures",
            action: Action::Preserve,
            rationale: "a ligature is a distinct glyph on the page, like the Latin fi",
            rule: Rule::NfkcWithin(&[(0xFB1D, 0xFB4F)], Expansion::Expanding),
        },
        Axis {
            name: "nbsp",
            action: Action::Collapse,
            rationale: "differs only in line-breaking, which a line image cannot show",
            rule: Rule::Replace(&[('\u{00A0}', ' ')]),
        },
        Axis {
            name: "soft_hyphen_line_final",
            action: Action::Decide,
            rationale: "rendered as a real hyphen where the line breaks",
            rule: Rule::SoftHyphenLineFinal,
        },
        Axis {
            name: "soft_hyphen_mid_line",
            action: Action::Decide,
            rationale: "never drawn away from a line break",
            rule: Rule::SoftHyphenMidLine,
        },
        Axis {
            name: "nfc_composition",
            action: Action::Collapse,
            rationale: "canonically equivalent \u{2014} not a difference in the text",
            rule: Rule::Nfc,
        },
        Axis {
            name: "fullwidth_forms",
            action: Action::Preserve,
            rationale: "different characters with visibly wider glyphs",
            rule: Rule::NfkcWithin(&[(0xFF01, 0xFF60), (0xFFE0, 0xFFE6)], Expansion::Any),
        },
        Axis {
            name: "ligatures",
            action: Action::Preserve,
            rationale: "typography the model can see in the image",
            rule: Rule::NfkcWithin(&[(0xFB00, 0xFB1C)], Expansion::Expanding),
        },
        Axis {
            name: "non_ascii_digits",
            action: Action::Preserve,
            rationale: "Arabic-Indic and other digits are visibly distinct from ASCII",
            rule: Rule::AsciiDigits,
        },
        Axis {
            name: "typographic_punctuation",
            action: Action::Preserve,
            rationale: "curly quotes and dash widths are distinct glyphs",
            rule: Rule::Replace(&[('\u{2018}', '\''), ('\u{2019}', '\''), ('\u{201C}', '"'), ('\u{201D}', '"'), ('\u{2010}', '-'), ('\u{2011}', '-'), ('\u{2012}', '-'), ('\u{2013}', '-'), ('\u{2014}', '-'), ('\u{2015}', '-'), ('\u{2212}', '-')]),
        },
        Axis {
            name: "ideographic_space",
            action: Action::Preserve,
            rationale: "U+3000 is a visibly wider space",
            rule: Rule::Replace(&[('\u{3000}', ' ')]),
        },
        Axis {
            name: "zero_width_joiners",
            action: Action::Preserve,
            rationale: "ZWJ and ZWNJ change the shape of neighbouring letters",
            rule: Rule::Strip(&[ZERO_WIDTH_NON_JOINER, ZERO_WIDTH_JOINER]),
        },
    ];
    proof {
        assert(r@[0].rule matches Rule::Strip(cs) && cs@ =~= seq!['\u{FEFF}', '\u{200B}']);
        assert(is_default_axis(0, r@[0]));
        assert(r@[1].rule matches Rule::NfkcWithin(rs, e) && rs@ =~= seq![(0xFB50u32, 0xFDFFu32), (0xFE70u32, 0xFEFFu32)]);
        assert(is_default_axis(1, r@[1]));
        assert(r@[2].rule matches Rule::NfkcWithin(rs, e) && rs@ =~= seq![(0xFB50u32, 0xFDFFu32), (0xFE70u32, 0xFEFFu32)]);
        assert(is_default_axis(2, r@[2]));
        assert(r@[3].rule matches Rule::NfkcWithin(rs, e) && rs@ =~= seq![(0xFB1Du32, 0xFB4Fu32)]);
        assert(is_default_axis(3, r@[3]));
        assert(r@[4].rule matches Rule::NfkcWithin(rs, e) && rs@ =~= seq![(0xFB1Du32, 0xFB4Fu32)]);
        assert(is_default_axis(4, r@[4]));
        assert(r@[5].rule matches Rule::Replace(ps) && ps@ =~= seq![('\u{00A0}', ' ')]);
        assert(is_default_axis(5, r@[5]));
        assert(is_default_axis(6, r@[6]));
        assert(is_default_axis(7, r@[7]));
        assert(is_default_axis(8, r@[8]));
        assert(r@[9].rule matches Rule::NfkcWithin(rs, e) && rs@ =~= seq![(0xFF01u32, 0xFF60u32), (0xFFE0u32, 0xFFE6u32)]);
        assert(is_default_axis(9, r@[9]));
        assert(r@[10].rule matches Rule::NfkcWithin(rs, e) && rs@ =~= seq![(0xFB00u32, 0xFB1Cu32)]);
        assert(is_default_axis(10, r@[10]));
        assert(is_default_axis(11, r@[11]));
        assert(r@[12].rule matches Rule::Replace(ps) && ps@ =~= typographic_punctuation());
        assert(is_default_axis(12, r@[12]));
        assert(r@[13].rule matches Rule::Replace(ps) && ps@ =~= seq![('\u{3000}', ' ')]);
        assert(is_default_axis(13, r@[13]));
        assert(r@[14].rule matches Rule::Strip(cs) && cs@ =~= seq![ZERO_WIDTH_NON_JOINER, ZERO_WIDTH_JOINER]);
        assert(is_default_axis(14, r@[14]));
    }
    r
}

/// A line after this axis: folded when the axis fires, unchanged otherwise.
pub open spec fn axis_step(axis: Axis, line: Seq<char>) -> Seq<char> {
    match axis.transform(line) {
        Some(folded) => folded,
        None => line,
    }
}

proof fn lemma_without_has_none(line: Seq<char>, set: Seq<char>)
    ensures
        forall|i: int| 0 <= i < without(line, set).len() ==> !set.contains(#[trigger] without(line, set)[i]),
{
    assert forall|i: int| 0 <= i < without(line, set).len() implies !set.contains(#[trigger] without(line, set)[i]) by {
        line.lemma_filter_pred(|c: char| !set.contains(c), i);
    }
}

/// Each character of `line` put through the pairs.
spec fn replaced(pairs: Seq<(char, char)>, line: Seq<char>) -> Seq<char> {
    line.map_values(|c: char| swapped(pairs, c))
}

/// Replacing by pairs whose partners are never themselves replaced leaves nothing to replace.
proof fn lemma_replace_settles(pairs: Seq<(char, char)>, line: Seq<char>)
    requires
        forall|c: char| #[trigger] swap_of(pairs, c) is Some ==> swap_of(pairs, swapped(pairs, c)) is None,
    ensures
        forall|i: int| 0 <= i < line.len() ==> swap_of(pairs, #[trigger] replaced(pairs, line)[i]) is None,
{
    assert forall|i: int| 0 <= i < line.len() implies swap_of(pairs, #[trigger] replaced(pairs, line)[i]) is None by {
        let c = line[i];
        assert(replaced(pairs, line)[i] == swapped(pairs, c));
        if swap_of(pairs, c) is Some {
        }
    }
}

proof fn lemma_ascii_digit_settles(c: char)
    ensures
        decimal_value_of(ascii_digit_of(c)) is None,
{
    if let Some(v) = decimal_value_of(c) {
        lemma_run_offset_bounded(c as u32 as int, 0);
        assert(v <= 9);
        assert((crate::text::digit_char(v) as u32) < 128);
    }
}

/// Applying an axis twice changes the line no more than applying it once, for every default
/// axis whose rule strips, replaces, folds digits or handles soft hyphens: a second pass finds
/// nothing left to do.
pub proof fn law_axis_transform_is_idempotent(k: int, axis: Axis, line: Seq<char>)
    requires
        is_default_axis(k, axis),
        k == 0 || k == 5 || k == 6 || k == 7 || k == 11 || k == 12 || k == 13 || k == 14,
    ensures
        axis_step(axis, axis_step(axis, line)) == axis_step(axis, line),
{
    let once = axis_step(axis, line);
    if axis.transform(line) is Some && !is_ascii_chars(once) {
        match axis.rule {
            Rule::Strip(cs) => {
                lemma_without_has_none(line, cs@);
            },
            Rule::Replace(ps) => {
                reveal_with_fuel(swap_of, 12);
                assert forall|c: char| #[trigger] swap_of(ps@, c) is Some implies swap_of(ps@, swapped(ps@, c)) is None by {}
                lemma_replace_settles(ps@, line);
                assert(once =~= replaced(ps@, line));
            },
            Rule::AsciiDigits => {
                assert forall|i: int| 0 <= i < once.len() implies decimal_value_of(#[trigger] once[i]) is None by {
                    lemma_ascii_digit_settles(line[i]);
                }
            },
            Rule::SoftHyphenLineFinal => {
                assert(once.last() == '-');
            },
            Rule::SoftHyphenMidLine => {
                let kept = without(line.drop_last(), seq![SOFT_HYPHEN]);
                lemma_without_has_none(line.drop_last(), seq![SOFT_HYPHEN]);
                assert(once.drop_last() =~= kept);
                assert(!kept.contains(SOFT_HYPHEN)) by {
                    if kept.contains(SOFT_HYPHEN) {
                        let i = choose|i: int| 0 <= i < kept.len() && kept[i] == SOFT_HYPHEN;
                        assert(seq![SOFT_HYPHEN][0] == SOFT_HYPHEN);
                        assert(seq![SOFT_HYPHEN].contains(kept[i]));
                    }
                }
            },
            _ => {},
        }
    }
}

proof fn lemma_without_shorter(line: Seq<char>, set: Seq<char>, i: int)
    requires
        0 <= i < line.len(),
        set.contains(line[i]),
    ensures
        without(line, set).len() < line.len(),
    decreases line.len(),
{
    reveal(Seq::filter);
    line.lemma_filter_len(|c: char| !set.contains(c));
    if i < line.len() - 1 {
        lemma_without_shorter(line.drop_last(), set, i);
        line.drop_last().lemma_filter_len(|c: char| !set.contains(c));
    } else {
        line.drop_last().lemma_filter_len(|c: char| !set.contains(c));
    }
}

/// A default axis fires on a line exactly when it changes the line: what `affects` answers is
/// whether `apply` gives back something else.
pub proof fn law_affects_means_changed(k: int, axis: Axis, line: Seq<char>)
    requires
        is_default_axis(k, axis),
    ensures
        (axis.transform(line) is Some) == (axis_step(axis, line) != line),
{
    if !is_ascii_chars(line) {
        match axis.rule {
            Rule::Strip(cs) => {
                if strip_rule(cs@, line) is Some {
                    let i = choose|i: int| 0 <= i < line.len() && cs@.contains(line[i]);
                    lemma_without_shorter(line, cs@, i);
                }
            },
            Rule::Replace(ps) => {
                reveal_with_fuel(swap_of, 12);
                if replace_rule(ps@, line) is Some {
                    let i = choose|i: int| 0 <= i < line.len() && swap_of(ps@, line[i]) is Some;
                    assert(replaced(ps@, line)[i] != line[i]);
                    assert(axis_step(axis, line) =~= replaced(ps@, line));
                }
            },
            Rule::AsciiDigits => {
                if ascii_digits_rule(line) is Some {
                    let i = choose|i: int| 0 <= i < line.len() && decimal_value_of(line[i]) is Some;
                    lemma_ascii_digit_settles(line[i]);
                    assert(axis_step(axis, line)[i] == ascii_digit_of(line[i]));
                }
            },
            Rule::SoftHyphenLineFinal => {
                if soft_hyphen_line_final_rule(line) is Some {
                    assert(axis_step(axis, line).last() == '-');
                }
            },
            Rule::SoftHyphenMidLine => {
                if soft_hyphen_mid_line_rule(line) is Some {
                    let d = line.drop_last();
                    let i = choose|i: int| 0 <= i < d.len() && d[i] == SOFT_HYPHEN;
                    assert(seq![SOFT_HYPHEN][0] == SOFT_HYPHEN);
                    assert(seq![SOFT_HYPHEN].contains(d[i]));
                    lemma_without_shorter(d, seq![SOFT_HYPHEN], i);
                }
            },
            _ => {},
        }
    }
}

/// Every character a default fold looks at is one that `kept_out` lists.
pub proof fn lemma_default_fold_ranges_kept_out(k: int, axis: Axis)
    requires
        0 <= k < 15,
        is_default_axis(k, axis),
        axis.rule is NfkcWithin,
    ensures
        axis.rule matches Rule::NfkcWithin(rs, _) && ranges_kept_out(rs@),
{
    if let Rule::NfkcWithin(rs, e) = axis.rule {
        assert forall|c: char| #[trigger] in_ranges(rs@, c) implies kept_out(c) by {
            let i = choose|i: int| 0 <= i < rs@.len() && rs@[i].0 <= (c as u32) && (c as u32) <= rs@[i].1;
        }
    }
}

} // verus!
