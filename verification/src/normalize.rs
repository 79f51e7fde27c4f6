//! Line canonicalization as a preparation run configures it.
//!
//! Each character is mapped by the configured rules (stripped, a soft hyphen made visible or
//! dropped, a no-break space made plain, an Arabic presentation form folded), and the mapped
//! line is then brought to the configured Unicode normal form.

use vstd::prelude::*;

use crate::config::{CanonicalizationConfig, SoftHyphenPolicy, StripRule, UnicodeForm};
use crate::text::{push_char, push_str, str_eq, to_chars};
use crate::unicode::{kept_out, nfc, nfc_of, nfkc, nfkc_of};

verus! {

/// A line after canonicalization, and whether that changed it.
#[derive(Debug, Clone)]
pub struct CanonicalizedLine {
    pub text: String,
    pub changed: bool,
}

/// Whether a strip rule removes `c`.
pub open spec fn strips(rule: StripRule, c: char) -> bool {
    match rule {
        StripRule::Bom => c == '\u{feff}',
        StripRule::ZeroWidthSpace => c == '\u{200b}',
    }
}

/// Whether any configured strip rule removes `c`.
pub open spec fn stripped(config: CanonicalizationConfig, c: char) -> bool {
    exists|i: int| 0 <= i < config.strip@.len() && strips(#[trigger] config.strip@[i], c)
}

/// The Arabic presentation-form blocks, A and B.
pub open spec fn arabic_presentation_form(c: char) -> bool {
    (0xfb50 <= (c as u32) <= 0xfdff) || (0xfe70 <= (c as u32) <= 0xfeff)
}

/// What one character of a line maps to; `last` says whether it ends the line.
pub open spec fn map_char(config: CanonicalizationConfig, c: char, last: bool) -> Seq<char> {
    if stripped(config, c) {
        Seq::empty()
    } else if c == '\u{00ad}' {
        match config.soft_hyphen {
            SoftHyphenPolicy::LineFinalToHyphenMidlineStrip => if last {
                seq!['-']
            } else {
                Seq::empty()
            },
        }
    } else if c == '\u{00a0}' && config.map_nbsp_to_space {
        seq![' ']
    } else if arabic_presentation_form(c) && config.fold_arabic_presentation_forms {
        nfkc_of(seq![c])
    } else {
        seq![c]
    }
}

/// The first `k` characters of `line`, mapped.
pub open spec fn mapped_upto(config: CanonicalizationConfig, line: Seq<char>, k: int) -> Seq<char>
    decreases k,
{
    if k <= 0 {
        Seq::empty()
    } else {
        mapped_upto(config, line, k - 1) + map_char(config, line[k - 1], k - 1 == line.len() - 1)
    }
}

/// A whole line, mapped.
pub open spec fn mapped(config: CanonicalizationConfig, line: Seq<char>) -> Seq<char> {
    mapped_upto(config, line, line.len() as int)
}

/// The normal form a configuration asks for.
pub open spec fn normal_form(form: UnicodeForm, text: Seq<char>) -> Seq<char> {
    match form {
        UnicodeForm::Nfc => nfc_of(text),
    }
}

/// The canonical form of a line under a configuration.
pub open spec fn canonical_line(config: CanonicalizationConfig, line: Seq<char>) -> Seq<char> {
    normal_form(config.unicode_form, mapped(config, line))
}

/// A character a second mapping leaves as it is: not stripped, not a soft hyphen, not a no-break
/// space the configuration maps, and, where presentation forms are folded, not one that folds.
pub open spec fn maps_to_itself(config: CanonicalizationConfig, d: char) -> bool {
    &&& !stripped(config, d)
    &&& d != '\u{00ad}'
    &&& !(d == '\u{00a0}' && config.map_nbsp_to_space)
    &&& (arabic_presentation_form(d) && config.fold_arabic_presentation_forms) ==> nfkc_of(seq![d]) == seq![d]
}

proof fn lemma_plain_maps_to_itself(config: CanonicalizationConfig, d: char)
    requires
        !kept_out(d),
    ensures
        maps_to_itself(config, d),
{
    if stripped(config, d) {
        let i = choose|i: int| 0 <= i < config.strip@.len() && strips(#[trigger] config.strip@[i], d);
    }
}

proof fn lemma_mapped_unchanged(config: CanonicalizationConfig, t: Seq<char>, k: int)
    requires
        0 <= k <= t.len(),
        forall|i: int| 0 <= i < t.len() ==> maps_to_itself(config, #[trigger] t[i]),
    ensures
        mapped_upto(config, t, k) == t.take(k),
    decreases k,
{
    if k > 0 {
        lemma_mapped_unchanged(config, t, k - 1);
        assert(maps_to_itself(config, t[k - 1]));
        assert(map_char(config, t[k - 1], k - 1 == t.len() - 1) == seq![t[k - 1]]);
        assert(t.take(k - 1) + seq![t[k - 1]] =~= t.take(k));
    }
}

/// The canonical form of `input`, and whether it differs from `input`.
pub fn canonicalize_line(input: &str, config: &CanonicalizationConfig) -> (r: CanonicalizedLine)
    ensures
        r.text@ == canonical_line(*config, input@),
        r.changed == (canonical_line(*config, input@) != input@),
        nfc_of(r.text@) == r.text@,
        !r.text@.contains('\u{00ad}'),
        canonical_line(*config, r.text@) == r.text@,
{
    let mapped = map_configured_characters(input, config);
    let normalized = normalize_unicode(mapped.as_str(), config.unicode_form);
    proof {
        let t = normalized@;
        assert forall|i: int| 0 <= i < t.len() implies maps_to_itself(*config, #[trigger] t[i]) by {
            if kept_out(t[i]) {
                assert(mapped@.contains(t[i]));
                let q = choose|q: int| 0 <= q < mapped@.len() && mapped@[q] == t[i];
                assert(maps_to_itself(*config, mapped@[q]));
            } else {
                lemma_plain_maps_to_itself(*config, t[i]);
            }
        }
        lemma_mapped_unchanged(*config, t, t.len() as int);
        assert(t.take(t.len() as int) =~= t);
        if t.contains('\u{00ad}') {
            let i = choose|i: int| 0 <= i < t.len() && t[i] == '\u{00ad}';
            assert(maps_to_itself(*config, t[i]));
        }
    }
    let changed = !str_eq(normalized.as_str(), input);
    CanonicalizedLine { changed, text: normalized }
}

fn map_configured_characters(input: &str, config: &CanonicalizationConfig) -> (r: String)
    ensures
        r@ == mapped(*config, input@),
        forall|i: int| 0 <= i < r@.len() ==> maps_to_itself(*config, #[trigger] r@[i]),
{
    let chars = to_chars(input);
    let mut output = String::new();
    let mut index: usize = 0;
    while index < chars.len()
        invariant
            0 <= index <= chars@.len(),
            chars@ == input@,
            output@ == mapped_upto(*config, input@, index as int),
            forall|i: int| 0 <= i < output@.len() ==> maps_to_itself(*config, #[trigger] output@[i]),
        decreases chars.len() - index,
    {
        let character = chars[index];
        let ghost before = output@;
        let is_last = index + 1 == chars.len();
        if should_strip(character, config) {
        } else if character == '\u{00ad}' {
            apply_soft_hyphen(&mut output, is_last, config.soft_hyphen);
        } else if character == '\u{00a0}' && config.map_nbsp_to_space {
            push_char(&mut output, ' ');
        } else if is_arabic_presentation_form(character) && config.fold_arabic_presentation_forms {
            let mut one = String::new();
            push_char(&mut one, character);
            let folded = nfkc(one.as_str());
            push_str(&mut output, folded.as_str());
            proof {
                assert(one@ =~= seq![character]);
                assert forall|i: int| 0 <= i < folded@.len() implies maps_to_itself(*config, #[trigger] folded@[i]) by {
                    let d = folded@[i];
                    if kept_out(d) {
                        assert(seq![character].contains(d));
                        assert(seq![character][0] == character);
                        assert(d == character);
                        if stripped(*config, d) {
                            assert(false);
                        }
                    } else {
                        lemma_plain_maps_to_itself(*config, d);
                    }
                }
                assert forall|i: int| 0 <= i < output@.len() implies maps_to_itself(*config, #[trigger] output@[i]) by {
                    if i < before.len() {
                        assert(output@[i] == before[i]);
                    } else {
                        assert(output@[i] == folded@[i - before.len()]);
                    }
                }
            }
        } else {
            push_char(&mut output, character);
        }
        proof {
            assert forall|i: int| 0 <= i < output@.len() implies maps_to_itself(*config, #[trigger] output@[i]) by {
                if i < before.len() {
                    assert(output@[i] == before[i]);
                }
            }
        }
        proof {
            assert(output@ == mapped_upto(*config, input@, index as int) + map_char(*config, input@[index as int], is_last));
        }
        index = index + 1;
    }
    output
}

fn should_strip(character: char, config: &CanonicalizationConfig) -> (r: bool)
    ensures
        r == stripped(*config, character),
{
    let mut i: usize = 0;
    while i < config.strip.len()
        invariant
            0 <= i <= config.strip@.len(),
            forall|j: int| 0 <= j < i ==> !strips(#[trigger] config.strip@[j], character),
        decreases config.strip.len() - i,
    {
        let hit = match config.strip[i] {
            StripRule::Bom => character == '\u{feff}',
            StripRule::ZeroWidthSpace => character == '\u{200b}',
        };
        if hit {
            return true;
        }
        i = i + 1;
    }
    false
}

fn apply_soft_hyphen(output: &mut String, is_line_final: bool, policy: SoftHyphenPolicy)
    ensures
        final(output)@ == old(output)@ + match policy {
            SoftHyphenPolicy::LineFinalToHyphenMidlineStrip => if is_line_final {
                seq!['-']
            } else {
                Seq::<char>::empty()
            },
        },
{
    match policy {
        SoftHyphenPolicy::LineFinalToHyphenMidlineStrip => {
            if is_line_final {
                push_char(output, '-');
            } else {
                assert(old(output)@ + Seq::<char>::empty() == old(output)@);
            }
        },
    }
}

fn is_arabic_presentation_form(character: char) -> (r: bool)
    ensures
        r == arabic_presentation_form(character),
{
    let codepoint = character as u32;
    (0xfb50 <= codepoint && codepoint <= 0xfdff) || (0xfe70 <= codepoint && codepoint <= 0xfeff)
}

fn normalize_unicode(input: &str, form: UnicodeForm) -> (r: String)
    ensures
        r@ == normal_form(form, input@),
        nfc_of(r@) == r@,
        forall|i: int| 0 <= i < r@.len() && kept_out(#[trigger] r@[i]) ==> input@.contains(r@[i]),
{
    match form {
        UnicodeForm::Nfc => nfc(input),
    }
}

} // verus!
