//! Which writing systems a piece of text draws on.
//!
//! Script data comes from `unicode-script`, which implements UAX #24 in full, rather than from
//! a tabulated block list.
//!
//! Digits are treated as a writing system of their own, which UAX #24 does not do: it assigns
//! ASCII and fullwidth digits to `Common`. That distinction is the point of the cross-script
//! check, because a digit fusing with a letter is exactly the cross-script merge the guide names.

use vstd::prelude::*;

use crate::text::{lemma_seq_lt_asymmetric, lemma_seq_lt_total, lemma_seq_lt_transitive, lemma_strictly_sorted_unique, seq_lt, str_eq, str_lt, strictly_sorted, to_chars};
use crate::unicode::{is_decimal_digit, is_decimal_number, script_full_name, script_name};

verus! {

/// A writing system a character can belong to.
#[derive(Debug, Clone, Copy)]
pub enum Writing {
    /// Script-neutral digits: ASCII and fullwidth, which UAX #24 calls `Common`.
    Digit,
    /// A script, by its UAX #24 full name.
    Script(&'static str),
}

/// The name a writing system is reported under.
pub open spec fn writing_name(w: Writing) -> Seq<char> {
    match w {
        Writing::Digit => "Digit"@,
        Writing::Script(name) => name@,
    }
}

impl Writing {
    pub fn name(self) -> (r: &'static str)
        ensures
            r@ == writing_name(self),
    {
        match self {
            Writing::Digit => "Digit",
            Writing::Script(name) => name,
        }
    }
}

/// The scripts that belong to no writing system in particular.
pub open spec fn neutral_script(name: Seq<char>) -> bool {
    name == "Common"@ || name == "Inherited"@ || name == "Unknown"@
}

/// The writing system a character belongs to, by name, or `None` when it belongs to none.
///
/// Punctuation, whitespace and symbols are `Common`, and combining marks are `Inherited`; both
/// appear inside pieces of every script. A digit carrying a real script is that script's text;
/// only the script-neutral digits make up `Digit`.
pub open spec fn writing_of_char(c: char) -> Option<Seq<char>> {
    if is_decimal_digit(c) && neutral_script(script_name(c)) {
        Some("Digit"@)
    } else if neutral_script(script_name(c)) {
        None
    } else {
        Some(script_name(c))
    }
}

/// The writing system a character belongs to, or `None` when it belongs to none.
pub fn writing_of(character: char) -> (r: Option<Writing>)
    ensures
        match r {
            Some(w) => writing_of_char(character) == Some(writing_name(w)),
            None => writing_of_char(character) is None,
        },
{
    let script = script_full_name(character);
    let neutral = str_eq(script, "Common") || str_eq(script, "Inherited") || str_eq(script, "Unknown");
    if neutral && is_decimal_number(character) {
        return Some(Writing::Digit);
    }
    if neutral {
        None
    } else {
        Some(Writing::Script(script))
    }
}

/// Whether `name` is the writing system of some character of `text`.
pub open spec fn present_in(text: Seq<char>, name: Seq<char>) -> bool {
    exists|i: int| 0 <= i < text.len() && #[trigger] writing_of_char(text[i]) == Some(name)
}

/// The writing systems present in `text`, by name, in sorted order.
pub open spec fn names_in(text: Seq<char>) -> Seq<Seq<char>> {
    choose|ns: Seq<Seq<char>>| strictly_sorted(ns) && forall|name: Seq<char>| ns.contains(name) <==> present_in(text, name)
}

/// The names of a list of writing systems.
pub open spec fn writing_names(ws: Seq<Writing>) -> Seq<Seq<char>> {
    ws.map_values(|w: Writing| writing_name(w))
}

fn names_contain(present: &Vec<Writing>, name: &str) -> (r: bool)
    ensures
        r == writing_names(present@).contains(name@),
{
    let mut k: usize = 0;
    while k < present.len()
        invariant
            0 <= k <= present@.len(),
            forall|m: int| 0 <= m < k ==> #[trigger] writing_names(present@)[m] != name@,
        decreases present.len() - k,
    {
        if str_eq(present[k].name(), name) {
            assert(writing_names(present@)[k as int] == name@);
            return true;
        }
        k = k + 1;
    }
    false
}

/// Every writing system present in `text`, once each, ordered by name so evidence is stable
/// between runs.
pub fn writing_systems_in(text: &str) -> (r: Vec<Writing>)
    ensures
        writing_names(r@) == names_in(text@),
        strictly_sorted(writing_names(r@)),
        forall|name: Seq<char>| writing_names(r@).contains(name) <==> present_in(text@, name),
{
    let chars = to_chars(text);
    let mut present: Vec<Writing> = Vec::new();
    let mut i: usize = 0;
    while i < chars.len()
        invariant
            0 <= i <= chars@.len(),
            chars@ == text@,
            strictly_sorted(writing_names(present@)),
            forall|name: Seq<char>| writing_names(present@).contains(name) <==> present_in(text@.take(i as int), name),
        decreases chars.len() - i,
    {
        let c = chars[i];
        let ghost before = present@;
        proof {
            assert forall|name: Seq<char>| present_in(text@.take(i + 1), name) <==> (present_in(text@.take(i as int), name) || writing_of_char(c) == Some(name)) by {
                if present_in(text@.take(i + 1), name) {
                    let j = choose|j: int| 0 <= j < i + 1 && #[trigger] writing_of_char(text@.take(i + 1)[j]) == Some(name);
                    if j < i {
                        assert(text@.take(i as int)[j] == text@.take(i + 1)[j]);
                    }
                }
                if present_in(text@.take(i as int), name) {
                    let j = choose|j: int| 0 <= j < i && #[trigger] writing_of_char(text@.take(i as int)[j]) == Some(name);
                    assert(text@.take(i + 1)[j] == text@.take(i as int)[j]);
                }
                if writing_of_char(c) == Some(name) {
                    assert(text@.take(i + 1)[i as int] == c);
                }
            }
        }
        match writing_of(c) {
            Some(w) => {
                let name = w.name();
                let found = names_contain(&present, name);
                if found {
                } else {
                    let mut p: usize = 0;
                    while p < present.len() && !str_lt(name, present[p].name())
                        invariant
                            0 <= p <= present@.len(),
                            present@ == before,
                            forall|m: int| 0 <= m < p ==> !seq_lt(name@, #[trigger] writing_names(present@)[m]),
                        decreases present.len() - p,
                    {
                        proof {
                            assert(writing_names(present@)[p as int] == writing_name(present@[p as int]));
                        }
                        p = p + 1;
                    }
                    present.insert(p, w);
                    proof {
                        let nb = writing_names(before);
                        let na = writing_names(present@);
                        assert(na =~= nb.insert(p as int, name@));
                        if p < nb.len() {
                            assert(nb[p as int] == writing_name(before[p as int]));
                            lemma_seq_lt_asymmetric(name@, nb[p as int]);
                        }
                        assert forall|x: int, y: int| 0 <= x < y < na.len() implies seq_lt(#[trigger] na[x], #[trigger] na[y]) by {
                            if y < p {
                                assert(na[x] == nb[x] && na[y] == nb[y]);
                            } else if x > p {
                                assert(na[x] == nb[x - 1] && na[y] == nb[y - 1]);
                            } else if x < p && y == p {
                                assert(na[x] == nb[x]);
                                assert(!seq_lt(name@, nb[x]));
                                assert(nb.contains(nb[x]));
                                lemma_seq_lt_total(nb[x], name@);
                            } else if x == p {
                                assert(na[y] == nb[y - 1]);
                                assert(seq_lt(name@, nb[p as int]));
                                if y - 1 > p {
                                    assert(seq_lt(nb[p as int], nb[y - 1]));
                                    lemma_seq_lt_transitive(name@, nb[p as int], nb[y - 1]);
                                }
                            } else {
                                assert(na[x] == nb[x] && na[y] == nb[y - 1]);
                            }
                        }
                        assert forall|n: Seq<char>| na.contains(n) <==> (nb.contains(n) || n == name@) by {
                            if na.contains(n) {
                                let q = choose|q: int| 0 <= q < na.len() && na[q] == n;
                                if q < p { assert(nb[q] == n); } else if q > p { assert(nb[q - 1] == n); }
                            }
                            if nb.contains(n) {
                                let q = choose|q: int| 0 <= q < nb.len() && nb[q] == n;
                                if q < p { assert(na[q] == n); } else { assert(na[q + 1] == n); }
                            }
                            if n == name@ {
                                assert(na[p as int] == n);
                            }
                        }
                    }
                }
            },
            None => {},
        }
        i = i + 1;
    }
    assert(text@.take(i as int) == text@);
    proof {
        assert(strictly_sorted(names_in(text@)) && forall|name: Seq<char>| names_in(text@).contains(name) <==> present_in(text@, name));
        lemma_strictly_sorted_unique(writing_names(present@), names_in(text@));
    }
    present
}

/// Whether every character is a decimal digit, and there is at least one.
pub open spec fn all_digits(text: Seq<char>) -> bool {
    text.len() > 0 && forall|i: int| 0 <= i < text.len() ==> is_decimal_digit(#[trigger] text[i])
}

/// Whether every character is a decimal digit, and there is at least one.
///
/// The general category rather than an ASCII test, so a fullwidth or Devanagari numeral counts:
/// those merge into multi-digit pieces exactly as ASCII ones do.
pub fn is_all_digits(text: &str) -> (r: bool)
    ensures
        r == all_digits(text@),
{
    let chars = to_chars(text);
    if chars.len() == 0 {
        return false;
    }
    let mut i: usize = 0;
    while i < chars.len()
        invariant
            0 <= i <= chars@.len(),
            chars@ == text@,
            forall|j: int| 0 <= j < i ==> is_decimal_digit(#[trigger] text@[j]),
        decreases chars.len() - i,
    {
        if !is_decimal_number(chars[i]) {
            return false;
        }
        i = i + 1;
    }
    true
}

} // verus!
