//! Sorting a repaired corpus into buckets, and the bookkeeping of rebalancing them.
//!
//! Every line gets a bucket: its domain (text or math), its dominant script, a language hint
//! and a source group read off the path it came from, and a length bin. Buckets name the shard
//! and training-part files, so the names are derived from the bucket deterministically: a
//! readable stem plus the first hexadecimal digits of a BLAKE3 digest of the bucket's JSON.

use rand::seq::SliceRandom;
use rand::{Rng, SeedableRng};
use rand_chacha::ChaCha20Rng;
use vstd::prelude::*;
use vstd::utf8::is_ascii_chars;

use crate::tally::{add_count, tallies, tally_names};
use crate::text::{
    decimal, decimal_string, digit_char, lemma_seq_lt_asymmetric, lemma_views_push, owned,
    push_char, push_str, seq_lt, str_eq, str_lt, to_chars, views,
};
use crate::unicode::{is_alphabetic, is_alphabetic_char, script_full_name, script_name};
use crate::writing::neutral_script;

verus! {

/// Whether a line is mathematics or ordinary text.
#[derive(Debug, Clone, Copy, PartialEq, Eq, Structural, Hash, PartialOrd, Ord)]
pub enum Domain {
    Text,
    Math,
}

/// How long a line is, in characters.
#[derive(Debug, Clone, Copy, PartialEq, Eq, Structural, Hash, PartialOrd, Ord)]
pub enum LengthBin {
    Short,
    Normal,
    Long,
}

/// The bucket a line belongs to.
#[derive(Debug, Clone, PartialEq, Eq, Hash, PartialOrd, Ord)]
pub struct BucketKey {
    pub domain: Domain,
    pub script: String,
    pub language_hint: String,
    pub source_group: String,
    pub length_bin: LengthBin,
}

/// What a line's path says about it.
#[derive(Debug, Clone, PartialEq, Eq)]
pub struct SourceHints {
    pub language_hint: String,
    pub source_group: String,
}

/// How one bucket was rebalanced, and where its training parts went.
#[derive(Debug, Clone, PartialEq, Eq)]
pub struct BucketBalance {
    pub bucket: BucketKey,
    pub input_lines: u64,
    pub target_lines: u64,
    pub output_lines: u64,
    pub training_files: Vec<String>,
}

/// What rebalancing produced.
#[derive(Debug, Clone, PartialEq, Eq)]
pub struct BalanceSummary {
    pub training_files: Vec<String>,
    pub report: String,
    pub input_lines: u64,
    pub output_lines: u64,
    pub buckets: Vec<BucketBalance>,
}

/// Why rebalancing stopped; `detail` is what the system said.
#[derive(Debug)]
pub enum BalanceError {
    CreateDir { path: String, detail: String },
    Open { path: String, detail: String },
    Read { path: String, detail: String },
    Write { path: String, detail: String },
}

impl BalanceError {
    /// What the operator is told.
    pub fn message(&self) -> (r: String)
        ensures
            r@ == match *self {
                BalanceError::CreateDir { path, detail } => "failed to create directory "@ + path@ + ": "@ + detail@,
                BalanceError::Open { path, detail } => "failed to open "@ + path@ + ": "@ + detail@,
                BalanceError::Read { path, detail } => "failed to read "@ + path@ + ": "@ + detail@,
                BalanceError::Write { path, detail } => "failed to write "@ + path@ + ": "@ + detail@,
            },
    {
        let (lead, path, detail) = match self {
            BalanceError::CreateDir { path, detail } => ("failed to create directory ", path, detail),
            BalanceError::Open { path, detail } => ("failed to open ", path, detail),
            BalanceError::Read { path, detail } => ("failed to read ", path, detail),
            BalanceError::Write { path, detail } => ("failed to write ", path, detail),
        };
        let mut r = owned(lead);
        push_str(&mut r, path.as_str());
        push_str(&mut r, ": ");
        push_str(&mut r, detail.as_str());
        r
    }
}

/// The characters that mark a line as mathematics.
pub open spec fn math_char(c: char) -> bool {
    c == '\\' || c == '\u{2211}' || c == '\u{222B}' || c == '\u{221A}' || c == '\u{2264}' || c == '\u{2265}'
}

/// The domain of a line: mathematics when it carries a backslash or one of the common
/// mathematical operators.
pub open spec fn domain_of(text: Seq<char>) -> Domain {
    if exists|i: int| 0 <= i < text.len() && math_char(#[trigger] text[i]) {
        Domain::Math
    } else {
        Domain::Text
    }
}

pub fn classify_domain(text: &str) -> (r: Domain)
    ensures
        r == domain_of(text@),
{
    let chars = to_chars(text);
    let mut i: usize = 0;
    while i < chars.len()
        invariant
            0 <= i <= chars@.len(),
            chars@ == text@,
            forall|j: int| 0 <= j < i ==> !math_char(#[trigger] text@[j]),
        decreases chars.len() - i,
    {
        let c = chars[i];
        if c == '\\' || c == '\u{2211}' || c == '\u{222B}' || c == '\u{221A}' || c == '\u{2264}' || c == '\u{2265}' {
            assert(math_char(text@[i as int]));
            return Domain::Math;
        }
        i = i + 1;
    }
    Domain::Text
}

/// How many alphabetic characters of `text` belong to the script called `name`. Characters of
/// no script in particular are not counted.
pub open spec fn script_count(text: Seq<char>, name: Seq<char>) -> nat
    decreases text.len(),
{
    if text.len() == 0 {
        0
    } else {
        let c = text.last();
        script_count(text.drop_last(), name) + if is_alphabetic_char(c) && !neutral_script(script_name(c))
            && script_name(c) == name {
            1nat
        } else {
            0nat
        }
    }
}

proof fn lemma_script_count_bounded(text: Seq<char>, name: Seq<char>)
    ensures
        script_count(text, name) <= text.len(),
    decreases text.len(),
{
    if text.len() > 0 {
        lemma_script_count_bounded(text.drop_last(), name);
    }
}

/// An ASCII letter in lower case; every other character as it is.
pub open spec fn lower_char(c: char) -> char {
    if 'A' <= c <= 'Z' {
        ((c as u32) + 32) as char
    } else {
        c
    }
}

pub open spec fn lower_text(s: Seq<char>) -> Seq<char> {
    s.map_values(|c: char| lower_char(c))
}

fn lower_one(c: char) -> (r: char)
    ensures
        r == lower_char(c),
{
    if 'A' <= c && c <= 'Z' {
        let v = (c as u32) + 32;
        assert(v as char == ((c as u32) + 32) as char);
        char_from_ascii(v)
    } else {
        c
    }
}

fn char_from_ascii(v: u32) -> (r: char)
    requires
        v < 128,
    ensures
        r == v as char,
{
    match crate::unicode::char_from_u32(v) {
        Some(c) => {
            proof { vstd::utf8::char_u32_cast(c, v); }
            c
        },
        None => ' ',
    }
}

/// The dominant script of a line is one with the most alphabetic characters, by its name in
/// lower case; a line with no such characters has script `unknown`. When two scripts tie, either
/// may be reported.
pub open spec fn is_dominant_script(text: Seq<char>, r: Seq<char>) -> bool {
    if forall|n: Seq<char>| script_count(text, n) == 0 {
        r == "unknown"@
    } else {
        exists|n: Seq<char>| script_count(text, n) > 0 && (forall|m: Seq<char>| #[trigger] script_count(text, m) <= script_count(text, n))
            && r == lower_text(n)
    }
}

/// The dominant script of a line, by its name in lower case, or `unknown`.
pub fn dominant_script(text: &str) -> (r: String)
    ensures
        is_dominant_script(text@, r@),
{
    let chars = to_chars(text);
    let mut table: Vec<(&'static str, u64)> = Vec::new();
    let mut i: usize = 0;
    proof {
        assert forall|n: Seq<char>| tally_names(table@).contains(n) <==> script_count(text@.take(0), n) > 0 by {
            assert(text@.take(0) =~= Seq::<char>::empty());
            if tally_names(table@).contains(n) {
                let k = choose|k: int| 0 <= k < tally_names(table@).len() && tally_names(table@)[k] == n;
            }
        }
    }
    while i < chars.len()
        invariant
            0 <= i <= chars@.len(),
            chars@ == text@,
            tallies(table@, |n: Seq<char>| script_count(text@.take(i as int), n)),
        decreases chars.len() - i,
    {
        let c = chars[i];
        let ghost before = |n: Seq<char>| script_count(text@.take(i as int), n);
        let ghost after = |n: Seq<char>| script_count(text@.take(i + 1), n);
        proof {
            assert(text@.take(i + 1).drop_last() == text@.take(i as int));
            assert(text@.take(i + 1).last() == c);
        }
        if is_alphabetic(c) {
            let script = script_full_name(c);
            if !(str_eq(script, "Common") || str_eq(script, "Inherited") || str_eq(script, "Unknown")) {
                proof {
                    lemma_script_count_bounded(text@.take(i as int), script@);
                    assert forall|n: Seq<char>| #[trigger] after(n) == before(n) + if n == script@ { 1nat } else { 0nat } by {}
                }
                add_count(&mut table, script, 1, Ghost(before), Ghost(after));
            } else {
                proof {
                    assert(tallies(table@, after)) by {
                        assert forall|n: Seq<char>| #[trigger] after(n) == before(n) by {}
                        assert(after =~= before);
                    }
                }
            }
        } else {
            proof {
                assert(tallies(table@, after)) by {
                    assert forall|n: Seq<char>| #[trigger] after(n) == before(n) by {}
                    assert(after =~= before);
                }
            }
        }
        i = i + 1;
    }
    assert(text@.take(i as int) == text@);
    if table.len() == 0 {
        proof {
            assert forall|n: Seq<char>| script_count(text@, n) == 0 by {
                if script_count(text@, n) > 0 {
                    assert(tally_names(table@).contains(n));
                }
            }
        }
        return owned("unknown");
    }
    let mut best: usize = 0;
    let mut k: usize = 1;
    while k < table.len()
        invariant
            1 <= k <= table@.len(),
            0 <= best < k,
            forall|m: int| 0 <= m < k ==> #[trigger] table@[m].1 <= table@[best as int].1,
        decreases table.len() - k,
    {
        if table[k].1 > table[best].1 {
            best = k;
        }
        k = k + 1;
    }
    let (name, _) = table[best];
    let name_chars = to_chars(name);
    let mut out = String::new();
    let mut j: usize = 0;
    while j < name_chars.len()
        invariant
            0 <= j <= name_chars@.len(),
            name_chars@ == name@,
            out@ == lower_text(name@.take(j as int)),
        decreases name_chars.len() - j,
    {
        push_char(&mut out, lower_one(name_chars[j]));
        proof {
            assert(lower_text(name@.take(j + 1)) =~= lower_text(name@.take(j as int)).push(lower_char(name@[j as int])));
        }
        j = j + 1;
    }
    proof {
        assert(name@.take(j as int) == name@);
        let best_name = name@;
        assert(tally_names(table@)[best as int] == best_name);
        assert(table@[best as int].1 == script_count(text@, best_name));
        assert(tally_names(table@).contains(best_name));
        assert forall|m: Seq<char>| #[trigger] script_count(text@, m) <= script_count(text@, best_name) by {
            if script_count(text@, m) > 0 {
                assert(tally_names(table@).contains(m));
                let q = choose|q: int| 0 <= q < tally_names(table@).len() && tally_names(table@)[q] == m;
                assert(table@[q].1 == script_count(text@, table@[q].0@));
            }
        }
        assert(script_count(text@, best_name) > 0);
    }
    out
}

/// An ASCII letter or digit.
pub open spec fn ascii_alnum(c: char) -> bool {
    ('a' <= c <= 'z') || ('A' <= c <= 'Z') || ('0' <= c <= '9')
}

/// The runs of ASCII letters and digits in a path, in lower case, in order.
pub open spec fn path_tokens(s: Seq<char>) -> Seq<Seq<char>>
    decreases s.len(),
{
    if s.len() == 0 {
        Seq::empty()
    } else {
        let t = path_tokens(s.drop_last());
        let c = s.last();
        if !ascii_alnum(c) {
            t
        } else if s.len() >= 2 && ascii_alnum(s[s.len() - 2]) {
            t.update(t.len() - 1, t.last().push(lower_char(c)))
        } else {
            t.push(seq![lower_char(c)])
        }
    }
}

proof fn lemma_tokens_end(s: Seq<char>)
    ensures
        s.len() > 0 && ascii_alnum(s.last()) ==> path_tokens(s).len() > 0,
    decreases s.len(),
{
    if s.len() > 0 {
        lemma_tokens_end(s.drop_last());
    }
}

fn ascii_alnum_char(c: char) -> (r: bool)
    ensures
        r == ascii_alnum(c),
{
    ('a' <= c && c <= 'z') || ('A' <= c && c <= 'Z') || ('0' <= c && c <= '9')
}

/// The tokens of a path component or a whole path: its runs of ASCII letters and digits, in
/// lower case.
pub fn split_path_tokens(value: &str) -> (r: Vec<String>)
    ensures
        views(r@) == path_tokens(value@),
{
    let chars = to_chars(value);
    let mut out: Vec<String> = Vec::new();
    let mut current = String::new();
    let mut i: usize = 0;
    while i < chars.len()
        invariant
            0 <= i <= chars@.len(),
            chars@ == value@,
            current@.len() > 0 <==> (i > 0 && ascii_alnum(value@[i - 1])),
            current@.len() > 0 ==> path_tokens(value@.take(i as int)) == views(out@).push(current@),
            current@.len() == 0 ==> path_tokens(value@.take(i as int)) == views(out@),
        decreases chars.len() - i,
    {
        let c = chars[i];
        proof {
            assert(value@.take(i + 1).drop_last() == value@.take(i as int));
            assert(value@.take(i + 1).last() == c);
            if i >= 1 {
                assert(value@.take(i + 1)[i - 1] == value@[i - 1]);
            }
        }
        if ascii_alnum_char(c) {
            let ghost old_current = current@;
            push_char(&mut current, lower_one(c));
            proof {
                let t = path_tokens(value@.take(i as int));
                let s1 = value@.take(i + 1);
                assert(s1.drop_last() == value@.take(i as int));
                assert(s1.last() == c);
                if i >= 1 && ascii_alnum(value@[i - 1]) {
                    assert(s1.len() >= 2);
                    assert(s1[s1.len() - 2] == value@[i - 1]);
                    assert(t == views(out@).push(old_current));
                    assert(path_tokens(s1) == t.update(t.len() - 1, t.last().push(lower_char(c))));
                    assert(path_tokens(s1) =~= views(out@).push(current@));
                } else {
                    assert(old_current.len() == 0);
                    assert(t == views(out@));
                    assert(current@ =~= seq![lower_char(c)]);
                    assert(path_tokens(s1) =~= views(out@).push(current@));
                }
            }
        } else {
            if !current.as_str().is_empty() {
                let ghost before = out@;
                let token = current;
                out.push(token);
                proof { lemma_views_push(before, token); }
                current = String::new();
            }
        }
        i = i + 1;
    }
    assert(value@.take(i as int) == value@);
    if !current.as_str().is_empty() {
        let ghost before = out@;
        let token = current;
        out.push(token);
        proof { lemma_views_push(before, token); }
    }
    out
}

/// Whether a token is a language code the hint recognises.
pub open spec fn is_language_code(token: Seq<char>) -> bool {
    iso_639_1().contains(token) || iso_639_3_common().contains(token)
}

fn listed(list: &Vec<&'static str>, token: &str) -> (r: bool)
    ensures
        r == list@.map_values(|s: &'static str| s@).contains(token@),
{
    let ghost vs = list@.map_values(|s: &'static str| s@);
    let mut i: usize = 0;
    while i < list.len()
        invariant
            0 <= i <= list@.len(),
            vs == list@.map_values(|s: &'static str| s@),
            forall|j: int| 0 <= j < i ==> #[trigger] vs[j] != token@,
        decreases list.len() - i,
    {
        if str_eq(list[i], token) {
            assert(vs[i as int] == token@);
            return true;
        }
        i = i + 1;
    }
    false
}

pub fn is_language_token(token: &str) -> (r: bool)
    ensures
        r == is_language_code(token@),
{
    listed(&iso_639_1_list(), token) || listed(&iso_639_3_list(), token)
}

/// The first token of a path that is a language code.
pub open spec fn first_language(tokens: Seq<Seq<char>>) -> Option<Seq<char>>
    decreases tokens.len(),
{
    if tokens.len() == 0 {
        None
    } else if is_language_code(tokens[0]) {
        Some(tokens[0])
    } else {
        first_language(tokens.drop_first())
    }
}

/// A token that can name a source: not a language code, and at least three long.
pub open spec fn is_group_token(token: Seq<char>) -> bool {
    !is_language_code(token) && token.len() >= 3
}

/// The first token of a path that can name a source.
pub open spec fn first_group(tokens: Seq<Seq<char>>) -> Option<Seq<char>>
    decreases tokens.len(),
{
    if tokens.len() == 0 {
        None
    } else if is_group_token(tokens[0]) {
        Some(tokens[0])
    } else {
        first_group(tokens.drop_first())
    }
}

/// The language a path names, if any of its tokens is a language code.
pub fn language_hint(path: &str) -> (r: Option<String>)
    ensures
        match r {
            Some(s) => first_language(path_tokens(path@)) == Some(s@),
            None => first_language(path_tokens(path@)) is None,
        },
{
    let tokens = split_path_tokens(path);
    let ghost ts = views(tokens@);
    let mut i: usize = 0;
    assert(ts.skip(0) == ts);
    while i < tokens.len()
        invariant
            0 <= i <= tokens@.len(),
            ts == views(tokens@),
            ts == path_tokens(path@),
            first_language(ts) == first_language(ts.skip(i as int)),
        decreases tokens.len() - i,
    {
        assert(ts.skip(i as int)[0] == tokens@[i as int]@);
        if is_language_token(tokens[i].as_str()) {
            return Some(tokens[i].clone());
        }
        assert(ts.skip(i as int).drop_first() == ts.skip(i + 1));
        i = i + 1;
    }
    None
}

/// The source group a path names: its first token that is not a language code and is at least
/// three characters long, or `unknown`.
pub fn source_group(path: &str) -> (r: String)
    ensures
        match first_group(path_tokens(path@)) {
            Some(g) => r@ == g,
            None => r@ == "unknown"@,
        },
{
    let tokens = split_path_tokens(path);
    let ghost ts = views(tokens@);
    let mut i: usize = 0;
    assert(ts.skip(0) == ts);
    while i < tokens.len()
        invariant
            0 <= i <= tokens@.len(),
            ts == views(tokens@),
            ts == path_tokens(path@),
            first_group(ts) == first_group(ts.skip(i as int)),
        decreases tokens.len() - i,
    {
        assert(ts.skip(i as int)[0] == tokens@[i as int]@);
        let token = tokens[i].as_str();
        if !is_language_token(token) && token_length_at_least_three(token) {
            return tokens[i].clone();
        }
        assert(ts.skip(i as int).drop_first() == ts.skip(i + 1));
        i = i + 1;
    }
    owned("unknown")
}

fn token_length_at_least_three(token: &str) -> (r: bool)
    ensures
        r == (token@.len() >= 3),
{
    to_chars(token).len() >= 3
}

impl SourceHints {
    /// What a path says: its language code, or `unknown`, and its source group.
    pub fn from_path(path: &str) -> (r: Self)
        ensures
            match first_language(path_tokens(path@)) {
                Some(l) => r.language_hint@ == l,
                None => r.language_hint@ == "unknown"@,
            },
            match first_group(path_tokens(path@)) {
                Some(g) => r.source_group@ == g,
                None => r.source_group@ == "unknown"@,
            },
    {
        let language_hint = match language_hint(path) {
            Some(l) => l,
            None => owned("unknown"),
        };
        SourceHints { language_hint, source_group: source_group(path) }
    }
}

/// The length bin of a line of `n` characters.
pub open spec fn length_bin_of(n: nat) -> LengthBin {
    if n <= 40 {
        LengthBin::Short
    } else if n <= 240 {
        LengthBin::Normal
    } else {
        LengthBin::Long
    }
}

pub fn length_bin(text: &str) -> (r: LengthBin)
    ensures
        r == length_bin_of(text@.len()),
        text@.len() <= 40 ==> r == LengthBin::Short,
        41 <= text@.len() <= 240 ==> r == LengthBin::Normal,
        text@.len() > 240 ==> r == LengthBin::Long,
{
    let chars = to_chars(text).len();
    if chars <= 40 {
        LengthBin::Short
    } else if chars <= 240 {
        LengthBin::Normal
    } else {
        LengthBin::Long
    }
}

/// A line of at most forty characters is short, one of forty-one to two hundred and forty is
/// normal, and a longer one is long: the bins are the three ranges of a line's length in
/// characters, in that order.
pub proof fn law_length_bins_cut_at_forty_and_two_forty(n: nat)
    ensures
        n <= 40 ==> length_bin_of(n) == LengthBin::Short,
        41 <= n <= 240 ==> length_bin_of(n) == LengthBin::Normal,
        n > 240 ==> length_bin_of(n) == LengthBin::Long,
        forall|m: nat| m <= n ==> #[trigger] length_rank(length_bin_of(m)) <= length_rank(length_bin_of(n)),
{
}

/// The place of a bin in the order short, normal, long.
pub open spec fn length_rank(l: LengthBin) -> int {
    match l {
        LengthBin::Short => 0,
        LengthBin::Normal => 1,
        LengthBin::Long => 2,
    }
}

/// The bucket of a line, given what its path says.
pub fn classify_line_with_hints(hints: &SourceHints, text: &str) -> (r: BucketKey)
    ensures
        r.domain == domain_of(text@),
        is_dominant_script(text@, r.script@),
        r.language_hint == hints.language_hint,
        r.source_group == hints.source_group,
        r.length_bin == length_bin_of(text@.len()),
{
    let domain = classify_domain(text);
    let script = dominant_script(text);
    let length_bin = length_bin(text);
    BucketKey {
        domain,
        script,
        language_hint: hints.language_hint.clone(),
        source_group: hints.source_group.clone(),
        length_bin,
    }
}

/// The bucket of a line read from `path`.
pub fn classify_line(path: &str, text: &str) -> (r: BucketKey)
    ensures
        r.domain == domain_of(text@),
        is_dominant_script(text@, r.script@),
        match first_language(path_tokens(path@)) {
            Some(l) => r.language_hint@ == l,
            None => r.language_hint@ == "unknown"@,
        },
        match first_group(path_tokens(path@)) {
            Some(g) => r.source_group@ == g,
            None => r.source_group@ == "unknown"@,
        },
        r.length_bin == length_bin_of(text@.len()),
{
    let hints = SourceHints::from_path(path);
    classify_line_with_hints(&hints, text)
}

/// A character of a slug: ASCII letters and digits in lower case, anything else an underscore.
pub open spec fn slug_char(c: char) -> char {
    if ascii_alnum(c) {
        lower_char(c)
    } else {
        '_'
    }
}

/// A text with every run of underscores cut to one.
pub open spec fn squeeze(s: Seq<char>) -> Seq<char>
    decreases s.len(),
{
    if s.len() == 0 {
        Seq::empty()
    } else {
        let t = squeeze(s.drop_last());
        if s.last() == '_' && t.len() > 0 && t.last() == '_' {
            t
        } else {
            t.push(s.last())
        }
    }
}

/// A text without leading underscores.
pub open spec fn strip_lead(s: Seq<char>) -> Seq<char>
    decreases s.len(),
{
    if s.len() > 0 && s[0] == '_' {
        strip_lead(s.drop_first())
    } else {
        s
    }
}

/// A text without trailing underscores.
pub open spec fn strip_trail(s: Seq<char>) -> Seq<char>
    decreases s.len(),
{
    if s.len() > 0 && s.last() == '_' {
        strip_trail(s.drop_last())
    } else {
        s
    }
}

/// A value as it appears in a file name: lower-case ASCII letters and digits, single
/// underscores between runs of them, or `unknown` when nothing is left.
pub open spec fn slug_text(value: Seq<char>) -> Seq<char> {
    let t = strip_trail(strip_lead(squeeze(value.map_values(|c: char| slug_char(c)))));
    if t.len() == 0 {
        "unknown"@
    } else {
        t
    }
}

pub fn slug(value: &str) -> (r: String)
    ensures
        r@ == slug_text(value@),
{
    let chars = to_chars(value);
    let ghost mapped = value@.map_values(|c: char| slug_char(c));
    let mut squeezed: Vec<char> = Vec::new();
    let mut i: usize = 0;
    while i < chars.len()
        invariant
            0 <= i <= chars@.len(),
            chars@ == value@,
            mapped == value@.map_values(|c: char| slug_char(c)),
            squeezed@ == squeeze(mapped.take(i as int)),
        decreases chars.len() - i,
    {
        let c = chars[i];
        let m = if ascii_alnum_char(c) { lower_one(c) } else { '_' };
        proof {
            assert(mapped.take(i + 1).drop_last() == mapped.take(i as int));
            assert(mapped.take(i + 1).last() == m);
        }
        let n = squeezed.len();
        if !(m == '_' && n > 0 && squeezed[n - 1] == '_') {
            squeezed.push(m);
        }
        i = i + 1;
    }
    assert(mapped.take(i as int) == mapped);
    let ghost s = squeezed@;
    let mut a: usize = 0;
    assert(s.skip(0) == s);
    while a < squeezed.len() && squeezed[a] == '_'
        invariant
            0 <= a <= squeezed@.len(),
            squeezed@ == s,
            strip_lead(s) == strip_lead(s.skip(a as int)),
        decreases squeezed.len() - a,
    {
        assert(s.skip(a as int).drop_first() == s.skip(a + 1));
        a = a + 1;
    }
    let ghost t = s.skip(a as int);
    assert(strip_lead(s) == t);
    let mut b: usize = squeezed.len();
    assert(t.take(b - a) == t);
    while b > a && squeezed[b - 1] == '_'
        invariant
            a <= b <= squeezed@.len(),
            squeezed@ == s,
            t == s.skip(a as int),
            strip_trail(t) == strip_trail(t.take(b - a)),
        decreases b,
    {
        assert(t.take(b - a).drop_last() == t.take(b - 1 - a));
        b = b - 1;
    }
    assert(strip_trail(t.take(b - a)) == t.take(b - a));
    if b == a {
        return owned("unknown");
    }
    let mut out = String::new();
    let mut k: usize = a;
    while k < b
        invariant
            a <= k <= b,
            b <= squeezed@.len(),
            squeezed@ == s,
            t == s.skip(a as int),
            out@ == t.take(k - a),
        decreases b - k,
    {
        push_char(&mut out, squeezed[k]);
        assert(t.take(k + 1 - a) == t.take(k - a).push(s[k as int]));
        k = k + 1;
    }
    out
}

/// A lower-case hexadecimal digit for a value below sixteen.
pub open spec fn hex_lower(d: nat) -> char {
    if d < 10 {
        digit_char(d)
    } else if d == 10 {
        'a'
    } else if d == 11 {
        'b'
    } else if d == 12 {
        'c'
    } else if d == 13 {
        'd'
    } else if d == 14 {
        'e'
    } else {
        'f'
    }
}

pub(crate) fn hex_lower_char(d: u8) -> (r: char)
    requires
        d < 16,
    ensures
        r == hex_lower(d as nat),
{
    if d < 10 {
        crate::text::digit(d as u64)
    } else if d == 10 {
        'a'
    } else if d == 11 {
        'b'
    } else if d == 12 {
        'c'
    } else if d == 13 {
        'd'
    } else if d == 14 {
        'e'
    } else {
        'f'
    }
}

/// How JSON writes one character inside a string: quotes, backslashes and control characters
/// escaped, everything else as itself.
pub open spec fn json_escape(c: char) -> Seq<char> {
    let v = c as u32;
    if c == '"' {
        seq!['\\', '"']
    } else if c == '\\' {
        seq!['\\', '\\']
    } else if v == 8 {
        seq!['\\', 'b']
    } else if v == 9 {
        seq!['\\', 't']
    } else if v == 10 {
        seq!['\\', 'n']
    } else if v == 12 {
        seq!['\\', 'f']
    } else if v == 13 {
        seq!['\\', 'r']
    } else if v < 0x20 {
        seq!['\\', 'u', '0', '0', hex_lower((v / 16) as nat), hex_lower((v % 16) as nat)]
    } else {
        seq![c]
    }
}

/// The escaped characters of a JSON string.
pub open spec fn json_chars(s: Seq<char>) -> Seq<char>
    decreases s.len(),
{
    if s.len() == 0 {
        Seq::empty()
    } else {
        json_chars(s.drop_last()) + json_escape(s.last())
    }
}

/// A JSON string literal.
pub open spec fn json_string(s: Seq<char>) -> Seq<char> {
    seq!['"'] + json_chars(s) + seq!['"']
}

fn push_json_string(out: &mut String, s: &str)
    ensures
        final(out)@ == old(out)@ + json_string(s@),
{
    let chars = to_chars(s);
    push_char(out, '"');
    let ghost start = out@;
    let mut i: usize = 0;
    while i < chars.len()
        invariant
            0 <= i <= chars@.len(),
            chars@ == s@,
            out@ == start + json_chars(s@.take(i as int)),
        decreases chars.len() - i,
    {
        let c = chars[i];
        let v = c as u32;
        proof {
            assert(s@.take(i + 1).drop_last() == s@.take(i as int));
            assert(s@.take(i + 1).last() == c);
        }
        let ghost before = out@;
        if c == '"' {
            push_char(out, '\\');
            push_char(out, '"');
        } else if c == '\\' {
            push_char(out, '\\');
            push_char(out, '\\');
        } else if v == 8 {
            push_char(out, '\\');
            push_char(out, 'b');
        } else if v == 9 {
            push_char(out, '\\');
            push_char(out, 't');
        } else if v == 10 {
            push_char(out, '\\');
            push_char(out, 'n');
        } else if v == 12 {
            push_char(out, '\\');
            push_char(out, 'f');
        } else if v == 13 {
            push_char(out, '\\');
            push_char(out, 'r');
        } else if v < 0x20 {
            push_char(out, '\\');
            push_char(out, 'u');
            push_char(out, '0');
            push_char(out, '0');
            push_char(out, hex_lower_char((v / 16) as u8));
            push_char(out, hex_lower_char((v % 16) as u8));
        } else {
            push_char(out, c);
        }
        proof {
            assert(out@ =~= before + json_escape(c));
        }
        i = i + 1;
    }
    assert(s@.take(i as int) == s@);
    push_char(out, '"');
    assert(out@ =~= old(out)@ + json_string(s@));
}

pub open spec fn domain_name(d: Domain) -> Seq<char> {
    match d {
        Domain::Text => "text"@,
        Domain::Math => "math"@,
    }
}

pub open spec fn length_name(l: LengthBin) -> Seq<char> {
    match l {
        LengthBin::Short => "short"@,
        LengthBin::Normal => "normal"@,
        LengthBin::Long => "long"@,
    }
}

fn domain_word(d: Domain) -> (r: &'static str)
    ensures
        r@ == domain_name(d),
{
    match d {
        Domain::Text => "text",
        Domain::Math => "math",
    }
}

fn length_word(l: LengthBin) -> (r: &'static str)
    ensures
        r@ == length_name(l),
{
    match l {
        LengthBin::Short => "short",
        LengthBin::Normal => "normal",
        LengthBin::Long => "long",
    }
}

/// A bucket key as compact JSON, its fields in declaration order, the way `serde_json` writes it.
pub open spec fn bucket_json_text(b: BucketKey) -> Seq<char> {
    "{\"domain\":"@ + json_string(domain_name(b.domain)) + ",\"script\":"@ + json_string(b.script@)
        + ",\"language_hint\":"@ + json_string(b.language_hint@) + ",\"source_group\":"@
        + json_string(b.source_group@) + ",\"length_bin\":"@ + json_string(length_name(b.length_bin)) + "}"@
}

/// The bucket key as compact JSON.
pub fn bucket_json(bucket: &BucketKey) -> (r: String)
    ensures
        r@ == bucket_json_text(*bucket),
{
    let mut out = owned("{\"domain\":");
    push_json_string(&mut out, domain_word(bucket.domain));
    push_str(&mut out, ",\"script\":");
    push_json_string(&mut out, bucket.script.as_str());
    push_str(&mut out, ",\"language_hint\":");
    push_json_string(&mut out, bucket.language_hint.as_str());
    push_str(&mut out, ",\"source_group\":");
    push_json_string(&mut out, bucket.source_group.as_str());
    push_str(&mut out, ",\"length_bin\":");
    push_json_string(&mut out, length_word(bucket.length_bin));
    push_str(&mut out, "}");
    out
}

/// The BLAKE3 digest of a byte string.
pub uninterp spec fn blake3_of(data: Seq<u8>) -> Seq<u8>;

/// `blake3::hash`, as the 32 bytes the crate documents a digest to be.
#[verifier::external_body]
pub(crate) fn blake3_digest(data: &[u8]) -> (r: Vec<u8>)
    ensures
        r@ == blake3_of(data@),
        r@.len() == 32,
{
    blake3::hash(data).as_bytes().to_vec()
}

/// The digest of a bucket: BLAKE3 over the UTF-8 bytes of its JSON.
pub open spec fn bucket_digest(b: BucketKey) -> Seq<u8> {
    blake3_of(vstd::utf8::encode_utf8(bucket_json_text(b)))
}

fn digest_of(bucket: &BucketKey) -> (r: Vec<u8>)
    ensures
        r@ == bucket_digest(*bucket),
        r@.len() == 32,
{
    let json = bucket_json(bucket);
    blake3_digest(json.as_str().as_bytes())
}

/// The first four bytes of a digest as eight lower-case hexadecimal digits.
pub open spec fn short_hex(d: Seq<u8>) -> Seq<char> {
    seq![
        hex_lower((d[0] / 16) as nat), hex_lower((d[0] % 16) as nat),
        hex_lower((d[1] / 16) as nat), hex_lower((d[1] % 16) as nat),
        hex_lower((d[2] / 16) as nat), hex_lower((d[2] % 16) as nat),
        hex_lower((d[3] / 16) as nat), hex_lower((d[3] % 16) as nat),
    ]
}

/// Which kind of file a bucket names.
enum NameFlavor {
    Shard,
    TrainingPart,
}

/// The stem of a file named for a bucket.
pub open spec fn bucket_stem_text(b: BucketKey, prefix: Seq<char>, part: nat) -> Seq<char> {
    prefix + "-"@ + domain_name(b.domain) + "-script_"@ + slug_text(b.script@) + "-lang_"@
        + slug_text(b.language_hint@) + "-source_"@ + slug_text(b.source_group@) + "-len_"@
        + length_name(b.length_bin) + "-part_"@ + crate::format::pad4(decimal(part)) + "-"@
        + short_hex(bucket_digest(b))
}

fn push_padded(out: &mut String, n: u64)
    ensures
        final(out)@ == old(out)@ + crate::format::pad4(decimal(n as nat)),
{
    let digits = crate::text::decimal_chars(n);
    let ghost start = out@;
    let mut pad: usize = digits.len();
    while pad < 4
        invariant
            digits@.len() <= pad,
            pad <= 4 || pad == digits@.len(),
            out@ == start + Seq::new((pad - digits@.len()) as nat, |i: int| '0'),
        decreases 4 - pad,
    {
        push_char(out, '0');
        proof {
            assert(Seq::new((pad + 1 - digits@.len()) as nat, |i: int| '0') =~= Seq::new((pad - digits@.len()) as nat, |i: int| '0').push('0'));
        }
        pad = pad + 1;
    }
    let ghost padded = out@;
    let mut k: usize = 0;
    while k < digits.len()
        invariant
            0 <= k <= digits@.len(),
            out@ == padded + digits@.take(k as int),
        decreases digits.len() - k,
    {
        push_char(out, digits[k]);
        assert(digits@.take(k + 1) == digits@.take(k as int).push(digits@[k as int]));
        k = k + 1;
    }
    proof {
        assert(digits@.take(k as int) == digits@);
        if digits@.len() >= 4 {
            assert(Seq::new((pad - digits@.len()) as nat, |i: int| '0') =~= Seq::<char>::empty());
        }
        assert(out@ =~= old(out)@ + crate::format::pad4(decimal(n as nat)));
    }
}

fn bucket_stem(bucket: &BucketKey, flavor: NameFlavor, part_index: usize) -> (r: String)
    requires
        part_index < usize::MAX,
    ensures
        r@ == bucket_stem_text(*bucket, match flavor {
            NameFlavor::Shard => "shard"@,
            NameFlavor::TrainingPart => "train"@,
        }, (part_index + 1) as nat),
{
    let digest = digest_of(bucket);
    let mut out = match flavor {
        NameFlavor::Shard => owned("shard"),
        NameFlavor::TrainingPart => owned("train"),
    };
    push_str(&mut out, "-");
    push_str(&mut out, domain_word(bucket.domain));
    push_str(&mut out, "-script_");
    push_str(&mut out, slug(bucket.script.as_str()).as_str());
    push_str(&mut out, "-lang_");
    push_str(&mut out, slug(bucket.language_hint.as_str()).as_str());
    push_str(&mut out, "-source_");
    push_str(&mut out, slug(bucket.source_group.as_str()).as_str());
    push_str(&mut out, "-len_");
    push_str(&mut out, length_word(bucket.length_bin));
    push_str(&mut out, "-part_");
    push_padded(&mut out, (part_index + 1) as u64);
    push_str(&mut out, "-");
    let ghost before = out@;
    let mut k: usize = 0;
    while k < 4
        invariant
            0 <= k <= 4,
            digest@.len() == 32,
            digest@ == bucket_digest(*bucket),
            out@ == before + short_hex(digest@).take(2 * k as int),
        decreases 4 - k,
    {
        let byte = digest[k];
        push_char(&mut out, hex_lower_char(byte / 16));
        push_char(&mut out, hex_lower_char(byte % 16));
        proof {
            assert(short_hex(digest@).take(2 * (k + 1) as int) =~= short_hex(digest@).take(2 * k as int).push(hex_lower((byte / 16) as nat)).push(hex_lower((byte % 16) as nat)));
        }
        k = k + 1;
    }
    assert(short_hex(digest@).take(8) == short_hex(digest@));
    out
}

/// The file a bucket's shard is written to.
pub open spec fn shard_name_text(b: BucketKey) -> Seq<char> {
    bucket_stem_text(b, "shard"@, 1) + ".txt"@
}

/// The file a bucket's shard is written to.
pub fn shard_file_name(bucket: &BucketKey) -> (r: String)
    ensures
        r@ == shard_name_text(*bucket),
{
    let mut r = bucket_stem(bucket, NameFlavor::Shard, 0);
    push_str(&mut r, ".txt");
    r
}

/// The file the `part_index`-th training part of a bucket is written to, counting from zero.
pub fn training_part_file_name(bucket: &BucketKey, part_index: usize) -> (r: String)
    requires
        part_index < usize::MAX,
    ensures
        r@ == bucket_stem_text(*bucket, "train"@, (part_index + 1) as nat) + ".txt"@,
{
    let mut r = bucket_stem(bucket, NameFlavor::TrainingPart, part_index);
    push_str(&mut r, ".txt");
    r
}

/// The value of bytes read as a little-endian number.
pub open spec fn le_value(bytes: Seq<u8>) -> nat
    decreases bytes.len(),
{
    if bytes.len() == 0 {
        0
    } else {
        bytes[0] as nat + 256 * le_value(bytes.drop_first())
    }
}

/// Powers of 256.
pub open spec fn pow256(n: nat) -> nat
    decreases n,
{
    if n == 0 {
        1
    } else {
        256 * pow256((n - 1) as nat)
    }
}

proof fn lemma_pow256_grows(a: nat, b: nat)
    requires
        a <= b,
    ensures
        1 <= pow256(a) <= pow256(b),
    decreases b,
{
    if b > 0 {
        if a < b {
            lemma_pow256_grows(a, (b - 1) as nat);
        } else {
            lemma_pow256_grows((a - 1) as nat, (b - 1) as nat);
        }
    }
}

proof fn lemma_le_value_bound(bytes: Seq<u8>)
    ensures
        le_value(bytes) < pow256(bytes.len()),
    decreases bytes.len(),
{
    if bytes.len() > 0 {
        lemma_le_value_bound(bytes.drop_first());
    }
}

proof fn lemma_pow256_eight()
    ensures
        pow256(8) == 0x1_0000_0000_0000_0000,
{
    reveal_with_fuel(pow256, 9);
}

/// The seed a bucket's sampling and shuffling start from: the first eight bytes of its digest,
/// little-endian.
pub fn bucket_seed(bucket: &BucketKey) -> (r: u64)
    ensures
        r == le_value(bucket_digest(*bucket).take(8)),
{
    let digest = digest_of(bucket);
    let ghost d = digest@;
    let mut value: u128 = 0;
    let mut k: usize = 8;
    proof {
        assert(d.take(8).subrange(8, 8) =~= Seq::<u8>::empty());
    }
    while k > 0
        invariant
            0 <= k <= 8,
            d == digest@,
            d.len() == 32,
            value == le_value(d.take(8).subrange(k as int, 8)),
        decreases k,
    {
        proof {
            lemma_le_value_bound(d.take(8).subrange(k as int, 8));
            lemma_pow256_grows((8 - k) as nat, 8);
            lemma_pow256_eight();
            assert(d.take(8).subrange(k - 1, 8).drop_first() =~= d.take(8).subrange(k as int, 8));
            assert(d.take(8).subrange(k - 1, 8)[0] == d[k - 1]);
        }
        value = value * 256 + digest[k - 1] as u128;
        k = k - 1;
    }
    proof {
        assert(d.take(8).subrange(0, 8) =~= d.take(8));
        lemma_le_value_bound(d.take(8));
        lemma_pow256_eight();
    }
    value as u64
}

/// The sum of a list of counts.
pub open spec fn total(s: Seq<u64>) -> nat
    decreases s.len(),
{
    if s.len() == 0 {
        0
    } else {
        total(s.drop_last()) + s.last() as nat
    }
}

proof fn lemma_total_update(s: Seq<u64>, i: int, v: u64)
    requires
        0 <= i < s.len(),
    ensures
        total(s.update(i, v)) == total(s) - s[i] + v,
    decreases s.len(),
{
    if i < s.len() - 1 {
        lemma_total_update(s.drop_last(), i, v);
        assert(s.update(i, v).drop_last() == s.drop_last().update(i, v));
    } else {
        assert(s.update(i, v).drop_last() == s.drop_last());
    }
}

fn sum_of(v: &Vec<u64>) -> (r: u128)
    requires
        total(v@) <= u64::MAX,
    ensures
        r == total(v@),
{
    let mut s: u128 = 0;
    let mut i: usize = 0;
    while i < v.len()
        invariant
            0 <= i <= v@.len(),
            total(v@) <= u64::MAX,
            s == total(v@.take(i as int)),
        decreases v.len() - i,
    {
        proof {
            assert(v@.take(i + 1).drop_last() == v@.take(i as int));
            lemma_total_prefix(v@, i + 1);
        }
        s = s + v[i] as u128;
        i = i + 1;
    }
    assert(v@.take(i as int) == v@);
    s
}

proof fn lemma_total_prefix(s: Seq<u64>, k: int)
    requires
        0 <= k <= s.len(),
    ensures
        total(s.take(k)) <= total(s),
    decreases s.len() - k,
{
    if k < s.len() {
        lemma_total_prefix(s, k + 1);
        assert(s.take(k + 1).drop_last() == s.take(k));
    } else {
        assert(s.take(k) == s);
    }
}

/// Bring the targets' sum to `requested_total`: raise the bucket furthest below its line count
/// one line at a time while the sum is short, then lower the largest bucket still above its
/// floor one line at a time while the sum is over. Raising stops when every bucket holds all
/// its lines; lowering stops when every bucket is at its floor.
pub fn rebalance_target_sum(
    targets: &mut Vec<u64>,
    floors: &Vec<u64>,
    lines: &Vec<u64>,
    requested_total: u64,
)
    requires
        old(targets)@.len() == floors@.len(),
        old(targets)@.len() == lines@.len(),
        total(old(targets)@) <= u64::MAX,
    ensures
        final(targets)@.len() == old(targets)@.len(),
        total(old(targets)@) <= requested_total ==> {
            &&& total(final(targets)@) <= requested_total
            &&& (total(final(targets)@) == requested_total || forall|i: int| 0 <= i < lines@.len() ==> #[trigger] final(targets)@[i] >= lines@[i])
            &&& forall|i: int| 0 <= i < lines@.len() ==> old(targets)@[i] <= #[trigger] final(targets)@[i]
                && (final(targets)@[i] == old(targets)@[i] || final(targets)@[i] <= lines@[i])
            &&& forall|i: int, j: int| 0 <= i < lines@.len() && 0 <= j < lines@.len() && #[trigger] final(targets)@[i] > old(targets)@[i]
                && #[trigger] final(targets)@[j] < lines@[j] ==> lines@[j] - final(targets)@[j] <= lines@[i] - final(targets)@[i] + 1
        },
        total(old(targets)@) > requested_total ==> {
            &&& total(final(targets)@) >= requested_total
            &&& (total(final(targets)@) == requested_total || forall|i: int| 0 <= i < floors@.len() ==> #[trigger] final(targets)@[i] <= floors@[i])
            &&& forall|i: int| 0 <= i < floors@.len() ==> #[trigger] final(targets)@[i] <= old(targets)@[i]
                && (final(targets)@[i] == old(targets)@[i] || final(targets)@[i] >= floors@[i])
            &&& forall|i: int, j: int| 0 <= i < floors@.len() && 0 <= j < floors@.len() && #[trigger] final(targets)@[i] < old(targets)@[i]
                && #[trigger] final(targets)@[j] > floors@[j] ==> final(targets)@[j] <= final(targets)@[i] + 1
        },
{
    let ghost start = targets@;
    let n = targets.len();
    let mut sum: u128 = sum_of(targets);
    if sum < requested_total as u128 {
        loop
            invariant
                targets@.len() == n,
                n == start.len(),
                n == lines@.len(),
                sum == total(targets@),
                total(start) <= requested_total,
                sum <= requested_total,
                forall|i: int| 0 <= i < n ==> start[i] <= #[trigger] targets@[i]
                    && (targets@[i] == start[i] || targets@[i] <= lines@[i]),
                forall|i: int, j: int| 0 <= i < n && 0 <= j < n && #[trigger] targets@[i] > start[i]
                    && #[trigger] targets@[j] < lines@[j] ==> lines@[j] - targets@[j] <= lines@[i] - targets@[i] + 1,
            ensures
                targets@.len() == n,
                sum == total(targets@),
                sum <= requested_total,
                sum == requested_total || forall|i: int| 0 <= i < n ==> #[trigger] targets@[i] >= lines@[i],
                forall|i: int| 0 <= i < n ==> start[i] <= #[trigger] targets@[i]
                    && (targets@[i] == start[i] || targets@[i] <= lines@[i]),
                forall|i: int, j: int| 0 <= i < n && 0 <= j < n && #[trigger] targets@[i] > start[i]
                    && #[trigger] targets@[j] < lines@[j] ==> lines@[j] - targets@[j] <= lines@[i] - targets@[i] + 1,
            decreases requested_total - sum,
        {
            if sum >= requested_total as u128 {
                break;
            }
            let mut pick: usize = n;
            let mut gap: u64 = 0;
            let mut k: usize = 0;
            while k < n
                invariant
                    0 <= k <= n,
                    targets@.len() == n,
                    n == lines@.len(),
                    pick == n || (pick < k && targets@[pick as int] < lines@[pick as int] && gap == lines@[pick as int] - targets@[pick as int]),
                    pick == n ==> forall|m: int| 0 <= m < k ==> #[trigger] targets@[m] >= lines@[m],
                    forall|m: int| 0 <= m < k && #[trigger] targets@[m] < lines@[m] ==> lines@[m] - targets@[m] <= gap,
                decreases n - k,
            {
                if targets[k] < lines[k] && (pick == n || lines[k] - targets[k] >= gap) {
                    pick = k;
                    gap = lines[k] - targets[k];
                }
                k = k + 1;
            }
            if pick == n {
                break;
            }
            let ghost before = targets@;
            let value = targets[pick] + 1;
            targets.set(pick, value);
            proof {
                lemma_total_update(before, pick as int, value);
                assert forall|i: int, j: int| 0 <= i < n && 0 <= j < n && #[trigger] targets@[i] > start[i]
                    && #[trigger] targets@[j] < lines@[j] implies lines@[j] - targets@[j] <= lines@[i] - targets@[i] + 1 by {
                    if i == pick {
                        if j != pick {
                            assert(targets@[j] == before[j]);
                        }
                    } else if j == pick {
                        assert(targets@[i] == before[i]);
                    } else {
                        assert(targets@[i] == before[i] && targets@[j] == before[j]);
                    }
                }
            }
            sum = sum + 1;
        }
    } else if sum > requested_total as u128 {
        loop
            invariant
                targets@.len() == n,
                n == start.len(),
                n == floors@.len(),
                sum == total(targets@),
                total(start) > requested_total,
                sum >= requested_total,
                forall|i: int| 0 <= i < n ==> #[trigger] targets@[i] <= start[i]
                    && (targets@[i] == start[i] || targets@[i] >= floors@[i]),
                forall|i: int, j: int| 0 <= i < n && 0 <= j < n && #[trigger] targets@[i] < start[i]
                    && #[trigger] targets@[j] > floors@[j] ==> targets@[j] <= targets@[i] + 1,
            ensures
                targets@.len() == n,
                sum == total(targets@),
                sum >= requested_total,
                sum == requested_total || forall|i: int| 0 <= i < n ==> #[trigger] targets@[i] <= floors@[i],
                forall|i: int| 0 <= i < n ==> #[trigger] targets@[i] <= start[i]
                    && (targets@[i] == start[i] || targets@[i] >= floors@[i]),
                forall|i: int, j: int| 0 <= i < n && 0 <= j < n && #[trigger] targets@[i] < start[i]
                    && #[trigger] targets@[j] > floors@[j] ==> targets@[j] <= targets@[i] + 1,
            decreases sum - requested_total,
        {
            if sum <= requested_total as u128 {
                break;
            }
            let mut pick: usize = n;
            let mut largest: u64 = 0;
            let mut k: usize = 0;
            while k < n
                invariant
                    0 <= k <= n,
                    targets@.len() == n,
                    n == floors@.len(),
                    pick == n || (pick < k && targets@[pick as int] > floors@[pick as int] && largest == targets@[pick as int]),
                    pick == n ==> forall|m: int| 0 <= m < k ==> #[trigger] targets@[m] <= floors@[m],
                    forall|m: int| 0 <= m < k && #[trigger] targets@[m] > floors@[m] ==> targets@[m] <= largest,
                decreases n - k,
            {
                if targets[k] > floors[k] && (pick == n || targets[k] >= largest) {
                    pick = k;
                    largest = targets[k];
                }
                k = k + 1;
            }
            if pick == n {
                break;
            }
            let ghost before = targets@;
            let value = targets[pick] - 1;
            targets.set(pick, value);
            proof {
                lemma_total_update(before, pick as int, value);
                assert forall|i: int, j: int| 0 <= i < n && 0 <= j < n && #[trigger] targets@[i] < start[i]
                    && #[trigger] targets@[j] > floors@[j] implies targets@[j] <= targets@[i] + 1 by {
                    if i == pick {
                        if j != pick {
                            assert(targets@[j] == before[j]);
                        }
                    } else if j == pick {
                        assert(targets@[i] == before[i]);
                    } else {
                        assert(targets@[i] == before[i] && targets@[j] == before[j]);
                    }
                }
            }
            sum = sum - 1;
        }
    }
}

/// The training files of every bucket, in bucket order.
pub open spec fn all_training_files(buckets: Seq<BucketBalance>) -> Seq<String>
    decreases buckets.len(),
{
    if buckets.len() == 0 {
        Seq::empty()
    } else {
        all_training_files(buckets.drop_last()) + buckets.last().training_files@
    }
}

/// Each text no later than the next.
pub open spec fn sorted_strings(s: Seq<String>) -> bool {
    forall|k: int| 0 <= k < s.len() - 1 ==> !#[trigger] seq_lt(s[k + 1]@, s[k]@)
}

/// The training files of every bucket, sorted.
pub fn collect_training_files(buckets: &[BucketBalance]) -> (r: Vec<String>)
    ensures
        r@.to_multiset() == all_training_files(buckets@).to_multiset(),
        sorted_strings(r@),
{
    let mut files: Vec<String> = Vec::new();
    let mut i: usize = 0;
    while i < buckets.len()
        invariant
            0 <= i <= buckets@.len(),
            files@.to_multiset() == all_training_files(buckets@.take(i as int)).to_multiset(),
            sorted_strings(files@),
        decreases buckets.len() - i,
    {
        proof {
            assert(buckets@.take(i + 1).drop_last() == buckets@.take(i as int));
            assert(buckets@.take(i + 1).last() == buckets@[i as int]);
        }
        let ghost prefix = all_training_files(buckets@.take(i as int));
        let mut j: usize = 0;
        let group = &buckets[i].training_files;
        assert(prefix + group@.take(0) =~= prefix);
        while j < group.len()
            invariant
                0 <= j <= group@.len(),
                files@.to_multiset() == (prefix + group@.take(j as int)).to_multiset(),
                sorted_strings(files@),
            decreases group.len() - j,
        {
            let name = group[j].clone();
            let ghost before = files@;
            let mut p: usize = 0;
            while p < files.len() && !str_lt(name.as_str(), files[p].as_str())
                invariant
                    0 <= p <= files@.len(),
                    files@ == before,
                    forall|m: int| 0 <= m < p ==> !seq_lt(name@, #[trigger] files@[m]@),
                decreases files.len() - p,
            {
                p = p + 1;
            }
            proof {
                if p < before.len() {
                    lemma_seq_lt_asymmetric(name@, before[p as int]@);
                }
                vstd::seq_lib::to_multiset_insert(before, p as int, name);
                assert(prefix + group@.take(j + 1) =~= (prefix + group@.take(j as int)).push(group@[j as int]));
                vstd::seq_lib::to_multiset_build(prefix + group@.take(j as int), group@[j as int]);
            }
            files.insert(p, name);
            proof {
                let after = files@;
                assert(after == before.insert(p as int, name));
                assert forall|m: int| 0 <= m < after.len() - 1 implies !#[trigger] seq_lt(after[m + 1]@, after[m]@) by {
                    if m + 1 < p {
                        assert(after[m] == before[m] && after[m + 1] == before[m + 1]);
                        assert(!seq_lt(before[m + 1]@, before[m]@));
                    } else if m + 1 == p {
                        assert(after[m] == before[m]);
                        assert(!seq_lt(name@, before[m]@));
                    } else if m == p {
                        assert(after[m + 1] == before[m]);
                        assert(seq_lt(name@, before[m]@));
                    } else {
                        assert(after[m] == before[m - 1] && after[m + 1] == before[m]);
                        assert(!seq_lt(before[(m - 1) + 1]@, before[m - 1]@));
                    }
                }
            }
            j = j + 1;
        }
        assert(group@.take(j as int) == group@);
        i = i + 1;
    }
    assert(buckets@.take(i as int) == buckets@);
    files
}

/// `a`'s bucket sorts before `b`'s: by domain, script, language hint, source group and length
/// bin, in that order, as the derived order of bucket keys compares them.
pub open spec fn key_lt(a: BucketKey, b: BucketKey) -> bool {
    let da = if a.domain == Domain::Text { 0int } else { 1int };
    let db = if b.domain == Domain::Text { 0int } else { 1int };
    let la = if a.length_bin == LengthBin::Short { 0int } else if a.length_bin == LengthBin::Normal { 1int } else { 2int };
    let lb = if b.length_bin == LengthBin::Short { 0int } else if b.length_bin == LengthBin::Normal { 1int } else { 2int };
    da < db || (da == db && (seq_lt(a.script@, b.script@) || (a.script@ == b.script@ && (
        seq_lt(a.language_hint@, b.language_hint@) || (a.language_hint@ == b.language_hint@ && (
        seq_lt(a.source_group@, b.source_group@) || (a.source_group@ == b.source_group@ && la < lb)))))))
}

pub(crate) proof fn lemma_key_lt_asymmetric(a: BucketKey, b: BucketKey)
    ensures
        key_lt(a, b) ==> !key_lt(b, a),
{
    lemma_seq_lt_asymmetric(a.script@, b.script@);
    lemma_seq_lt_asymmetric(a.language_hint@, b.language_hint@);
    lemma_seq_lt_asymmetric(a.source_group@, b.source_group@);
    crate::text::lemma_seq_lt_irreflexive(a.script@);
    crate::text::lemma_seq_lt_irreflexive(a.language_hint@);
    crate::text::lemma_seq_lt_irreflexive(a.source_group@);
}

pub(crate) fn bucket_before(a: &BucketKey, b: &BucketKey) -> (r: bool)
    ensures
        r == key_lt(*a, *b),
{
    proof {
        crate::text::lemma_seq_lt_irreflexive(a.script@);
        crate::text::lemma_seq_lt_irreflexive(a.language_hint@);
        crate::text::lemma_seq_lt_irreflexive(a.source_group@);
    }
    let da: u8 = if a.domain == Domain::Text { 0 } else { 1 };
    let db: u8 = if b.domain == Domain::Text { 0 } else { 1 };
    if da != db {
        return da < db;
    }
    if !str_eq(a.script.as_str(), b.script.as_str()) {
        return str_lt(a.script.as_str(), b.script.as_str());
    }
    if !str_eq(a.language_hint.as_str(), b.language_hint.as_str()) {
        return str_lt(a.language_hint.as_str(), b.language_hint.as_str());
    }
    if !str_eq(a.source_group.as_str(), b.source_group.as_str()) {
        return str_lt(a.source_group.as_str(), b.source_group.as_str());
    }
    let la: u8 = if a.length_bin == LengthBin::Short { 0 } else if a.length_bin == LengthBin::Normal { 1 } else { 2 };
    let lb: u8 = if b.length_bin == LengthBin::Short { 0 } else if b.length_bin == LengthBin::Normal { 1 } else { 2 };
    proof {
        crate::text::lemma_seq_lt_irreflexive(a.script@);
        crate::text::lemma_seq_lt_irreflexive(a.language_hint@);
        crate::text::lemma_seq_lt_irreflexive(a.source_group@);
    }
    la < lb
}

/// The summary of a rebalancing run, its buckets in key order.
pub fn assemble_report(
    training_files: Vec<String>,
    report: String,
    input_lines: u64,
    output_lines: u64,
    buckets: Vec<BucketBalance>,
) -> (r: BalanceSummary)
    ensures
        r.training_files@ == training_files@,
        r.report == report,
        r.input_lines == input_lines,
        r.output_lines == output_lines,
        r.buckets@.to_multiset() == buckets@.to_multiset(),
        forall|k: int| 0 <= k < r.buckets@.len() - 1 ==> !#[trigger] key_lt(r.buckets@[k + 1].bucket, r.buckets@[k].bucket),
{
    let mut sorted: Vec<BucketBalance> = Vec::new();
    let mut rest = buckets;
    let ghost all = rest@;
    let ghost mut k: int = 0;
    assert(all.skip(0) == all);
    assert(all.take(0) =~= Seq::<BucketBalance>::empty());
    while rest.len() > 0
        invariant
            0 <= k <= all.len(),
            rest@ == all.skip(k),
            sorted@.to_multiset() == all.take(k).to_multiset(),
            forall|m: int| 0 <= m < sorted@.len() - 1 ==> !#[trigger] key_lt(sorted@[m + 1].bucket, sorted@[m].bucket),
        decreases rest.len(),
    {
        let b = rest.remove(0);
        proof {
            assert(b == all[k]);
            assert(rest@ =~= all.skip(k + 1));
        }
        let ghost before = sorted@;
        let mut p: usize = 0;
        while p < sorted.len() && !bucket_before(&b.bucket, &sorted[p].bucket)
            invariant
                0 <= p <= sorted@.len(),
                sorted@ == before,
                forall|m: int| 0 <= m < p ==> !key_lt(b.bucket, #[trigger] sorted@[m].bucket),
            decreases sorted.len() - p,
        {
            p = p + 1;
        }
        proof {
            if p < before.len() {
                lemma_key_lt_asymmetric(b.bucket, before[p as int].bucket);
            }
            vstd::seq_lib::to_multiset_insert(before, p as int, b);
            assert(all.take(k + 1) == all.take(k).push(b));
            vstd::seq_lib::to_multiset_build(all.take(k), b);
        }
        let ghost item = b;
        sorted.insert(p, b);
        proof {
            let after = sorted@;
            assert(after == before.insert(p as int, item));
            assert forall|m: int| 0 <= m < after.len() - 1 implies !#[trigger] key_lt(after[m + 1].bucket, after[m].bucket) by {
                if m + 1 < p {
                    assert(after[m] == before[m] && after[m + 1] == before[m + 1]);
                    assert(!key_lt(before[m + 1].bucket, before[m].bucket));
                } else if m + 1 == p {
                    assert(after[m] == before[m]);
                    assert(!key_lt(item.bucket, before[m].bucket));
                } else if m == p {
                    assert(after[m + 1] == before[m]);
                    assert(key_lt(item.bucket, before[m].bucket));
                } else {
                    assert(after[m] == before[m - 1] && after[m + 1] == before[m]);
                    assert(!key_lt(before[(m - 1) + 1].bucket, before[m - 1].bucket));
                }
            }
            k = k + 1;
        }
    }
    assert(all.take(k) == all);
    BalanceSummary { training_files, report, input_lines, output_lines, buckets: sorted }
}

/// The two-letter ISO 639-1 language codes.
pub open spec fn iso_639_1() -> Seq<Seq<char>> {
    seq!["aa"@, "ab"@, "ae"@, "af"@, "ak"@, "am"@, "an"@, "ar"@, "as"@, "av"@, "ay"@, "az"@, "ba"@, "be"@, "bg"@, "bh"@, "bi"@, "bm"@, "bn"@, "bo"@, "br"@, "bs"@, "ca"@, "ce"@, "ch"@, "co"@, "cr"@, "cs"@, "cu"@, "cv"@, "cy"@, "da"@, "de"@, "dv"@, "dz"@, "ee"@, "el"@, "en"@, "eo"@, "es"@, "et"@, "eu"@, "fa"@, "ff"@, "fi"@, "fj"@, "fo"@, "fr"@, "fy"@, "ga"@, "gd"@, "gl"@, "gn"@, "gu"@, "gv"@, "ha"@, "he"@, "hi"@, "ho"@, "hr"@, "ht"@, "hu"@, "hy"@, "hz"@, "ia"@, "id"@, "ie"@, "ig"@, "ii"@, "ik"@, "io"@, "is"@, "it"@, "iu"@, "ja"@, "jv"@, "ka"@, "kg"@, "ki"@, "kj"@, "kk"@, "kl"@, "km"@, "kn"@, "ko"@, "kr"@, "ks"@, "ku"@, "kv"@, "kw"@, "ky"@, "la"@, "lb"@, "lg"@, "li"@, "ln"@, "lo"@, "lt"@, "lu"@, "lv"@, "mg"@, "mh"@, "mi"@, "mk"@, "ml"@, "mn"@, "mr"@, "ms"@, "mt"@, "my"@, "na"@, "nb"@, "nd"@, "ne"@, "ng"@, "nl"@, "nn"@, "no"@, "nr"@, "nv"@, "ny"@, "oc"@, "oj"@, "om"@, "or"@, "os"@, "pa"@, "pi"@, "pl"@, "ps"@, "pt"@, "qu"@, "rm"@, "rn"@, "ro"@, "ru"@, "rw"@, "sa"@, "sc"@, "sd"@, "se"@, "sg"@, "si"@, "sk"@, "sl"@, "sm"@, "sn"@, "so"@, "sq"@, "sr"@, "ss"@, "st"@, "su"@, "sv"@, "sw"@, "ta"@, "te"@, "tg"@, "th"@, "ti"@, "tk"@, "tl"@, "tn"@, "to"@, "tr"@, "ts"@, "tt"@, "tw"@, "ty"@, "ug"@, "uk"@, "ur"@, "uz"@, "ve"@, "vi"@, "vo"@, "wa"@, "wo"@, "xh"@, "yi"@, "yo"@, "za"@, "zh"@, "zu"@]
}

/// The common three-letter ISO 639-3 codes.
pub open spec fn iso_639_3_common() -> Seq<Seq<char>> {
    seq!["ara"@, "ben"@, "deu"@, "eng"@, "fas"@, "fra"@, "hin"@, "jpn"@, "kor"@, "por"@, "rus"@, "spa"@, "zho"@]
}

fn iso_639_1_list() -> (r: Vec<&'static str>)
    ensures
        r@.map_values(|s: &'static str| s@) == iso_639_1(),
{
    let r = vec!["aa", "ab", "ae", "af", "ak", "am", "an", "ar", "as", "av", "ay", "az", "ba", "be", "bg", "bh", "bi", "bm", "bn", "bo", "br", "bs", "ca", "ce", "ch", "co", "cr", "cs", "cu", "cv", "cy", "da", "de", "dv", "dz", "ee", "el", "en", "eo", "es", "et", "eu", "fa", "ff", "fi", "fj", "fo", "fr", "fy", "ga", "gd", "gl", "gn", "gu", "gv", "ha", "he", "hi", "ho", "hr", "ht", "hu", "hy", "hz", "ia", "id", "ie", "ig", "ii", "ik", "io", "is", "it", "iu", "ja", "jv", "ka", "kg", "ki", "kj", "kk", "kl", "km", "kn", "ko", "kr", "ks", "ku", "kv", "kw", "ky", "la", "lb", "lg", "li", "ln", "lo", "lt", "lu", "lv", "mg", "mh", "mi", "mk", "ml", "mn", "mr", "ms", "mt", "my", "na", "nb", "nd", "ne", "ng", "nl", "nn", "no", "nr", "nv", "ny", "oc", "oj", "om", "or", "os", "pa", "pi", "pl", "ps", "pt", "qu", "rm", "rn", "ro", "ru", "rw", "sa", "sc", "sd", "se", "sg", "si", "sk", "sl", "sm", "sn", "so", "sq", "sr", "ss", "st", "su", "sv", "sw", "ta", "te", "tg", "th", "ti", "tk", "tl", "tn", "to", "tr", "ts", "tt", "tw", "ty", "ug", "uk", "ur", "uz", "ve", "vi", "vo", "wa", "wo", "xh", "yi", "yo", "za", "zh", "zu"];
    assert(r@.map_values(|s: &'static str| s@) =~= iso_639_1());
    r
}

fn iso_639_3_list() -> (r: Vec<&'static str>)
    ensures
        r@.map_values(|s: &'static str| s@) == iso_639_3_common(),
{
    let r = vec!["ara", "ben", "deu", "eng", "fas", "fra", "hin", "jpn", "kor", "por", "rus", "spa", "zho"];
    assert(r@.map_values(|s: &'static str| s@) =~= iso_639_3_common());
    r
}

/// The generator a shard is sampled with.
#[verifier::external_type_specification]
#[verifier::external_body]
pub struct ExChaCha20Rng(rand_chacha::ChaCha20Rng);

/// The generator `rand_chacha::ChaCha20Rng::seed_from_u64` makes of a seed.
pub uninterp spec fn chacha_seeded(seed: u64) -> ChaCha20Rng;

/// `rand_chacha::ChaCha20Rng::seed_from_u64`: a generator whose whole stream the seed fixes
/// (the seed is expanded by a fixed function, which rand_core documents as part of the value
/// contract), so the generator is named as a function of the seed. Nothing about the stream
/// itself is stated.
#[verifier::external_body]
fn seeded_rng(seed: u64) -> (r: ChaCha20Rng)
    ensures
        r == chacha_seeded(seed),
{
    ChaCha20Rng::seed_from_u64(seed)
}

/// The number `rand::Rng::gen_range(0..upper)` draws from a generator in the given state.
pub uninterp spec fn drawn_below(rng: ChaCha20Rng, upper: u64) -> u64;

/// The state a generator is left in after `rand::Rng::gen_range(0..upper)`.
pub uninterp spec fn after_draw(rng: ChaCha20Rng, upper: u64) -> ChaCha20Rng;

/// `rand::Rng::gen_range` over `0..upper`: a number below `upper`, as the documentation
/// promises. The generator is deterministic, so the number drawn and the state left behind are
/// named as functions of the state and the bound; which number comes out is not stated. The
/// range must not be empty.
#[verifier::external_body]
fn draw_below(rng: &mut ChaCha20Rng, upper: u64) -> (r: u64)
    requires
        upper > 0,
    ensures
        r < upper,
        r == drawn_below(*old(rng), upper),
        *final(rng) == after_draw(*old(rng), upper),
{
    rng.gen_range(0..upper)
}

/// How a shard of `lines` lines is cut down to `target`: not read at all, kept whole, or
/// sampled through a reservoir.
#[derive(Debug, Clone, Copy, PartialEq, Eq, Structural)]
pub enum ShardSampling {
    Nothing,
    Everything,
    Reservoir,
}

pub fn shard_sampling(lines: u64, target: u64) -> (r: ShardSampling)
    ensures
        r == (if target == 0 {
            ShardSampling::Nothing
        } else if lines <= target {
            ShardSampling::Everything
        } else {
            ShardSampling::Reservoir
        }),
{
    if target == 0 {
        ShardSampling::Nothing
    } else if lines <= target {
        ShardSampling::Everything
    } else {
        ShardSampling::Reservoir
    }
}

/// The seed a bucket's generator starts from: the run's seed mixed with the bucket's own.
pub open spec fn shard_seed(seed: u64, bucket: BucketKey) -> u64 {
    seed ^ (le_value(bucket_digest(bucket).take(8)) as u64)
}

/// The generator a shard of this bucket is sampled with: seeded with the run's seed mixed with
/// the bucket's own, so each bucket draws its own stream.
pub fn shard_rng(seed: u64, bucket: &BucketKey) -> (r: ChaCha20Rng)
    ensures
        r == chacha_seeded(shard_seed(seed, *bucket)),
{
    let own = bucket_seed(bucket);
    seeded_rng(seed ^ own)
}

/// Offer the `seen`-th line of a shard to a reservoir of at most `target` lines: the first
/// `target` lines are kept; each later one replaces a kept line at a place drawn below `seen`,
/// or is dropped when that place is past the reservoir.
pub fn reservoir_offer(reservoir: &mut Vec<String>, line: String, seen: u64, target: u64, rng: &mut ChaCha20Rng)
    requires
        seen >= 1,
        old(reservoir)@.len() == if seen - 1 < target { (seen - 1) as int } else { target as int },
    ensures
        final(reservoir)@.len() == if seen < target { seen as int } else { target as int },
        seen <= target ==> final(reservoir)@ == old(reservoir)@.push(line) && *final(rng) == *old(rng),
        seen > target ==> *final(rng) == after_draw(*old(rng), seen) && final(reservoir)@ == (if drawn_below(
            *old(rng),
            seen,
        ) < target {
            old(reservoir)@.update(drawn_below(*old(rng), seen) as int, line)
        } else {
            old(reservoir)@
        }),
{
    if seen <= target {
        reservoir.push(line);
        return;
    }
    let replace = draw_below(rng, seen);
    if replace < target {
        let size = reservoir.len();
        assert(size as int == target as int);
        let at = replace as usize;
        let ghost before = reservoir@;
        reservoir.set(at, line);
        assert(reservoir@ == before.update(at as int, line));
    }
}

/// The texts of a sequence of lines.
pub open spec fn line_texts(lines: Seq<String>) -> Seq<Seq<char>> {
    lines.map_values(|l: String| l@)
}

/// The order `rand::seq::SliceRandom::shuffle` puts lines in, drawing from a generator that
/// starts in the given state.
pub uninterp spec fn shuffle_order(rng: ChaCha20Rng, lines: Seq<Seq<char>>) -> Seq<Seq<char>>;

/// `rand::seq::SliceRandom::shuffle`: the same lines, in an order that the generator's state
/// and the lines fix (the shuffle draws every index from the generator, and the generator is
/// deterministic), so the order is named. That the lines are only reordered is what the
/// documentation promises; which order comes out is not stated.
#[verifier::external_body]
fn shuffle_lines(lines: &mut Vec<String>, rng: &mut ChaCha20Rng)
    ensures
        final(lines)@.to_multiset() == old(lines)@.to_multiset(),
        line_texts(final(lines)@) == shuffle_order(*old(rng), line_texts(old(lines)@)),
{
    lines.shuffle(rng);
}

/// A bucket's lines in the order they are written to its training parts: shuffled with the
/// generator the run's seed and the bucket's own give, so the same seed, bucket and lines
/// always give the same order.
pub fn shuffled_for_training(lines: Vec<String>, seed: u64, bucket: &BucketKey) -> (r: Vec<String>)
    ensures
        r@.to_multiset() == lines@.to_multiset(),
        line_texts(r@) == shuffle_order(chacha_seeded(shard_seed(seed, *bucket)), line_texts(lines@)),
{
    let mut lines = lines;
    let mut rng = shard_rng(seed, bucket);
    shuffle_lines(&mut lines, &mut rng);
    lines
}

/// How many lines go in one training part: the configured number, and at least one.
pub fn part_lines(max_part_lines: u64) -> (r: u64)
    ensures
        r == (if max_part_lines < 1 { 1 } else { max_part_lines }),
{
    if max_part_lines < 1 {
        1
    } else {
        max_part_lines
    }
}

} // verus!
