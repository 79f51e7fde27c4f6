//! Corpus preparation for SentencePiece training.
//!
//! The trainer itself is the official `spm_train`; this module owns the part that would otherwise
//! force a second giant corpus file onto disk: counting how many lines each balancing bucket
//! holds, spreading each bucket's quota over the chunks exactly, and choosing, chunk by chunk,
//! which canonicalized lines are streamed to the trainer.
//!
//! Floating-point settings (the smoothing exponent and the math share) travel as their IEEE 754
//! bit patterns: what is decided here from them is whether they are usable.

use std::borrow::Cow;
use std::ops::Range;

use vstd::prelude::*;
use vstd::utf8::{decode_utf8, encode_utf8, valid_utf8};

use crate::corpus::canonical::Canonicalizer;
use crate::corpus::rewrite::split_lines;
use crate::corpus::scan::script_chars;
use crate::tally::{add_count, lemma_tallies_count, lemma_tally_wf, tallies, tally_count, tally_names, tally_wf};
use crate::text::{
    blank, byte_len, decimal, decimal_string, decode, is_blank, lemma_seq_lt_asymmetric, lemma_seq_lt_irreflexive,
    lemma_seq_lt_total, owned, push_str, seq_lt, str_lt, strictly_sorted, to_chars,
};
use crate::writing::{writing_of, writing_of_char};

verus! {

/// A balancing bucket.
///
/// Math is deliberately above script in the hierarchy: a line full of LaTeX commands should not
/// spend the Latin text budget just because commands are ASCII.
#[derive(Debug, Clone, Copy)]
pub enum Bucket {
    Math,
    Text(&'static str),
    Unclassified,
}

/// How a bucket is named in reports.
pub open spec fn bucket_label(b: Bucket) -> Seq<char> {
    match b {
        Bucket::Math => "math"@,
        Bucket::Text(script) => "text:"@ + script@,
        Bucket::Unclassified => "unclassified"@,
    }
}

impl Bucket {
    pub fn label(self) -> (r: String)
        ensures
            r@ == bucket_label(self),
    {
        match self {
            Bucket::Math => owned("math"),
            Bucket::Text(script) => {
                let mut r = owned("text:");
                push_str(&mut r, script);
                r
            },
            Bucket::Unclassified => owned("unclassified"),
        }
    }
}

/// How math-like lines affect balancing.
#[derive(Debug, Clone, Copy, PartialEq, Eq, Structural)]
pub enum MathPolicy {
    /// Report math presence, but balance by dominant writing system. The broad-OCR default.
    ReportOnly,
    /// Give math its own bucket, capped to this fraction of selected lines, held as the bit
    /// pattern of an `f64`.
    Balanced { max_share_bits: u64 },
}

/// Training corpus preparation knobs. `alpha_bits` is the bit pattern of the smoothing exponent,
/// an `f64`.
#[derive(Debug, Clone, Copy)]
pub struct PrepareOptions {
    pub target_lines: u64,
    pub alpha_bits: u64,
    pub seed: u64,
    pub max_line_bytes: usize,
    pub shuffle_buffer_lines: usize,
    pub memory_budget_bytes: u64,
    pub drop_invalid_utf8: bool,
    pub drop_long_lines: bool,
    pub math_policy: MathPolicy,
}

/// Why corpus preparation refused to go on.
#[derive(Debug, Clone, PartialEq, Eq, Structural)]
pub enum PrepareError {
    ZeroTargetLines,
    BadAlpha,
    ZeroMaxLineBytes,
    ZeroShuffleBuffer,
    BadMathShare,
    /// The shuffle buffer could hold this many bytes, more than the memory budget.
    ShuffleOverBudget { worst_case: u128 },
    /// This many lines are not valid UTF-8 and dropping them was not asked for.
    InvalidUtf8 { lines: u64 },
    /// This many lines are over the length limit and dropping them was not asked for.
    LongLines { lines: u64 },
    NoEligibleLines,
}

/// What the operator is told.
pub open spec fn prepare_error_text(e: PrepareError) -> Seq<char> {
    match e {
        PrepareError::ZeroTargetLines => "--lines must be greater than zero"@,
        PrepareError::BadAlpha => "--alpha must be a finite positive number"@,
        PrepareError::ZeroMaxLineBytes => "--max-sentence-length must be greater than zero"@,
        PrepareError::ZeroShuffleBuffer => "--shuffle-buffer-lines must be greater than zero"@,
        PrepareError::BadMathShare => "--math-max-share must be between 0.0 and 1.0"@,
        PrepareError::ShuffleOverBudget { worst_case } => "shuffle buffer could hold up to "@ + decimal(worst_case as nat)
            + " bytes, above --memory-budget-gb"@,
        PrepareError::InvalidUtf8 { lines } => decimal(lines as nat) + " lines are not valid UTF-8; pass --drop-invalid to skip them"@,
        PrepareError::LongLines { lines } => decimal(lines as nat)
            + " lines exceed --max-sentence-length; pass --drop-long-lines to skip them"@,
        PrepareError::NoEligibleLines => "no eligible training lines found"@,
    }
}

impl PrepareError {
    pub fn message(&self) -> (r: String)
        ensures
            r@ == prepare_error_text(*self),
    {
        match self {
            PrepareError::ZeroTargetLines => owned("--lines must be greater than zero"),
            PrepareError::BadAlpha => owned("--alpha must be a finite positive number"),
            PrepareError::ZeroMaxLineBytes => owned("--max-sentence-length must be greater than zero"),
            PrepareError::ZeroShuffleBuffer => owned("--shuffle-buffer-lines must be greater than zero"),
            PrepareError::BadMathShare => owned("--math-max-share must be between 0.0 and 1.0"),
            PrepareError::ShuffleOverBudget { worst_case } => {
                let mut r = owned("shuffle buffer could hold up to ");
                push_str(&mut r, wide_decimal_string(*worst_case).as_str());
                push_str(&mut r, " bytes, above --memory-budget-gb");
                r
            },
            PrepareError::InvalidUtf8 { lines } => {
                let mut r = decimal_string(*lines);
                push_str(&mut r, " lines are not valid UTF-8; pass --drop-invalid to skip them");
                r
            },
            PrepareError::LongLines { lines } => {
                let mut r = decimal_string(*lines);
                push_str(&mut r, " lines exceed --max-sentence-length; pass --drop-long-lines to skip them");
                r
            },
            PrepareError::NoEligibleLines => owned("no eligible training lines found"),
        }
    }
}

/// The decimal digits of a wide number.
fn wide_decimal_string(n: u128) -> (r: String)
    ensures
        r@ == decimal(n as nat),
    decreases n,
{
    if n < 10 {
        decimal_string(n as u64)
    } else {
        let mut r = wide_decimal_string(n / 10);
        push_str(&mut r, decimal_string((n % 10) as u64).as_str());
        r
    }
}

/// The bit pattern of a finite `f64` above zero: the positive subnormals and normals.
pub open spec fn finite_positive_bits(bits: u64) -> bool {
    0 < bits && bits < 0x7FF0_0000_0000_0000
}

/// The bit pattern of an `f64` between 0.0 and 1.0 inclusive: negative zero, or a non-negative
/// value whose bits do not exceed those of 1.0.
pub open spec fn unit_interval_bits(bits: u64) -> bool {
    bits <= 0x3FF0_0000_0000_0000 || bits == 0x8000_0000_0000_0000
}

/// The first problem with these options, checked in the order the operator is told about them.
pub open spec fn options_problem(o: PrepareOptions) -> Option<PrepareError> {
    let worst_case = o.shuffle_buffer_lines * o.max_line_bytes;
    if o.target_lines == 0 {
        Some(PrepareError::ZeroTargetLines)
    } else if !finite_positive_bits(o.alpha_bits) {
        Some(PrepareError::BadAlpha)
    } else if o.max_line_bytes == 0 {
        Some(PrepareError::ZeroMaxLineBytes)
    } else if o.shuffle_buffer_lines == 0 {
        Some(PrepareError::ZeroShuffleBuffer)
    } else if (o.math_policy matches MathPolicy::Balanced { max_share_bits } && !unit_interval_bits(max_share_bits)) {
        Some(PrepareError::BadMathShare)
    } else if worst_case > o.memory_budget_bytes {
        Some(PrepareError::ShuffleOverBudget { worst_case: worst_case as u128 })
    } else {
        None
    }
}

impl PrepareOptions {
    /// Whether these options can drive a run: `Ok` exactly when nothing is wrong with them.
    pub fn validate(&self) -> (r: Result<(), PrepareError>)
        ensures
            match options_problem(*self) {
                Some(e) => r == Err::<(), PrepareError>(e),
                None => r is Ok,
            },
    {
        if self.target_lines == 0 {
            return Err(PrepareError::ZeroTargetLines);
        }
        if !(0 < self.alpha_bits && self.alpha_bits < 0x7FF0_0000_0000_0000) {
            return Err(PrepareError::BadAlpha);
        }
        if self.max_line_bytes == 0 {
            return Err(PrepareError::ZeroMaxLineBytes);
        }
        if self.shuffle_buffer_lines == 0 {
            return Err(PrepareError::ZeroShuffleBuffer);
        }
        match self.math_policy {
            MathPolicy::ReportOnly => {},
            MathPolicy::Balanced { max_share_bits } => {
                if !(max_share_bits <= 0x3FF0_0000_0000_0000 || max_share_bits == 0x8000_0000_0000_0000) {
                    return Err(PrepareError::BadMathShare);
                }
            },
        }
        proof {
            assert((self.shuffle_buffer_lines as nat) * (self.max_line_bytes as nat) <= u64::MAX * u64::MAX) by (nonlinear_arith)
                requires
                    self.shuffle_buffer_lines <= u64::MAX,
                    self.max_line_bytes <= u64::MAX,
            ;
        }
        let worst_case = (self.shuffle_buffer_lines as u128) * (self.max_line_bytes as u128);
        if worst_case > self.memory_budget_bytes as u128 {
            return Err(PrepareError::ShuffleOverBudget { worst_case });
        }
        Ok(())
    }
}

/// A LaTeX command starts at `i`: a backslash followed by an ASCII letter.
pub open spec fn command_at(line: Seq<char>, i: int) -> bool {
    &&& 0 <= i < line.len() - 1
    &&& line[i] == '\\'
    &&& (('a' <= line[i + 1] && line[i + 1] <= 'z') || ('A' <= line[i + 1] && line[i + 1] <= 'Z'))
}

/// A character that only turns up in mathematics.
pub open spec fn math_char(c: char) -> bool {
    c == '^' || c == '_' || c == '\u{2211}' || c == '\u{222B}' || c == '\u{221A}' || c == '\u{2264}' || c == '\u{2265}'
        || c == '\u{2260}' || c == '\u{2248}'
}

/// A line that reads as mathematics: it holds a LaTeX command (`\begin{` and `\end{` among
/// them) or a character that only mathematics uses.
pub open spec fn is_math_text(line: Seq<char>) -> bool {
    (exists|i: int| #[trigger] command_at(line, i)) || (exists|i: int| 0 <= i < line.len() && #[trigger] math_char(line[i]))
}

fn is_math_char(c: char) -> (r: bool)
    ensures
        r == math_char(c),
{
    c == '^' || c == '_' || c == '\u{2211}' || c == '\u{222B}' || c == '\u{221A}' || c == '\u{2264}' || c == '\u{2265}'
        || c == '\u{2260}' || c == '\u{2248}'
}

/// Whether a line reads as mathematics.
pub fn is_math_line(line: &str) -> (r: bool)
    ensures
        r == is_math_text(line@),
{
    let chars = to_chars(line);
    let mut i: usize = 0;
    while i < chars.len()
        invariant
            0 <= i <= chars@.len(),
            chars@ == line@,
            forall|k: int| 0 <= k < i ==> !#[trigger] command_at(line@, k),
            forall|k: int| 0 <= k < i ==> !#[trigger] math_char(line@[k]),
        decreases chars.len() - i,
    {
        let c = chars[i];
        assert(c == line@[i as int]);
        if is_math_char(c) {
            return true;
        }
        if c == '\\' && i + 1 < chars.len() {
            let next = chars[i + 1];
            if ('a' <= next && next <= 'z') || ('A' <= next && next <= 'Z') {
                assert(command_at(line@, i as int));
                return true;
            }
        }
        proof {
            if i + 1 < chars@.len() {
                assert(chars@[i + 1] == line@[i + 1]);
            }
            assert(!command_at(line@, i as int));
        }
        i = i + 1;
    }
    proof {
        assert forall|k: int| !#[trigger] command_at(line@, k) by {
            if 0 <= k < line@.len() - 1 {
                assert(!command_at(line@, k));
            }
        }
    }
    false
}

/// `n` is the writing system most of the line's characters belong to; ties go to the name that
/// sorts first.
pub open spec fn dominant(line: Seq<char>, n: Seq<char>) -> bool {
    &&& script_chars(line, n) > 0
    &&& forall|m: Seq<char>| #![trigger script_chars(line, m)] m != n ==> script_chars(line, m) < script_chars(line, n) || (
    script_chars(line, m) == script_chars(line, n) && seq_lt(n, m))
}

/// The line belongs to bucket `b`.
pub open spec fn in_bucket(line: Seq<char>, policy: MathPolicy, b: Bucket) -> bool {
    let math = policy is Balanced && is_math_text(line);
    match b {
        Bucket::Math => math,
        Bucket::Text(n) => !math && dominant(line, n@),
        Bucket::Unclassified => !math && forall|m: Seq<char>| #[trigger] script_chars(line, m) == 0,
    }
}

/// The bucket a line is balanced in.
pub fn classify_bucket(line: &str, math_policy: MathPolicy) -> (r: Bucket)
    ensures
        in_bucket(line@, math_policy, r),
{
    let balanced = match math_policy {
        MathPolicy::Balanced { .. } => true,
        MathPolicy::ReportOnly => false,
    };
    if balanced && is_math_line(line) {
        return Bucket::Math;
    }
    let chars = to_chars(line);
    let mut counts: Vec<(&'static str, u64)> = Vec::new();
    let mut i: usize = 0;
    proof {
        assert(line@.take(0) =~= Seq::<char>::empty());
    }
    while i < chars.len()
        invariant
            0 <= i <= chars@.len(),
            chars@ == line@,
            tallies(counts@, |n: Seq<char>| script_chars(line@.take(i as int), n)),
        decreases chars.len() - i,
    {
        let c = chars[i];
        let ghost before = |n: Seq<char>| script_chars(line@.take(i as int), n);
        let ghost after = |n: Seq<char>| script_chars(line@.take(i + 1), n);
        proof {
            assert(line@.take(i + 1).drop_last() == line@.take(i as int));
            assert(line@.take(i + 1).last() == c);
        }
        match writing_of(c) {
            Some(w) => {
                let name = w.name();
                proof {
                    lemma_script_chars_within(line@.take(i as int), name@);
                    assert forall|n: Seq<char>| #[trigger] after(n) == before(n) + if n == name@ { 1nat } else { 0nat } by {}
                }
                add_count(&mut counts, name, 1, Ghost(before), Ghost(after));
            },
            None => {
                proof {
                    assert forall|n: Seq<char>| #[trigger] after(n) == before(n) by {}
                    assert(after =~= before);
                }
            },
        }
        i = i + 1;
    }
    proof {
        assert(line@.take(i as int) == line@);
        lemma_tallies_count(counts@, |n: Seq<char>| script_chars(line@.take(i as int), n));
    }
    if counts.len() == 0 {
        proof {
            assert forall|m: Seq<char>| #[trigger] script_chars(line@, m) == 0 by {
                if script_chars(line@, m) > 0 {
                    assert(tally_names(counts@).contains(m)) by {
                        lemma_tally_wf(counts@);
                    }
                }
            }
        }
        return Bucket::Unclassified;
    }
    let mut best: usize = 0;
    let mut k: usize = 1;
    while k < counts.len()
        invariant
            1 <= k <= counts@.len(),
            best < k,
            tally_wf(counts@),
            forall|m: int| 0 <= m < k ==> counts@[m].1 <= counts@[best as int].1,
            forall|m: int| 0 <= m < best ==> counts@[m].1 < counts@[best as int].1,
        decreases counts.len() - k,
    {
        if counts[k].1 > counts[best].1 {
            best = k;
        }
        k = k + 1;
    }
    let name = counts[best].0;
    proof {
        lemma_tally_wf(counts@);
        let t = counts@;
        assert(t[best as int].1 == script_chars(line@, name@));
        assert forall|m: Seq<char>| #![trigger script_chars(line@, m)] m != name@ implies script_chars(line@, m) < script_chars(line@, name@) || (
        script_chars(line@, m) == script_chars(line@, name@) && seq_lt(name@, m)) by {
            if script_chars(line@, m) > 0 {
                assert(tally_names(t).contains(m));
                let q = choose|q: int| 0 <= q < tally_names(t).len() && tally_names(t)[q] == m;
                assert(t[q].0@ == m);
                assert(t[q].1 == script_chars(line@, m));
                if q < best {
                    assert(t[q].1 < t[best as int].1);
                } else if q > best {
                    assert(seq_lt(tally_names(t)[best as int], tally_names(t)[q]));
                }
            }
        }
    }
    Bucket::Text(name)
}

proof fn lemma_script_chars_within(line: Seq<char>, n: Seq<char>)
    ensures
        script_chars(line, n) <= line.len(),
    decreases line.len(),
{
    if line.len() > 0 {
        lemma_script_chars_within(line.drop_last(), n);
    }
}


/// Lines counted per bucket: math, each writing system by name, and the unclassified.
#[derive(Debug, Clone, PartialEq, Eq)]
pub struct BucketCounts {
    pub math: u64,
    /// Per writing system, listed by name: a tally.
    pub text: Vec<(&'static str, u64)>,
    pub unclassified: u64,
}

/// What `c` holds for bucket `b`.
pub open spec fn bucket_count(c: BucketCounts, b: Bucket) -> nat {
    match b {
        Bucket::Math => c.math as nat,
        Bucket::Text(n) => tally_count(c.text@, n@),
        Bucket::Unclassified => c.unclassified as nat,
    }
}

/// Two buckets are the same bucket.
pub open spec fn same_bucket(a: Bucket, b: Bucket) -> bool {
    match (a, b) {
        (Bucket::Math, Bucket::Math) => true,
        (Bucket::Text(x), Bucket::Text(y)) => x@ == y@,
        (Bucket::Unclassified, Bucket::Unclassified) => true,
        _ => false,
    }
}

/// How many buckets hold at least one line.
pub open spec fn buckets_used(c: BucketCounts) -> nat {
    c.text@.len() + (if c.math > 0 { 1nat } else { 0nat }) + (if c.unclassified > 0 { 1nat } else { 0nat })
}

impl BucketCounts {
    /// No lines in any bucket.
    pub fn new() -> (r: Self)
        ensures
            tally_wf(r.text@),
            forall|b: Bucket| #[trigger] bucket_count(r, b) == 0,
            buckets_used(r) == 0,
    {
        BucketCounts { math: 0, text: Vec::new(), unclassified: 0 }
    }

    /// The lines in bucket `b`.
    pub fn get(&self, b: Bucket) -> (r: u64)
        requires
            tally_wf(self.text@),
        ensures
            r == bucket_count(*self, b),
    {
        match b {
            Bucket::Math => self.math,
            Bucket::Text(n) => crate::tally::count_in(&self.text, n),
            Bucket::Unclassified => self.unclassified,
        }
    }

    /// How many buckets hold at least one line.
    pub fn len(&self) -> (r: usize)
        requires
            self.text@.len() + 2 <= usize::MAX,
        ensures
            r == buckets_used(*self),
    {
        let mut n = self.text.len();
        if self.math > 0 {
            n = n + 1;
        }
        if self.unclassified > 0 {
            n = n + 1;
        }
        n
    }

    /// Count `by` more lines in bucket `b`.
    pub fn add(&mut self, b: Bucket, by: u64)
        requires
            tally_wf(old(self).text@),
            by > 0,
            bucket_count(*old(self), b) + by <= u64::MAX,
        ensures
            tally_wf(final(self).text@),
            forall|x: Bucket| #[trigger] bucket_count(*final(self), x) == bucket_count(*old(self), x) + if same_bucket(x, b) {
                by as nat
            } else {
                0nat
            },
    {
        match b {
            Bucket::Math => {
                self.math = self.math + by;
            },
            Bucket::Text(name) => {
                let ghost before = |n: Seq<char>| tally_count(self.text@, n);
                let ghost after = |n: Seq<char>| tally_count(self.text@, n) + if n == name@ { by as nat } else { 0nat };
                proof {
                    lemma_tally_wf(self.text@);
                }
                add_count(&mut self.text, name, by, Ghost(before), Ghost(after));
                proof {
                    lemma_tallies_count(self.text@, after);
                }
            },
            Bucket::Unclassified => {
                self.unclassified = self.unclassified + by;
            },
        }
    }
}

/// What becomes of one line of a chunk on its way to the trainer.
pub enum LineFate {
    /// Not valid UTF-8.
    Invalid,
    /// Nothing but whitespace: not a line at all.
    Blank,
    /// Over the length limit once canonicalized.
    Long,
    /// Eligible for training, in its canonical form.
    Eligible(Seq<char>),
}

/// The fate of the line `piece`.
pub open spec fn line_fate(piece: Seq<u8>, canon: Canonicalizer, max: usize) -> LineFate {
    if !valid_utf8(piece) {
        LineFate::Invalid
    } else if is_blank(decode_utf8(piece)) {
        LineFate::Blank
    } else if encode_utf8(canon.canonical(decode_utf8(piece))).len() > max {
        LineFate::Long
    } else {
        LineFate::Eligible(canon.canonical(decode_utf8(piece)))
    }
}

/// The fates of the lines of a chunk, in order.
pub open spec fn chunk_fates(bytes: Seq<u8>, canon: Canonicalizer, max: usize) -> Seq<LineFate> {
    split_lines(bytes).map_values(|p: Seq<u8>| line_fate(p, canon, max))
}

/// Lines of these fates that are `Invalid`.
pub open spec fn fates_invalid(fates: Seq<LineFate>) -> nat
    decreases fates.len(),
{
    if fates.len() == 0 {
        0
    } else {
        fates_invalid(fates.drop_last()) + if fates.last() is Invalid { 1nat } else { 0nat }
    }
}

/// Lines of these fates that are `Long`.
pub open spec fn fates_long(fates: Seq<LineFate>) -> nat
    decreases fates.len(),
{
    if fates.len() == 0 {
        0
    } else {
        fates_long(fates.drop_last()) + if fates.last() is Long { 1nat } else { 0nat }
    }
}

/// Eligible lines of these fates that read as mathematics.
pub open spec fn fates_math(fates: Seq<LineFate>) -> nat
    decreases fates.len(),
{
    if fates.len() == 0 {
        0
    } else {
        fates_math(fates.drop_last()) + match fates.last() {
            LineFate::Eligible(l) => if is_math_text(l) { 1nat } else { 0nat },
            _ => 0nat,
        }
    }
}

/// Eligible lines of these fates that belong to bucket `b`.
pub open spec fn fates_in(fates: Seq<LineFate>, policy: MathPolicy, b: Bucket) -> nat
    decreases fates.len(),
{
    if fates.len() == 0 {
        0
    } else {
        fates_in(fates.drop_last(), policy, b) + match fates.last() {
            LineFate::Eligible(l) => if in_bucket(l, policy, b) { 1nat } else { 0nat },
            _ => 0nat,
        }
    }
}

proof fn lemma_fates_bounded(fates: Seq<LineFate>, policy: MathPolicy, b: Bucket)
    ensures
        fates_invalid(fates) <= fates.len(),
        fates_long(fates) <= fates.len(),
        fates_math(fates) <= fates.len(),
        fates_in(fates, policy, b) <= fates.len(),
    decreases fates.len(),
{
    if fates.len() > 0 {
        lemma_fates_bounded(fates.drop_last(), policy, b);
    }
}

/// A line belongs to exactly one bucket.
pub proof fn law_one_bucket_per_line(line: Seq<char>, policy: MathPolicy, a: Bucket, b: Bucket)
    requires
        in_bucket(line, policy, a),
        in_bucket(line, policy, b),
    ensures
        same_bucket(a, b),
{
    match (a, b) {
        (Bucket::Text(x), Bucket::Text(y)) => {
            if x@ != y@ {
                lemma_seq_lt_asymmetric(x@, y@);
            }
        },
        (Bucket::Text(x), Bucket::Unclassified) => {
            assert(script_chars(line, x@) == 0);
        },
        (Bucket::Unclassified, Bucket::Text(y)) => {
            assert(script_chars(line, y@) == 0);
        },
        _ => {},
    }
}

/// What counting one chunk found.
#[derive(Debug)]
pub struct ChunkStats {
    pub source_index: usize,
    pub range: Range<usize>,
    pub counts: BucketCounts,
    pub invalid_utf8: u64,
    pub long_lines: u64,
    pub math_lines: u64,
}

/// `stats` holds what these line fates add up to.
pub open spec fn tallies_fates(stats: ChunkStats, fates: Seq<LineFate>, policy: MathPolicy) -> bool {
    &&& tally_wf(stats.counts.text@)
    &&& stats.invalid_utf8 == fates_invalid(fates)
    &&& stats.long_lines == fates_long(fates)
    &&& stats.math_lines == fates_math(fates)
    &&& forall|b: Bucket| #[trigger] bucket_count(stats.counts, b) == fates_in(fates, policy, b)
}

/// Count the eligible lines of one chunk per bucket, and the lines that are not eligible.
///
/// Lines are canonicalized before they are measured: what the trainer reads is the canonical
/// form, so that is what the length limit and the bucket are taken from.
pub fn count_chunk(
    source_index: usize,
    range: Range<usize>,
    bytes: &[u8],
    canonicalizer: &Canonicalizer,
    options: &PrepareOptions,
) -> (r: ChunkStats)
    requires
        bytes@.len() + 2 < u64::MAX,
        bytes@.len() < usize::MAX,
    ensures
        r.source_index == source_index,
        r.range == range,
        tallies_fates(r, chunk_fates(bytes@, *canonicalizer, options.max_line_bytes), options.math_policy),
{
    let ghost canon = *canonicalizer;
    let ghost max = options.max_line_bytes;
    let ghost policy = options.math_policy;
    let mut stats = ChunkStats {
        source_index,
        range,
        counts: BucketCounts::new(),
        invalid_utf8: 0,
        long_lines: 0,
        math_lines: 0,
    };
    let ghost mut done: Seq<Seq<u8>> = Seq::empty();
    let mut piece: Vec<u8> = Vec::new();
    let mut i: usize = 0;
    proof {
        assert(bytes@.take(0) =~= Seq::<u8>::empty());
        assert(split_lines(bytes@.take(0)) =~= done.push(piece@));
        assert forall|b: Bucket| #[trigger] bucket_count(stats.counts, b) == fates_in(Seq::empty(), policy, b) by {}
    }
    while i <= bytes.len()
        invariant
            0 <= i <= bytes@.len() + 1,
            bytes@.len() + 2 < u64::MAX,
            bytes@.len() < usize::MAX,
            canon == *canonicalizer,
            max == options.max_line_bytes,
            policy == options.math_policy,
            stats.source_index == source_index,
            stats.range == range,
            i <= bytes@.len() ==> split_lines(bytes@.take(i as int)) == done.push(piece@),
            i == bytes@.len() + 1 ==> split_lines(bytes@) == done,
            done.len() <= i,
            tallies_fates(stats, done.map_values(|p: Seq<u8>| line_fate(p, canon, max)), policy),
        decreases bytes@.len() + 1 - i,
    {
        if i == bytes.len() || bytes[i] == 10u8 {
            let ghost fates = done.map_values(|p: Seq<u8>| line_fate(p, canon, max));
            let ghost p = piece@;
            proof {
                lemma_fates_bounded(fates, policy, Bucket::Math);
            }
            take_line(piece.as_slice(), canonicalizer, options, &mut stats, Ghost(fates));
            proof {
                let d2 = done.push(p);
                assert(d2.map_values(|q: Seq<u8>| line_fate(q, canon, max)) =~= fates.push(line_fate(p, canon, max)));
                if i < bytes@.len() {
                    assert(bytes@.take(i + 1).drop_last() == bytes@.take(i as int));
                    assert(bytes@.take(i + 1).last() == 10u8);
                } else {
                    assert(bytes@.take(i as int) == bytes@);
                }
                done = d2;
            }
            piece = Vec::new();
            proof {
                if i < bytes@.len() {
                    assert(split_lines(bytes@.take(i + 1)) == done.push(piece@));
                }
            }
        } else {
            let ghost before = piece@;
            piece.push(bytes[i]);
            proof {
                assert(bytes@.take(i + 1).drop_last() == bytes@.take(i as int));
                assert(bytes@.take(i + 1).last() == bytes@[i as int]);
                let s0 = done.push(before);
                assert(s0.update(s0.len() - 1, s0.last().push(bytes@[i as int])) =~= done.push(piece@));
            }
        }
        i = i + 1;
    }
    stats
}

/// Count one line of a chunk.
fn take_line(
    piece: &[u8],
    canonicalizer: &Canonicalizer,
    options: &PrepareOptions,
    stats: &mut ChunkStats,
    Ghost(fates): Ghost<Seq<LineFate>>,
)
    requires
        tallies_fates(*old(stats), fates, options.math_policy),
        fates.len() + 1 < u64::MAX,
    ensures
        tallies_fates(*final(stats), fates.push(line_fate(piece@, *canonicalizer, options.max_line_bytes)), options.math_policy),
        final(stats).source_index == old(stats).source_index,
        final(stats).range == old(stats).range,
{
    let ghost fate = line_fate(piece@, *canonicalizer, options.max_line_bytes);
    let ghost after = fates.push(fate);
    let ghost policy = options.math_policy;
    proof {
        assert(after.drop_last() == fates);
        assert(after.last() == fate);
        lemma_fates_bounded(fates, policy, Bucket::Math);
    }
    match decode(piece) {
        None => {
            stats.invalid_utf8 = stats.invalid_utf8 + 1;
            proof {
                assert forall|b: Bucket| #[trigger] bucket_count(stats.counts, b) == fates_in(after, policy, b) by {
                    assert(bucket_count(stats.counts, b) == fates_in(fates, policy, b));
                }
            }
        },
        Some(text) => {
            proof {
                vstd::utf8::encode_utf8_decode_utf8(text@);
            }
            if blank(text) {
                proof {
                    assert forall|b: Bucket| #[trigger] bucket_count(stats.counts, b) == fates_in(after, policy, b) by {
                        assert(bucket_count(stats.counts, b) == fates_in(fates, policy, b));
                    }
                }
                return;
            }
            let canonical = canonicalizer.apply(text);
            let line: &str = match &canonical {
                Cow::Borrowed(b) => b,
                Cow::Owned(o) => o.as_str(),
            };
            if byte_len(line) > options.max_line_bytes {
                stats.long_lines = stats.long_lines + 1;
                proof {
                    assert forall|b: Bucket| #[trigger] bucket_count(stats.counts, b) == fates_in(after, policy, b) by {
                        assert(bucket_count(stats.counts, b) == fates_in(fates, policy, b));
                    }
                }
                return;
            }
            if is_math_line(line) {
                stats.math_lines = stats.math_lines + 1;
            }
            let bucket = classify_bucket(line, options.math_policy);
            proof {
                lemma_fates_bounded(fates, policy, bucket);
            }
            let ghost before = stats.counts;
            stats.counts.add(bucket, 1);
            proof {
                assert forall|b: Bucket| #[trigger] bucket_count(stats.counts, b) == fates_in(after, policy, b) by {
                    assert(bucket_count(before, b) == fates_in(fates, policy, b));
                    if in_bucket(line@, policy, b) {
                        law_one_bucket_per_line(line@, policy, b, bucket);
                    } else {
                        if same_bucket(b, bucket) {
                            assert(in_bucket(line@, policy, b)) by {
                                match (b, bucket) {
                                    (Bucket::Text(x), Bucket::Text(y)) => {
                                        assert(x@ == y@);
                                    },
                                    _ => {},
                                }
                            }
                        }
                    }
                }
            }
        },
    }
}


/// The keys of a count list are strictly increasing, as a map keyed by them lists them.
pub open spec fn keys_increasing(c: Seq<(usize, u64)>) -> bool {
    forall|i: int, j: int| 0 <= i < j < c.len() ==> #[trigger] c[i].0 < #[trigger] c[j].0
}

/// The sum of the counts.
pub open spec fn count_total(c: Seq<(usize, u64)>) -> nat
    decreases c.len(),
{
    if c.len() == 0 {
        0
    } else {
        count_total(c.drop_last()) + c.last().1 as nat
    }
}

/// Entry `k`'s exact share of `target`, rounded down and capped at its count.
pub open spec fn floor_of(c: Seq<(usize, u64)>, target: nat, total: nat, k: int) -> nat {
    let f = (target * (c[k].1 as nat)) / total;
    if f < c[k].1 { f } else { c[k].1 as nat }
}

/// What rounding entry `k`'s share down left over, in units of `1 / total`.
pub open spec fn rem_of(c: Seq<(usize, u64)>, target: nat, total: nat, k: int) -> nat {
    (target * (c[k].1 as nat)) % total
}

/// Entry `i` is offered a leftover line before entry `j`: a larger remainder first, then the
/// smaller key.
pub open spec fn rem_ahead(c: Seq<(usize, u64)>, target: nat, total: nat, i: int, j: int) -> bool {
    rem_of(c, target, total, i) > rem_of(c, target, total, j) || (rem_of(c, target, total, i) == rem_of(c, target, total, j)
        && c[i].0 < c[j].0)
}

/// `idx` lists every entry in the order leftover lines are offered.
pub open spec fn is_rem_ranking(c: Seq<(usize, u64)>, target: nat, total: nat, idx: Seq<int>) -> bool {
    &&& idx.len() == c.len()
    &&& forall|a: int, b: int| 0 <= a < b < idx.len() ==> #[trigger] rem_ahead(c, target, total, idx[a], idx[b])
    &&& forall|j: int| idx.contains(j) <==> 0 <= j < c.len()
}

/// The sum of the rounded-down shares.
pub open spec fn floors_total(c: Seq<(usize, u64)>, target: nat, total: nat, n: int) -> nat
    decreases n,
{
    if n <= 0 {
        0
    } else {
        floors_total(c, target, total, n - 1) + floor_of(c, target, total, n - 1)
    }
}

/// Offering the leftover lines one at a time down the first `t` places of `idx`: the entries that
/// took one, and how many are left. An entry already at its count declines.
pub open spec fn leftovers_upto(c: Seq<(usize, u64)>, target: nat, total: nat, idx: Seq<int>, left: nat, t: int) -> (Seq<int>, nat)
    decreases t,
{
    if t <= 0 {
        (Seq::empty(), left)
    } else {
        let (given, l) = leftovers_upto(c, target, total, idx, left, t - 1);
        let k = idx[t - 1];
        if l > 0 && floor_of(c, target, total, k) < c[k].1 {
            (given.push(k), (l - 1) as nat)
        } else {
            (given, l)
        }
    }
}

/// `r` spreads `target` over the entries of `c` in proportion to their counts: each entry gets
/// its share rounded down, capped at its count, and the lines rounding left over go one each to
/// the entries with the largest remainders, ties to the smaller key.
pub open spec fn allocation_is(r: Seq<(usize, u64)>, c: Seq<(usize, u64)>, target: nat) -> bool {
    if count_total(c) == 0 || target == 0 {
        r.len() == 0
    } else {
        exists|idx: Seq<int>| #[trigger] ranked_allocation(r, c, target, idx)
    }
}

/// `r` is the allocation made by offering the leftover lines down the ranking `idx`.
pub open spec fn ranked_allocation(r: Seq<(usize, u64)>, c: Seq<(usize, u64)>, target: nat, idx: Seq<int>) -> bool {
    let total = count_total(c);
    let floors = floors_total(c, target, total, c.len() as int);
    let left: nat = if target > floors { (target - floors) as nat } else { 0 };
    &&& is_rem_ranking(c, target, total, idx)
    &&& r.len() == c.len()
    &&& forall|k: int| 0 <= k < c.len() ==> #[trigger] r[k].0 == c[k].0 && r[k].1 == floor_of(c, target, total, k) + if leftovers_upto(
        c,
        target,
        total,
        idx,
        left,
        c.len() as int,
    ).0.contains(k) {
        1nat
    } else {
        0nat
    }
}

proof fn lemma_count_total_prefix(c: Seq<(usize, u64)>, k: int)
    requires
        0 <= k <= c.len(),
    ensures
        count_total(c.take(k)) <= count_total(c),
        k < c.len() ==> count_total(c.take(k)) + c[k].1 == count_total(c.take(k + 1)),
    decreases c.len() - k,
{
    if k < c.len() {
        lemma_count_total_prefix(c, k + 1);
        assert(c.take(k + 1).drop_last() == c.take(k));
        assert(c.take(k + 1).last() == c[k]);
    } else {
        assert(c.take(k) == c);
    }
}

proof fn lemma_rem_order(c: Seq<(usize, u64)>, target: nat, total: nat, i: int, j: int, k: int)
    requires
        keys_increasing(c),
        0 <= i < c.len(),
        0 <= j < c.len(),
    ensures
        !rem_ahead(c, target, total, i, i),
        rem_ahead(c, target, total, i, j) ==> !rem_ahead(c, target, total, j, i),
        i != j ==> rem_ahead(c, target, total, i, j) || rem_ahead(c, target, total, j, i),
        rem_ahead(c, target, total, i, j) && rem_ahead(c, target, total, j, k) ==> rem_ahead(c, target, total, i, k),
{
    if i < j {
        assert(c[i].0 < c[j].0);
    } else if j < i {
        assert(c[j].0 < c[i].0);
    }
}

/// Split `target` lines over the entries of `counts` exactly: see [`allocation_is`].
pub fn allocate_exact(counts: &Vec<(usize, u64)>, target: u64) -> (r: Vec<(usize, u64)>)
    requires
        keys_increasing(counts@),
        count_total(counts@) <= u64::MAX,
    ensures
        allocation_is(r@, counts@, target as nat),
{
    let ghost c = counts@;
    let mut total: u64 = 0;
    let mut i: usize = 0;
    proof {
        assert(c.take(0) =~= Seq::<(usize, u64)>::empty());
    }
    while i < counts.len()
        invariant
            0 <= i <= c.len(),
            c == counts@,
            count_total(c) <= u64::MAX,
            total == count_total(c.take(i as int)),
        decreases c.len() - i,
    {
        proof {
            lemma_count_total_prefix(c, i as int);
            lemma_count_total_prefix(c, i + 1);
        }
        total = total + counts[i].1;
        i = i + 1;
    }
    proof {
        assert(c.take(i as int) == c);
    }
    if total == 0 || target == 0 {
        return Vec::new();
    }
    let ghost tg = target as nat;
    let ghost tt = total as nat;
    let mut quota: Vec<(usize, u64)> = Vec::new();
    let mut rems: Vec<u128> = Vec::new();
    let mut assigned: u64 = 0;
    let mut i: usize = 0;
    while i < counts.len()
        invariant
            0 <= i <= c.len(),
            c == counts@,
            total as nat == count_total(c),
            total > 0,
            tg == target as nat,
            tt == total as nat,
            count_total(c) <= u64::MAX,
            quota@.len() == i,
            rems@.len() == i,
            forall|k: int| 0 <= k < i ==> (#[trigger] quota@[k]).0 == c[k].0 && quota@[k].1 == floor_of(c, tg, tt, k),
            forall|k: int| 0 <= k < i ==> #[trigger] rems@[k] == rem_of(c, tg, tt, k),
            assigned == floors_total(c, tg, tt, i as int),
            floors_total(c, tg, tt, i as int) <= count_total(c.take(i as int)),
        decreases c.len() - i,
    {
        let (key, count) = counts[i];
        proof {
            assert((target as nat) * (count as nat) <= u64::MAX * u64::MAX) by (nonlinear_arith)
                requires
                    target <= u64::MAX,
                    count <= u64::MAX,
            ;
            lemma_count_total_prefix(c, i as int);
            lemma_count_total_prefix(c, i + 1);
        }
        let numerator: u128 = (target as u128) * (count as u128);
        let whole: u128 = numerator / (total as u128);
        let floor: u64 = if whole < count as u128 { whole as u64 } else { count };
        quota.push((key, floor));
        rems.push(numerator % (total as u128));
        assigned = assigned + floor;
        i = i + 1;
    }
    let mut left: u64 = if target > assigned { target - assigned } else { 0 };
    let ghost left0 = left as nat;
    assert(forall|k: int| 0 <= k < c.len() ==> (#[trigger] quota@[k]).0 == c[k].0 && quota@[k].1 == floor_of(c, tg, tt, k));
    let mut order: Vec<usize> = Vec::new();
    let mut i: usize = 0;
    while i < counts.len()
        invariant
            0 <= i <= c.len(),
            c == counts@,
            keys_increasing(c),
            tg == target as nat,
            tt == total as nat,
            rems@.len() == c.len(),
            forall|k: int| 0 <= k < c.len() ==> #[trigger] rems@[k] == rem_of(c, tg, tt, k),
            forall|a: int, b: int| 0 <= a < b < order@.len() ==> #[trigger] rem_ahead(c, tg, tt, order@[a] as int, order@[b] as int),
            forall|m: int| 0 <= m < order@.len() ==> (#[trigger] order@[m] as int) < i,
            forall|j: usize| j < i ==> #[trigger] order@.contains(j),
            order@.len() == i,
            quota@.len() == c.len(),
            forall|k: int| 0 <= k < c.len() ==> (#[trigger] quota@[k]).0 == c[k].0 && quota@[k].1 == floor_of(c, tg, tt, k),
            left0 == left as nat,
            left0 == (if tg > floors_total(c, tg, tt, c.len() as int) { (tg - floors_total(c, tg, tt, c.len() as int)) as nat } else { 0nat }),
        decreases c.len() - i,
    {
        let mut p: usize = 0;
        while p < order.len() && !(rems[i] > rems[order[p]] || (rems[i] == rems[order[p]] && counts[i].0 < counts[order[p]].0))
            invariant
                0 <= p <= order@.len(),
                i < c.len(),
                c == counts@,
                keys_increasing(c),
                rems@.len() == c.len(),
                forall|k: int| 0 <= k < c.len() ==> #[trigger] rems@[k] == rem_of(c, tg, tt, k),
                forall|m: int| 0 <= m < order@.len() ==> (#[trigger] order@[m] as int) < i,
                forall|m: int| 0 <= m < p ==> rem_ahead(c, tg, tt, #[trigger] order@[m] as int, i as int),
            decreases order.len() - p,
        {
            proof {
                assert(rems@[i as int] == rem_of(c, tg, tt, i as int));
                assert(rems@[order@[p as int] as int] == rem_of(c, tg, tt, order@[p as int] as int));
                lemma_rem_order(c, tg, tt, i as int, order@[p as int] as int, 0);
            }
            p = p + 1;
        }
        proof {
            if p < order@.len() {
                assert(rems@[i as int] == rem_of(c, tg, tt, i as int));
                assert(rems@[order@[p as int] as int] == rem_of(c, tg, tt, order@[p as int] as int));
            }
        }
        let ghost old_order = order@;
        order.insert(p, i);
        proof {
            let no = order@;
            assert(no == old_order.insert(p as int, i));
            assert forall|a: int, b: int| 0 <= a < b < no.len() implies #[trigger] rem_ahead(c, tg, tt, no[a] as int, no[b] as int) by {
                if b < p {
                    assert(no[a] == old_order[a] && no[b] == old_order[b]);
                } else if a > p {
                    assert(no[a] == old_order[a - 1] && no[b] == old_order[b - 1]);
                } else if a < p && b == p {
                    assert(no[a] == old_order[a]);
                } else if a == p {
                    assert(no[b] == old_order[b - 1]);
                    if b - 1 > p {
                        assert(rem_ahead(c, tg, tt, old_order[p as int] as int, old_order[b - 1] as int));
                        lemma_rem_order(c, tg, tt, i as int, old_order[p as int] as int, old_order[b - 1] as int);
                    }
                } else {
                    assert(no[a] == old_order[a] && no[b] == old_order[b - 1]);
                    lemma_rem_order(c, tg, tt, old_order[a] as int, i as int, old_order[p as int] as int);
                    if b - 1 > p {
                        lemma_rem_order(c, tg, tt, old_order[a] as int, old_order[p as int] as int, old_order[b - 1] as int);
                    }
                }
            }
            assert forall|m: int| 0 <= m < no.len() implies (#[trigger] no[m] as int) < i + 1 by {
                if m < p {
                    assert(no[m] == old_order[m]);
                } else if m > p {
                    assert(no[m] == old_order[m - 1]);
                }
            }
            assert forall|j: usize| j < i + 1 implies #[trigger] no.contains(j) by {
                if j == i {
                    assert(no[p as int] == j);
                } else {
                    assert(old_order.contains(j));
                    let m = choose|m: int| 0 <= m < old_order.len() && old_order[m] == j;
                    if m < p {
                        assert(no[m] == old_order[m]);
                    } else {
                        assert(no[m + 1] == old_order[m]);
                    }
                }
            }
        }
        i = i + 1;
    }
    let ghost idx = order@.map_values(|u: usize| u as int);
    proof {
        assert forall|a: int, b: int| 0 <= a < b < idx.len() implies #[trigger] rem_ahead(c, tg, tt, idx[a], idx[b]) by {
            assert(rem_ahead(c, tg, tt, order@[a] as int, order@[b] as int));
        }
        assert forall|j: int| idx.contains(j) <==> 0 <= j < c.len() by {
            if idx.contains(j) {
                let m = choose|m: int| 0 <= m < idx.len() && idx[m] == j;
                assert(order@[m] as int == j);
            }
            if 0 <= j < c.len() {
                assert(order@.contains(j as usize));
                let m = choose|m: int| 0 <= m < order@.len() && order@[m] == j as usize;
                assert(idx[m] == j);
            }
        }
        assert(is_rem_ranking(c, tg, tt, idx));
    }
    proof {
        assert(leftovers_upto(c, tg, tt, idx, left0, 0).0 =~= Seq::<int>::empty());
        assert(forall|k: int| 0 <= k < c.len() ==> (#[trigger] quota@[k]).0 == c[k].0 && quota@[k].1 == floor_of(c, tg, tt, k));
        assert forall|k: int| 0 <= k < c.len() implies (#[trigger] quota@[k]).0 == c[k].0 && quota@[k].1 == floor_of(c, tg, tt, k) + if leftovers_upto(
            c,
            tg,
            tt,
            idx,
            left0,
            0,
        ).0.contains(k) {
            1nat
        } else {
            0nat
        } by {
            assert(quota@[k].1 == floor_of(c, tg, tt, k));
            assert(!leftovers_upto(c, tg, tt, idx, left0, 0).0.contains(k));
        }
        assert forall|k: int| 0 <= k < c.len() implies (#[trigger] order@[k] as int) < c.len() by {
            assert(idx.contains(idx[k]));
        }
    }
    let mut t: usize = 0;
    while t < order.len()
        invariant
            0 <= t <= order@.len(),
            order@.len() == c.len(),
            idx == order@.map_values(|u: usize| u as int),
            c == counts@,
            quota@.len() == c.len(),
            forall|k: int| 0 <= k < c.len() ==> (#[trigger] order@[k] as int) < c.len(),
            forall|k: int| 0 <= k < c.len() ==> (#[trigger] quota@[k]).0 == c[k].0 && quota@[k].1 == floor_of(c, tg, tt, k) + if leftovers_upto(
                c,
                tg,
                tt,
                idx,
                left0,
                t as int,
            ).0.contains(k) {
                1nat
            } else {
                0nat
            },
            left as nat == leftovers_upto(c, tg, tt, idx, left0, t as int).1,
            forall|a: int, b: int| 0 <= a < b < idx.len() ==> #[trigger] rem_ahead(c, tg, tt, idx[a], idx[b]),
            forall|m: int| 0 <= m < c.len() ==> leftovers_upto(c, tg, tt, idx, left0, t as int).0.contains(m) ==> exists|q: int| 0 <= q < t && #[trigger] idx[q] == m,
            keys_increasing(c),
            is_rem_ranking(c, tg, tt, idx),
            left0 == (if tg > floors_total(c, tg, tt, c.len() as int) { (tg - floors_total(c, tg, tt, c.len() as int)) as nat } else { 0nat }),
        decreases order.len() - t,
    {
        let k = order[t];
        let ghost before = leftovers_upto(c, tg, tt, idx, left0, t as int);
        proof {
            assert(idx[t as int] == k as int);
        }
        let (key, current) = quota[k];
        let cap = counts[k].1;
        proof {
            if left > 0 {
                assert(!before.0.contains(k as int)) by {
                    if before.0.contains(k as int) {
                        let q = choose|q: int| 0 <= q < t && #[trigger] idx[q] == k as int;
                        assert(rem_ahead(c, tg, tt, idx[q], idx[t as int]));
                        lemma_rem_order(c, tg, tt, k as int, k as int, k as int);
                    }
                }
                assert(current == floor_of(c, tg, tt, k as int));
            }
        }
        let ghost old_quota = quota@;
        if left > 0 && current < cap {
            proof {
                assert(!before.0.contains(k as int)) by {
                    if before.0.contains(k as int) {
                        let q = choose|q: int| 0 <= q < t && #[trigger] idx[q] == k as int;
                        assert(rem_ahead(c, tg, tt, idx[q], idx[t as int]));
                        lemma_rem_order(c, tg, tt, k as int, k as int, k as int);
                    }
                }
                assert(floor_of(c, tg, tt, k as int) < c[k as int].1);
            }
            quota.set(k, (key, current + 1));
            left = left - 1;
        } else {
            proof {
                if left > 0 {
                    assert(!before.0.contains(k as int)) by {
                        if before.0.contains(k as int) {
                            let q = choose|q: int| 0 <= q < t && #[trigger] idx[q] == k as int;
                            assert(rem_ahead(c, tg, tt, idx[q], idx[t as int]));
                            lemma_rem_order(c, tg, tt, k as int, k as int, k as int);
                        }
                    }
                }
            }
        }
        proof {
            let after = leftovers_upto(c, tg, tt, idx, left0, t + 1);
            assert(after == (if before.1 > 0 && floor_of(c, tg, tt, k as int) < c[k as int].1 {
                (before.0.push(k as int), (before.1 - 1) as nat)
            } else {
                before
            }));
            assert forall|m: int| 0 <= m < c.len() && m != k as int implies (after.0.contains(m) <==> before.0.contains(m)) by {
                if after.0.contains(m) && after.0 != before.0 {
                    let q = choose|q: int| 0 <= q < after.0.len() && after.0[q] == m;
                    assert(q < before.0.len());
                    assert(before.0[q] == m);
                }
                if before.0.contains(m) && after.0 != before.0 {
                    let q = choose|q: int| 0 <= q < before.0.len() && before.0[q] == m;
                    assert(after.0[q] == m);
                }
            }
            if after.0 != before.0 {
                assert(after.0[after.0.len() - 1] == k as int);
                assert(after.0.contains(k as int));
            }
            assert forall|m: int| 0 <= m < c.len() implies (#[trigger] quota@[m]).0 == c[m].0 && quota@[m].1 == floor_of(c, tg, tt, m) + if after.0.contains(m) {
                1nat
            } else {
                0nat
            } by {
                if m != k as int {
                    assert(quota@[m] == old_quota[m]);
                }
            }
            assert forall|m: int| 0 <= m < c.len() && after.0.contains(m) implies exists|q: int| 0 <= q < t + 1 && #[trigger] idx[q] == m by {
                if m == k as int {
                    assert(idx[t as int] == m);
                } else {
                    assert(before.0.contains(m));
                }
            }
        }
        t = t + 1;
    }
    proof {
        assert(order@.len() == c.len());
        assert(is_rem_ranking(c, tg, tt, idx));
        let fin = leftovers_upto(c, tg, tt, idx, left0, c.len() as int);
        assert(forall|k: int| 0 <= k < c.len() ==> (#[trigger] quota@[k]).0 == c[k].0 && quota@[k].1 == floor_of(c, tg, tt, k) + if fin.0.contains(k) {
            1nat
        } else {
            0nat
        });
        assert(ranked_allocation(quota@, c, tg, idx));
    }
    quota
}

/// How many of the entries `0..m` are in `given`.
pub open spec fn given_total(given: Seq<int>, m: int) -> nat
    decreases m,
{
    if m <= 0 {
        0
    } else {
        given_total(given, m - 1) + if given.contains(m - 1) { 1nat } else { 0nat }
    }
}

/// The remainders of the entries `0..m`, added up.
pub open spec fn rems_total(c: Seq<(usize, u64)>, target: nat, total: nat, m: int) -> nat
    decreases m,
{
    if m <= 0 {
        0
    } else {
        rems_total(c, target, total, m - 1) + rem_of(c, target, total, m - 1)
    }
}

/// How many of the entries `0..m` have a remainder.
pub open spec fn with_rem(c: Seq<(usize, u64)>, target: nat, total: nat, m: int) -> nat
    decreases m,
{
    if m <= 0 {
        0
    } else {
        with_rem(c, target, total, m - 1) + if rem_of(c, target, total, m - 1) > 0 { 1nat } else { 0nat }
    }
}

proof fn lemma_contains_push(g: Seq<int>, x: int, y: int)
    ensures
        g.push(x).contains(y) <==> (g.contains(y) || y == x),
{
    if g.contains(y) {
        let i = choose|i: int| 0 <= i < g.len() && g[i] == y;
        assert(g.push(x)[i] == y);
    }
    if y == x {
        assert(g.push(x)[g.len() as int] == y);
    }
    if g.push(x).contains(y) {
        let i = choose|i: int| 0 <= i < g.push(x).len() && g.push(x)[i] == y;
        if i < g.len() {
            assert(g[i] == y);
        }
    }
}

proof fn lemma_given_empty(m: int)
    ensures
        given_total(Seq::<int>::empty(), m) == 0,
    decreases m,
{
    if m > 0 {
        lemma_given_empty(m - 1);
    }
}

proof fn lemma_given_push(g: Seq<int>, x: int, m: int)
    requires
        !g.contains(x),
    ensures
        given_total(g.push(x), m) == given_total(g, m) + if 0 <= x < m { 1nat } else { 0nat },
    decreases m,
{
    if m > 0 {
        lemma_given_push(g, x, m - 1);
        lemma_contains_push(g, x, m - 1);
    }
}

/// A list without repeats, of entries below `m`, names as many of them as it is long.
proof fn lemma_given_distinct(g: Seq<int>, m: int)
    requires
        g.no_duplicates(),
        forall|i: int| 0 <= i < g.len() ==> 0 <= #[trigger] g[i] < m,
    ensures
        given_total(g, m) == g.len(),
    decreases g.len(),
{
    if g.len() == 0 {
        assert(g =~= Seq::<int>::empty());
        lemma_given_empty(m);
    } else {
        let h = g.drop_last();
        let x = g.last();
        assert(g =~= h.push(x));
        assert(!h.contains(x)) by {
            if h.contains(x) {
                let i = choose|i: int| 0 <= i < h.len() && h[i] == x;
                assert(g[i] == g[g.len() - 1]);
            }
        }
        assert(forall|i: int| 0 <= i < h.len() ==> #[trigger] h[i] == g[i]);
        lemma_given_distinct(h, m);
        lemma_given_push(h, x, m);
    }
}

/// A list that holds every entry with a remainder names at least as many entries.
proof fn lemma_given_covers(g: Seq<int>, c: Seq<(usize, u64)>, target: nat, total: nat, m: int)
    requires
        forall|k: int| 0 <= k < m && rem_of(c, target, total, k) > 0 ==> #[trigger] g.contains(k),
    ensures
        given_total(g, m) >= with_rem(c, target, total, m),
    decreases m,
{
    if m > 0 {
        lemma_given_covers(g, c, target, total, m - 1);
    }
}

/// Offering leftover lines down a ranking: every line is either handed out or still left, each
/// entry takes at most one, only entries below their count take one, and while lines are left
/// every entry that could take one has.
proof fn lemma_leftovers(c: Seq<(usize, u64)>, target: nat, total: nat, idx: Seq<int>, left: nat, t: int)
    requires
        keys_increasing(c),
        is_rem_ranking(c, target, total, idx),
        0 <= t <= idx.len(),
    ensures
        ({
            let (g, l) = leftovers_upto(c, target, total, idx, left, t);
            &&& g.len() + l == left
            &&& g.no_duplicates()
            &&& forall|i: int| 0 <= i < g.len() ==> 0 <= #[trigger] g[i] < c.len()
            &&& forall|i: int| 0 <= i < g.len() ==> floor_of(c, target, total, #[trigger] g[i]) < c[g[i]].1
            &&& forall|i: int| 0 <= i < g.len() ==> idx.take(t).contains(#[trigger] g[i])
            &&& l > 0 ==> forall|j: int| 0 <= j < t && floor_of(c, target, total, idx[j]) < c[idx[j]].1 ==> #[trigger] g.contains(idx[j])
        }),
    decreases t,
{
    if t > 0 {
        lemma_leftovers(c, target, total, idx, left, t - 1);
        let (g0, l0) = leftovers_upto(c, target, total, idx, left, t - 1);
        let k = idx[t - 1];
        assert(idx.contains(k));
        assert(0 <= k < c.len());
        assert forall|i: int| 0 <= i < g0.len() implies idx.take(t).contains(#[trigger] g0[i]) by {
            assert(idx.take(t - 1).contains(g0[i]));
            let j = choose|j: int| 0 <= j < idx.take(t - 1).len() && #[trigger] idx.take(t - 1)[j] == g0[i];
            assert(idx.take(t)[j] == g0[i]);
        }
        if l0 > 0 && floor_of(c, target, total, k) < c[k].1 {
            let g = g0.push(k);
            assert(!g0.contains(k)) by {
                if g0.contains(k) {
                    let i = choose|i: int| 0 <= i < g0.len() && #[trigger] g0[i] == k;
                    assert(idx.take(t - 1).contains(g0[i]));
                    let j = choose|j: int| 0 <= j < idx.take(t - 1).len() && #[trigger] idx.take(t - 1)[j] == g0[i];
                    assert(idx[j] == k);
                    assert(rem_ahead(c, target, total, idx[j], idx[t - 1]));
                    lemma_rem_order(c, target, total, k, k, k);
                }
            }
            assert forall|i: int, j: int| 0 <= i < g.len() && 0 <= j < g.len() && i != j implies g[i] != g[j] by {
                if i < g0.len() && j < g0.len() {
                    assert(g[i] == g0[i] && g[j] == g0[j]);
                } else if i < g0.len() {
                    assert(g[i] == g0[i]);
                    assert(g0.contains(g0[i]));
                } else {
                    assert(g[j] == g0[j]);
                    assert(g0.contains(g0[j]));
                }
            }
            assert forall|i: int| 0 <= i < g.len() implies idx.take(t).contains(#[trigger] g[i]) by {
                if i < g0.len() {
                    assert(g[i] == g0[i]);
                } else {
                    assert(idx.take(t)[t - 1] == k);
                }
            }
            assert forall|i: int| 0 <= i < g.len() implies 0 <= #[trigger] g[i] < c.len() && floor_of(c, target, total, g[i]) < c[g[i]].1 by {
                if i < g0.len() {
                    assert(g[i] == g0[i]);
                }
            }
            assert forall|j: int| (l0 - 1 > 0 && 0 <= j < t && floor_of(c, target, total, idx[j]) < c[idx[j]].1) implies #[trigger] g.contains(idx[j]) by {
                lemma_contains_push(g0, k, idx[j]);
            }
        } else {
            assert forall|j: int| (l0 > 0 && 0 <= j < t && floor_of(c, target, total, idx[j]) < c[idx[j]].1) implies #[trigger] g0.contains(idx[j]) by {
                if j == t - 1 {
                    assert(false);
                }
            }
        }
    } else {
        assert(leftovers_upto(c, target, total, idx, left, 0).0 =~= Seq::<int>::empty());
    }
}

/// With fewer target lines than counted lines, each share is the exact quotient, below the count
/// whenever the entry has lines.
proof fn lemma_share_uncapped(c: Seq<(usize, u64)>, target: nat, total: nat, k: int)
    requires
        0 <= k < c.len(),
        0 < target < total,
    ensures
        floor_of(c, target, total, k) == (target * (c[k].1 as nat)) / total,
        total * floor_of(c, target, total, k) + rem_of(c, target, total, k) == target * (c[k].1 as nat),
        rem_of(c, target, total, k) < total,
        c[k].1 > 0 ==> floor_of(c, target, total, k) < c[k].1,
        rem_of(c, target, total, k) > 0 ==> c[k].1 > 0,
{
    let n = c[k].1 as nat;
    let x = target * n;
    vstd::arithmetic::div_mod::lemma_fundamental_div_mod(x as int, total as int);
    let q = x / total;
    let r = x % total;
    assert(0 <= r < total);
    assert(q <= n) by (nonlinear_arith)
        requires
            x == target * n,
            x == total * q + r,
            0 <= r,
            target < total,
            q >= 0,
    ;
    assert(n > 0 ==> q < n) by (nonlinear_arith)
        requires
            x == target * n,
            x == total * q + r,
            0 <= r,
            target < total,
            q >= 0,
    ;
    assert(n == 0 ==> r == 0) by (nonlinear_arith)
        requires
            x == target * n,
            x == total * q + r,
            0 <= r < total,
            q >= 0,
    ;
}

/// With at least as many target lines as counted lines, each share is the whole count.
proof fn lemma_share_capped(c: Seq<(usize, u64)>, target: nat, total: nat, k: int)
    requires
        0 <= k < c.len(),
        0 < total <= target,
    ensures
        floor_of(c, target, total, k) == c[k].1,
{
    let n = c[k].1 as nat;
    let x = target * n;
    vstd::arithmetic::div_mod::lemma_fundamental_div_mod(x as int, total as int);
    let q = x / total;
    let r = x % total;
    assert(0 <= r < total);
    assert(q >= n) by (nonlinear_arith)
        requires
            x == target * n,
            x == total * q + r,
            0 <= r < total,
            total <= target,
            q >= 0,
    ;
}

proof fn lemma_floors_capped(c: Seq<(usize, u64)>, target: nat, total: nat, m: int)
    requires
        0 <= m <= c.len(),
        0 < total <= target,
    ensures
        floors_total(c, target, total, m) == count_total(c.take(m)),
    decreases m,
{
    if m > 0 {
        lemma_floors_capped(c, target, total, m - 1);
        lemma_share_capped(c, target, total, m - 1);
        assert(c.take(m).drop_last() =~= c.take(m - 1));
    } else {
        assert(c.take(0) =~= Seq::<(usize, u64)>::empty());
    }
}

proof fn lemma_shares_add_up(c: Seq<(usize, u64)>, target: nat, total: nat, m: int)
    requires
        0 <= m <= c.len(),
        0 < target < total,
    ensures
        total * floors_total(c, target, total, m) + rems_total(c, target, total, m) == target * count_total(c.take(m)),
        rems_total(c, target, total, m) <= (total - 1) * with_rem(c, target, total, m),
    decreases m,
{
    if m > 0 {
        lemma_shares_add_up(c, target, total, m - 1);
        lemma_share_uncapped(c, target, total, m - 1);
        assert(c.take(m).drop_last() =~= c.take(m - 1));
        assert(c.take(m).last() == c[m - 1]);
        let f0 = floors_total(c, target, total, m - 1);
        let f = floor_of(c, target, total, m - 1);
        let t0 = count_total(c.take(m - 1));
        let n = c[m - 1].1 as nat;
        assert(total * (f0 + f) == total * f0 + total * f) by (nonlinear_arith);
        assert(target * (t0 + n) == target * t0 + target * n) by (nonlinear_arith);
        let w0 = with_rem(c, target, total, m - 1);
        let rr = rem_of(c, target, total, m - 1);
        assert((total - 1) * (w0 + if rr > 0 { 1nat } else { 0nat }) == (total - 1) * w0 + (total - 1) * (if rr > 0 { 1nat } else { 0nat })) by (nonlinear_arith);
    } else {
        assert(c.take(0) =~= Seq::<(usize, u64)>::empty());
    }
}

/// The value of `r` adds up to the rounded-down shares and one line for each entry `given` names.
proof fn lemma_allocation_adds_up(r: Seq<(usize, u64)>, c: Seq<(usize, u64)>, target: nat, total: nat, g: Seq<int>, m: int)
    requires
        0 <= m <= c.len(),
        r.len() == c.len(),
        forall|k: int| 0 <= k < c.len() ==> #[trigger] r[k].1 == floor_of(c, target, total, k) + if g.contains(k) { 1nat } else { 0nat },
    ensures
        count_total(r.take(m)) == floors_total(c, target, total, m) + given_total(g, m),
    decreases m,
{
    if m > 0 {
        lemma_allocation_adds_up(r, c, target, total, g, m - 1);
        assert(r.take(m).drop_last() =~= r.take(m - 1));
        assert(r.take(m).last() == r[m - 1]);
    } else {
        assert(r.take(0) =~= Seq::<(usize, u64)>::empty());
    }
}

/// The ranking an allocation was made by.
proof fn lemma_allocation_ranking(r: Seq<(usize, u64)>, c: Seq<(usize, u64)>, target: nat) -> (idx: Seq<int>)
    requires
        allocation_is(r, c, target),
        count_total(c) != 0,
        target != 0,
    ensures
        ranked_allocation(r, c, target, idx),
{
    choose|idx: Seq<int>| ranked_allocation(r, c, target, idx)
}

/// Spreading a target over counts hands out exactly the target, or every counted line when the
/// counts hold fewer lines than the target: no line of a quota is lost to rounding, and none is
/// made up.
pub proof fn law_allocation_hands_out_the_target(r: Seq<(usize, u64)>, c: Seq<(usize, u64)>, target: nat)
    requires
        keys_increasing(c),
        allocation_is(r, c, target),
    ensures
        count_total(r) == if target < count_total(c) { target } else { count_total(c) },
{
    if count_total(c) == 0 || target == 0 {
        assert(r =~= Seq::<(usize, u64)>::empty());
    } else {
        let floors = floors_total(c, target, count_total(c), c.len() as int);
        let left: nat = if target > floors { (target - floors) as nat } else { 0 };
        let idx = lemma_allocation_ranking(r, c, target);
        let total = count_total(c);
        let n = c.len() as int;
        let (g, l) = leftovers_upto(c, target, total, idx, left, n);
        assert forall|k: int| 0 <= k < c.len() implies #[trigger] r[k].1 == floor_of(c, target, total, k) + if g.contains(k) { 1nat } else { 0nat } by {
            assert(r[k].0 == c[k].0);
        }
        lemma_allocation_adds_up(r, c, target, total, g, n);
        assert(r.take(n) =~= r);
        assert(c.take(n) =~= c);
        lemma_leftovers(c, target, total, idx, left, n);
        lemma_given_distinct(g, n);
        if total <= target {
            lemma_floors_capped(c, target, total, n);
            if g.len() > 0 {
                lemma_share_capped(c, target, total, g[0]);
            }
        } else {
            lemma_shares_add_up(c, target, total, n);
            let p = with_rem(c, target, total, n);
            let rems = rems_total(c, target, total, n);
            assert(floors <= target) by (nonlinear_arith)
                requires
                    total * floors + rems == target * total,
                    total > 0,
            ;
            if l > 0 {
                assert forall|k: int| 0 <= k < n && rem_of(c, target, total, k) > 0 implies #[trigger] g.contains(k) by {
                    lemma_share_uncapped(c, target, total, k);
                    assert(idx.contains(k));
                    let j = choose|j: int| 0 <= j < idx.len() && #[trigger] idx[j] == k;
                    assert(floor_of(c, target, total, idx[j]) < c[idx[j]].1);
                }
                lemma_given_covers(g, c, target, total, n);
                assert(false) by (nonlinear_arith)
                    requires
                        total * floors + rems == target * total,
                        rems <= (total - 1) * p,
                        g.len() >= p,
                        g.len() + l == target - floors,
                        l > 0,
                        floors <= target,
                        total > 0,
                ;
            }
        }
    }
}


/// One quantity that chunk statistics hold and that adds up across chunks.
pub enum PlanField {
    InvalidUtf8,
    LongLines,
    MathLines,
    /// Eligible lines in every bucket.
    Eligible,
    /// Eligible lines in this bucket.
    Lines(Bucket),
}

/// The value of `f` in `c`.
pub open spec fn plan_field(c: ChunkStats, f: PlanField) -> nat {
    match f {
        PlanField::InvalidUtf8 => c.invalid_utf8 as nat,
        PlanField::LongLines => c.long_lines as nat,
        PlanField::MathLines => c.math_lines as nat,
        PlanField::Eligible => counts_total(c.counts),
        PlanField::Lines(b) => bucket_count(c.counts, b),
    }
}

/// `f` summed over the chunks.
pub open spec fn plan_sum(chunks: Seq<ChunkStats>, f: PlanField) -> nat
    decreases chunks.len(),
{
    if chunks.len() == 0 {
        0
    } else {
        plan_sum(chunks.drop_last(), f) + plan_field(chunks.last(), f)
    }
}

/// Every sum over the chunks fits.
pub open spec fn plan_fits(chunks: Seq<ChunkStats>) -> bool {
    forall|f: PlanField| #[trigger] plan_sum(chunks, f) <= u64::MAX
}

/// All lines counted in some bucket.
pub open spec fn counts_total(c: BucketCounts) -> nat {
    c.math as nat + crate::tally::tally_total(c.text@) + c.unclassified as nat
}

/// Chunk `a` comes before chunk `b` in a plan: by source, then by where it starts.
pub open spec fn chunk_before(a: ChunkStats, b: ChunkStats) -> bool {
    a.source_index < b.source_index || (a.source_index == b.source_index && a.range.start <= b.range.start)
}

/// What counting every chunk found, with the chunks in source order.
#[derive(Debug)]
pub struct PlanTally {
    pub chunks: Vec<ChunkStats>,
    pub bucket_counts: BucketCounts,
    pub eligible_lines: u64,
    pub invalid_utf8: u64,
    pub long_lines: u64,
    pub math_lines: u64,
}

proof fn lemma_plan_sum_prefix(chunks: Seq<ChunkStats>, k: int, f: PlanField)
    requires
        0 <= k <= chunks.len(),
    ensures
        plan_sum(chunks.take(k), f) <= plan_sum(chunks, f),
        k < chunks.len() ==> plan_sum(chunks.take(k + 1), f) == plan_sum(chunks.take(k), f) + plan_field(chunks[k], f),
    decreases chunks.len() - k,
{
    if k < chunks.len() {
        lemma_plan_sum_prefix(chunks, k + 1, f);
        assert(chunks.take(k + 1).drop_last() == chunks.take(k));
        assert(chunks.take(k + 1).last() == chunks[k]);
    } else {
        assert(chunks.take(k) == chunks);
    }
}

proof fn lemma_plan_sum_permutation(a: Seq<ChunkStats>, b: Seq<ChunkStats>, f: PlanField)
    requires
        a.to_multiset() == b.to_multiset(),
    ensures
        plan_sum(a, f) == plan_sum(b, f),
    decreases a.len(),
{
    broadcast use vstd::seq_lib::group_to_multiset_ensures;
    if a.len() == 0 {
        assert(b.len() == 0) by {
            assert(b.to_multiset().len() == 0);
        }
    } else {
        let x = a.last();
        assert(a.to_multiset().count(x) > 0) by {
            assert(a =~= a.drop_last().push(x));
        }
        assert(b.contains(x));
        let j = choose|j: int| 0 <= j < b.len() && b[j] == x;
        let b2 = b.remove(j);
        assert(a.drop_last().to_multiset() == b2.to_multiset()) by {
            assert(a =~= a.drop_last().push(x));
            vstd::seq_lib::to_multiset_remove(b, j);
        }
        lemma_plan_sum_permutation(a.drop_last(), b2, f);
        lemma_plan_sum_remove(b, j, f);
    }
}

proof fn lemma_plan_sum_remove(b: Seq<ChunkStats>, j: int, f: PlanField)
    requires
        0 <= j < b.len(),
    ensures
        plan_sum(b, f) == plan_sum(b.remove(j), f) + plan_field(b[j], f),
    decreases b.len(),
{
    if j == b.len() - 1 {
        assert(b.remove(j) =~= b.drop_last());
    } else {
        lemma_plan_sum_remove(b.drop_last(), j, f);
        assert(b.remove(j).drop_last() =~= b.drop_last().remove(j));
        assert(b.remove(j).last() == b.last());
    }
}

/// Put the chunks in source order and add up what they counted.
///
/// Lines that are not valid UTF-8, or that are over the length limit, stop the run unless the
/// options say to drop them; a corpus with no eligible line stops it too.
pub fn tally_plan(stats: Vec<ChunkStats>, options: &PrepareOptions) -> (r: Result<PlanTally, PrepareError>)
    requires
        plan_fits(stats@),
        forall|k: int| 0 <= k < stats@.len() ==> tally_wf(#[trigger] stats@[k].counts.text@),
    ensures
        ({
            let invalid = plan_sum(stats@, PlanField::InvalidUtf8);
            let long = plan_sum(stats@, PlanField::LongLines);
            let eligible = plan_sum(stats@, PlanField::Eligible);
            match r {
                Err(e) => if invalid > 0 && !options.drop_invalid_utf8 {
                    e == PrepareError::InvalidUtf8 { lines: invalid as u64 }
                } else if long > 0 && !options.drop_long_lines {
                    e == PrepareError::LongLines { lines: long as u64 }
                } else {
                    eligible == 0 && e == PrepareError::NoEligibleLines
                },
                Ok(t) => {
                    &&& !(invalid > 0 && !options.drop_invalid_utf8)
                    &&& !(long > 0 && !options.drop_long_lines)
                    &&& eligible > 0
                    &&& t.chunks@.to_multiset() == stats@.to_multiset()
                    &&& forall|i: int, j: int| 0 <= i < j < t.chunks@.len() ==> chunk_before(#[trigger] t.chunks@[i], #[trigger] t.chunks@[j])
                    &&& t.invalid_utf8 == invalid
                    &&& t.long_lines == long
                    &&& t.math_lines == plan_sum(stats@, PlanField::MathLines)
                    &&& t.eligible_lines == eligible
                    &&& tally_wf(t.bucket_counts.text@)
                    &&& forall|b: Bucket| #[trigger] bucket_count(t.bucket_counts, b) == plan_sum(stats@, PlanField::Lines(b))
                }
            }
        }),
{
    let ghost input = stats@;
    let mut rest = stats;
    let mut sorted: Vec<ChunkStats> = Vec::new();
    proof {
        broadcast use vstd::seq_lib::group_to_multiset_ensures;
        assert(sorted@.to_multiset() =~= vstd::multiset::Multiset::empty());
        assert(sorted@.to_multiset().add(rest@.to_multiset()) =~= input.to_multiset());
    }
    while rest.len() > 0
        invariant
            sorted@.to_multiset().add(rest@.to_multiset()) == input.to_multiset(),
            forall|i: int, j: int| 0 <= i < j < sorted@.len() ==> chunk_before(#[trigger] sorted@[i], #[trigger] sorted@[j]),
            forall|i: int, j: int| 0 <= i < sorted@.len() && 0 <= j < rest@.len() ==> chunk_before(#[trigger] sorted@[i], #[trigger] rest@[j]),
        decreases rest@.len(),
    {
        let mut best: usize = 0;
        let mut k: usize = 1;
        while k < rest.len()
            invariant
                1 <= k <= rest@.len(),
                best < rest@.len(),
                forall|m: int| 0 <= m < k ==> chunk_before(rest@[best as int], #[trigger] rest@[m]),
            decreases rest@.len() - k,
        {
            let (a, b) = (&rest[k], &rest[best]);
            if a.source_index < b.source_index || (a.source_index == b.source_index && a.range.start < b.range.start) {
                best = k;
            }
            k = k + 1;
        }
        let ghost before_rest = rest@;
        let chosen = rest.remove(best);
        proof {
            broadcast use vstd::seq_lib::group_to_multiset_ensures;
            vstd::seq_lib::to_multiset_remove(before_rest, best as int);
            assert(rest@ == before_rest.remove(best as int));
            assert forall|j: int| 0 <= j < rest@.len() implies chunk_before(chosen, #[trigger] rest@[j]) by {
                if j < best {
                    assert(rest@[j] == before_rest[j]);
                } else {
                    assert(rest@[j] == before_rest[j + 1]);
                }
            }
        }
        let ghost before_sorted = sorted@;
        sorted.push(chosen);
        proof {
            broadcast use vstd::seq_lib::group_to_multiset_ensures;
            assert(sorted@ == before_sorted.push(chosen));
            assert forall|i: int, j: int| 0 <= i < sorted@.len() && 0 <= j < rest@.len() implies chunk_before(#[trigger] sorted@[i], #[trigger] rest@[j]) by {
                if i < before_sorted.len() {
                    assert(sorted@[i] == before_sorted[i]);
                    if j < best {
                        assert(rest@[j] == before_rest[j]);
                    } else {
                        assert(rest@[j] == before_rest[j + 1]);
                    }
                }
            }
            assert(sorted@.to_multiset().add(rest@.to_multiset()) =~= input.to_multiset());
        }
    }
    proof {
        broadcast use vstd::seq_lib::group_to_multiset_ensures;
        assert(rest@.to_multiset() =~= vstd::multiset::Multiset::empty());
        assert(sorted@.to_multiset() =~= input.to_multiset());
    }
    let ghost s = sorted@;
    let mut counts = BucketCounts::new();
    let mut invalid: u64 = 0;
    let mut long: u64 = 0;
    let mut math: u64 = 0;
    let mut eligible: u64 = 0;
    let mut i: usize = 0;
    proof {
        assert(s.take(0) =~= Seq::<ChunkStats>::empty());
        assert forall|f: PlanField| #[trigger] plan_sum(s, f) <= u64::MAX by {
            lemma_plan_sum_permutation(s, input, f);
        }
        assert forall|k: int| 0 <= k < s.len() implies tally_wf(#[trigger] s[k].counts.text@) by {
            broadcast use vstd::seq_lib::group_to_multiset_ensures;
            assert(s.to_multiset().count(s[k]) > 0);
            assert(input.contains(s[k]));
        }
    }
    while i < sorted.len()
        invariant
            0 <= i <= s.len(),
            s == sorted@,
            forall|f: PlanField| #[trigger] plan_sum(s, f) <= u64::MAX,
            forall|k: int| 0 <= k < s.len() ==> tally_wf(#[trigger] s[k].counts.text@),
            tally_wf(counts.text@),
            invalid == plan_sum(s.take(i as int), PlanField::InvalidUtf8),
            long == plan_sum(s.take(i as int), PlanField::LongLines),
            math == plan_sum(s.take(i as int), PlanField::MathLines),
            eligible == plan_sum(s.take(i as int), PlanField::Eligible),
            forall|b: Bucket| #[trigger] bucket_count(counts, b) == plan_sum(s.take(i as int), PlanField::Lines(b)),
        decreases s.len() - i,
    {
        let c = &sorted[i];
        proof {
            lemma_plan_sum_prefix(s, i as int, PlanField::InvalidUtf8);
            lemma_plan_sum_prefix(s, i + 1, PlanField::InvalidUtf8);
            lemma_plan_sum_prefix(s, i as int, PlanField::LongLines);
            lemma_plan_sum_prefix(s, i + 1, PlanField::LongLines);
            lemma_plan_sum_prefix(s, i as int, PlanField::MathLines);
            lemma_plan_sum_prefix(s, i + 1, PlanField::MathLines);
            assert(plan_sum(s, PlanField::InvalidUtf8) <= u64::MAX);
            assert(plan_sum(s, PlanField::LongLines) <= u64::MAX);
            assert(plan_sum(s, PlanField::MathLines) <= u64::MAX);
            lemma_plan_sum_prefix(s, i as int, PlanField::Eligible);
            lemma_plan_sum_prefix(s, i + 1, PlanField::Eligible);
            assert(plan_sum(s, PlanField::Eligible) <= u64::MAX);
        }
        invalid = invalid + c.invalid_utf8;
        long = long + c.long_lines;
        math = math + c.math_lines;
        proof {
            assert(tally_wf(s[i as int].counts.text@));
        }
        let text_lines = crate::tally::total_of(&c.counts.text);
        eligible = eligible + c.counts.math + text_lines + c.counts.unclassified;
        let ghost before = counts;
        proof {
            assert(tally_wf(s[i as int].counts.text@));
            assert forall|b: Bucket| #[trigger] bucket_count(before, b) + bucket_count(c.counts, b) <= u64::MAX by {
                lemma_plan_sum_prefix(s, i as int, PlanField::Lines(b));
                lemma_plan_sum_prefix(s, i + 1, PlanField::Lines(b));
                assert(plan_sum(s, PlanField::Lines(b)) <= u64::MAX);
            }
        }
        add_counts(&mut counts, &c.counts);
        proof {
            assert forall|b: Bucket| #[trigger] bucket_count(counts, b) == plan_sum(s.take(i + 1), PlanField::Lines(b)) by {
                lemma_plan_sum_prefix(s, i as int, PlanField::Lines(b));
            }
        }
        i = i + 1;
    }
    proof {
        assert(s.take(i as int) == s);
        lemma_plan_sum_permutation(s, input, PlanField::InvalidUtf8);
        lemma_plan_sum_permutation(s, input, PlanField::LongLines);
        lemma_plan_sum_permutation(s, input, PlanField::MathLines);
        lemma_plan_sum_permutation(s, input, PlanField::Eligible);
        assert forall|b: Bucket| #[trigger] bucket_count(counts, b) == plan_sum(input, PlanField::Lines(b)) by {
            lemma_plan_sum_permutation(s, input, PlanField::Lines(b));
        }
    }
    if invalid > 0 && !options.drop_invalid_utf8 {
        return Err(PrepareError::InvalidUtf8 { lines: invalid });
    }
    if long > 0 && !options.drop_long_lines {
        return Err(PrepareError::LongLines { lines: long });
    }
    if eligible == 0 {
        return Err(PrepareError::NoEligibleLines);
    }
    Ok(PlanTally { chunks: sorted, bucket_counts: counts, eligible_lines: eligible, invalid_utf8: invalid, long_lines: long, math_lines: math })
}


/// Add every count of `other` into `table`.
fn add_counts(table: &mut BucketCounts, other: &BucketCounts)
    requires
        tally_wf(old(table).text@),
        tally_wf(other.text@),
        forall|b: Bucket| #[trigger] bucket_count(*old(table), b) + bucket_count(*other, b) <= u64::MAX,
    ensures
        tally_wf(final(table).text@),
        forall|b: Bucket| #[trigger] bucket_count(*final(table), b) == bucket_count(*old(table), b) + bucket_count(*other, b),
{
    proof {
        assert(bucket_count(*table, Bucket::Math) + bucket_count(*other, Bucket::Math) <= u64::MAX);
        assert(bucket_count(*table, Bucket::Unclassified) + bucket_count(*other, Bucket::Unclassified) <= u64::MAX);
        assert forall|n: Seq<char>| tally_count(table.text@, n) + tally_count(other.text@, n) <= u64::MAX by {
            if exists|q: int| 0 <= q < other.text@.len() && #[trigger] other.text@[q].0@ == n {
                let q = crate::tally::tally_index(other.text@, n);
                let b = Bucket::Text(other.text@[q].0);
                assert(bucket_count(*table, b) + bucket_count(*other, b) <= u64::MAX);
            } else if exists|q: int| 0 <= q < table.text@.len() && #[trigger] table.text@[q].0@ == n {
                let q = crate::tally::tally_index(table.text@, n);
                assert(table.text@[q].1 <= u64::MAX);
            }
        }
    }
    table.math = table.math + other.math;
    table.unclassified = table.unclassified + other.unclassified;
    crate::tally::merge_into(&mut table.text, &other.text);
}


/// The chunks holding lines of bucket `b`, among the first `n`, each with how many: what that
/// bucket's quota is split over.
pub open spec fn column(chunks: Seq<ChunkStats>, b: Bucket, n: int) -> Seq<(usize, u64)>
    decreases n,
{
    if n <= 0 {
        Seq::empty()
    } else {
        let c = column(chunks, b, n - 1);
        let k = bucket_count(chunks[n - 1].counts, b);
        if k > 0 {
            c.push(((n - 1) as usize, k as u64))
        } else {
            c
        }
    }
}

/// What an allocation gives the entry keyed `key`: nothing when it lists no such entry.
pub open spec fn lookup(alloc: Seq<(usize, u64)>, key: int) -> nat {
    if exists|q: int| 0 <= q < alloc.len() && #[trigger] alloc[q].0 == key {
        alloc[choose|q: int| 0 <= q < alloc.len() && #[trigger] alloc[q].0 == key].1 as nat
    } else {
        0
    }
}

/// `q` is what chunk `ci` is to contribute to bucket `b`: its part of the bucket's quota,
/// spread over the chunks holding that bucket's lines by [`allocation_is`].
pub open spec fn quota_in_plan(q: nat, chunks: Seq<ChunkStats>, quotas: BucketCounts, ci: int, b: Bucket) -> bool {
    exists|alloc: Seq<(usize, u64)>|
        #[trigger] allocation_is(alloc, column(chunks, b, chunks.len() as int), bucket_count(quotas, b)) && q == lookup(alloc, ci)
}

/// The buckets with a quota, in bucket order.
pub open spec fn quota_buckets(q: BucketCounts) -> Seq<Bucket> {
    (if q.math > 0 { seq![Bucket::Math] } else { Seq::empty() }) + q.text@.map_values(|e: (&'static str, u64)| Bucket::Text(e.0)) + (
    if q.unclassified > 0 { seq![Bucket::Unclassified] } else { Seq::empty() })
}

proof fn lemma_column_keys(chunks: Seq<ChunkStats>, b: Bucket, n: int)
    requires
        0 <= n <= chunks.len(),
        chunks.len() <= usize::MAX,
    ensures
        keys_increasing(column(chunks, b, n)),
        forall|q: int| 0 <= q < column(chunks, b, n).len() ==> (#[trigger] column(chunks, b, n)[q]).0 < n,
        count_total(column(chunks, b, n)) == plan_sum(chunks.take(n), PlanField::Lines(b)),
    decreases n,
{
    if n > 0 {
        lemma_column_keys(chunks, b, n - 1);
        assert(chunks.take(n).drop_last() == chunks.take(n - 1));
        assert(chunks.take(n).last() == chunks[n - 1]);
        let c = column(chunks, b, n - 1);
        if bucket_count(chunks[n - 1].counts, b) > 0 {
            let c2 = c.push(((n - 1) as usize, bucket_count(chunks[n - 1].counts, b) as u64));
            assert(c2.drop_last() == c);
            assert(bucket_count(chunks[n - 1].counts, b) <= u64::MAX) by {
                match b {
                    Bucket::Text(x) => {
                        if exists|q: int| 0 <= q < chunks[n - 1].counts.text@.len() && #[trigger] chunks[n - 1].counts.text@[q].0@ == x@ {
                            let q = crate::tally::tally_index(chunks[n - 1].counts.text@, x@);
                            assert(chunks[n - 1].counts.text@[q].1 <= u64::MAX);
                        }
                    },
                    _ => {},
                }
            }
        }
    } else {
        assert(chunks.take(0) =~= Seq::<ChunkStats>::empty());
    }
}

/// The counts of bucket `b` in the chunks, keyed by chunk position, for the chunks that hold any.
fn build_column(chunks: &Vec<ChunkStats>, b: Bucket) -> (r: Vec<(usize, u64)>)
    requires
        forall|k: int| 0 <= k < chunks@.len() ==> tally_wf(#[trigger] chunks@[k].counts.text@),
    ensures
        r@ == column(chunks@, b, chunks@.len() as int),
{
    let mut col: Vec<(usize, u64)> = Vec::new();
    let mut i: usize = 0;
    while i < chunks.len()
        invariant
            0 <= i <= chunks@.len(),
            forall|k: int| 0 <= k < chunks@.len() ==> tally_wf(#[trigger] chunks@[k].counts.text@),
            col@ == column(chunks@, b, i as int),
        decreases chunks@.len() - i,
    {
        proof {
            assert(tally_wf(chunks@[i as int].counts.text@));
        }
        let k = chunks[i].counts.get(b);
        if k > 0 {
            col.push((i, k));
        }
        i = i + 1;
    }
    col
}

/// What an allocation gives the entry keyed `key`.
fn lookup_in(alloc: &Vec<(usize, u64)>, key: usize) -> (r: u64)
    requires
        keys_increasing(alloc@),
    ensures
        r == lookup(alloc@, key as int),
{
    let mut q: usize = 0;
    while q < alloc.len()
        invariant
            0 <= q <= alloc@.len(),
            keys_increasing(alloc@),
            forall|m: int| 0 <= m < q ==> #[trigger] alloc@[m].0 != key,
        decreases alloc@.len() - q,
    {
        if alloc[q].0 == key {
            proof {
                let c = choose|m: int| 0 <= m < alloc@.len() && #[trigger] alloc@[m].0 == key as int;
                assert(c >= q);
                if c > q {
                    assert(alloc@[q as int].0 < alloc@[c].0);
                }
            }
            return alloc[q].1;
        }
        q = q + 1;
    }
    0
}


proof fn lemma_same_bucket_counts(c: BucketCounts, a: Bucket, b: Bucket)
    requires
        same_bucket(a, b),
    ensures
        bucket_count(c, a) == bucket_count(c, b),
{
}

proof fn lemma_same_bucket_column(chunks: Seq<ChunkStats>, a: Bucket, b: Bucket, n: int)
    requires
        same_bucket(a, b),
    ensures
        column(chunks, a, n) == column(chunks, b, n),
    decreases n,
{
    if n > 0 {
        lemma_same_bucket_column(chunks, a, b, n - 1);
        lemma_same_bucket_counts(chunks[n - 1].counts, a, b);
    }
}

proof fn lemma_allocation_keys(r: Seq<(usize, u64)>, c: Seq<(usize, u64)>, target: nat)
    requires
        allocation_is(r, c, target),
        keys_increasing(c),
    ensures
        keys_increasing(r),
{
    if count_total(c) != 0 && target != 0 {
        let idx = choose|idx: Seq<int>| ranked_allocation(r, c, target, idx);
        assert forall|i: int, j: int| 0 <= i < j < r.len() implies #[trigger] r[i].0 < #[trigger] r[j].0 by {
            assert(r[i].0 == c[i].0);
            assert(r[j].0 == c[j].0);
        }
    }
}

/// Buckets with a quota, in order; no two are the same bucket, and every bucket with a quota is
/// among them.
proof fn lemma_quota_buckets(q: BucketCounts)
    requires
        tally_wf(q.text@),
    ensures
        forall|i: int, j: int| 0 <= i < j < quota_buckets(q).len() ==> !same_bucket(#[trigger] quota_buckets(q)[i], #[trigger] quota_buckets(q)[j]),
        forall|b: Bucket| #[trigger] bucket_count(q, b) > 0 ==> exists|j: int| 0 <= j < quota_buckets(q).len() && same_bucket(#[trigger] quota_buckets(q)[j], b),
{
    let qb = quota_buckets(q);
    let m: int = if q.math > 0 { 1 } else { 0 };
    let t = q.text@;
    assert(forall|k: int| 0 <= k < t.len() ==> #[trigger] qb[m + k] == Bucket::Text(t[k].0));
    assert(qb.len() == m + t.len() + if q.unclassified > 0 { 1int } else { 0int });
    assert(q.math > 0 ==> qb[0] == Bucket::Math);
    assert(q.unclassified > 0 ==> qb[qb.len() - 1] == Bucket::Unclassified);
    assert forall|i: int, j: int| 0 <= i < j < qb.len() implies !same_bucket(#[trigger] qb[i], #[trigger] qb[j]) by {
        if m <= i && j < m + t.len() {
            assert(seq_lt(tally_names(t)[i - m], tally_names(t)[j - m]));
            lemma_seq_lt_irreflexive(t[i - m].0@);
        }
    }
    assert forall|b: Bucket| #[trigger] bucket_count(q, b) > 0 implies exists|j: int| 0 <= j < qb.len() && same_bucket(#[trigger] qb[j], b) by {
        match b {
            Bucket::Math => {
                assert(same_bucket(qb[0], b));
            },
            Bucket::Unclassified => {
                assert(same_bucket(qb[qb.len() - 1], b));
            },
            Bucket::Text(x) => {
                let k = crate::tally::tally_index(t, x@);
                assert(same_bucket(qb[m + k], b));
            },
        }
    }
}

/// Each chunk's share of each bucket's quota: see [`quota_in_plan`].
pub fn chunk_quotas(chunks: &Vec<ChunkStats>, quotas: &BucketCounts) -> (r: Vec<BucketCounts>)
    requires
        forall|k: int| 0 <= k < chunks@.len() ==> tally_wf(#[trigger] chunks@[k].counts.text@),
        tally_wf(quotas.text@),
        plan_fits(chunks@),
    ensures
        r@.len() == chunks@.len(),
        forall|ci: int| 0 <= ci < r@.len() ==> tally_wf(#[trigger] r@[ci].text@),
        forall|ci: int, b: Bucket| 0 <= ci < r@.len() ==> #[trigger] quota_in_plan(bucket_count(r@[ci], b), chunks@, *quotas, ci, b),
{
    let ghost n = chunks@.len() as int;
    let _count = chunks.len();
    assert(n <= usize::MAX);
    let ghost qb = quota_buckets(*quotas);
    let mut buckets: Vec<Bucket> = Vec::new();
    if quotas.math > 0 {
        buckets.push(Bucket::Math);
    }
    let mut k: usize = 0;
    let ghost start = buckets@;
    while k < quotas.text.len()
        invariant
            0 <= k <= quotas.text@.len(),
            buckets@ == start + quotas.text@.take(k as int).map_values(|e: (&'static str, u64)| Bucket::Text(e.0)),
        decreases quotas.text@.len() - k,
    {
        buckets.push(Bucket::Text(quotas.text[k].0));
        proof {
            assert(quotas.text@.take(k + 1).map_values(|e: (&'static str, u64)| Bucket::Text(e.0)) =~= quotas.text@.take(
                k as int,
            ).map_values(|e: (&'static str, u64)| Bucket::Text(e.0)).push(Bucket::Text(quotas.text@[k as int].0)));
        }
        k = k + 1;
    }
    if quotas.unclassified > 0 {
        buckets.push(Bucket::Unclassified);
    }
    proof {
        assert(quotas.text@.take(quotas.text@.len() as int) == quotas.text@);
        assert(buckets@ =~= qb);
        lemma_quota_buckets(*quotas);
    }
    let mut allocs: Vec<Vec<(usize, u64)>> = Vec::new();
    let mut j: usize = 0;
    while j < buckets.len()
        invariant
            0 <= j <= buckets@.len(),
            buckets@ == qb,
            n == chunks@.len(),
            n <= usize::MAX,
            forall|k: int| 0 <= k < chunks@.len() ==> tally_wf(#[trigger] chunks@[k].counts.text@),
            tally_wf(quotas.text@),
            plan_fits(chunks@),
            allocs@.len() == j,
            forall|m: int| 0 <= m < j ==> allocation_is(#[trigger] allocs@[m]@, column(chunks@, qb[m], n), bucket_count(*quotas, qb[m])),
            forall|m: int| 0 <= m < j ==> keys_increasing(#[trigger] allocs@[m]@),
        decreases buckets@.len() - j,
    {
        let b = buckets[j];
        let col = build_column(chunks, b);
        proof {
            lemma_column_keys(chunks@, b, n);
            assert(chunks@.take(n) == chunks@);
            assert(plan_sum(chunks@, PlanField::Lines(b)) <= u64::MAX);
        }
        let target = quotas.get(b);
        let alloc = allocate_exact(&col, target);
        proof {
            lemma_allocation_keys(alloc@, col@, target as nat);
        }
        allocs.push(alloc);
        j = j + 1;
    }
    let mut out: Vec<BucketCounts> = Vec::new();
    let mut ci: usize = 0;
    while ci < chunks.len()
        invariant
            0 <= ci <= chunks@.len(),
            buckets@ == qb,
            n == chunks@.len(),
            tally_wf(quotas.text@),
            allocs@.len() == qb.len(),
            forall|m: int| 0 <= m < qb.len() ==> allocation_is(#[trigger] allocs@[m]@, column(chunks@, qb[m], n), bucket_count(*quotas, qb[m])),
            forall|m: int| 0 <= m < qb.len() ==> keys_increasing(#[trigger] allocs@[m]@),
            forall|i: int, j: int| 0 <= i < j < qb.len() ==> !same_bucket(#[trigger] qb[i], #[trigger] qb[j]),
            forall|b: Bucket| #[trigger] bucket_count(*quotas, b) > 0 ==> exists|j: int| 0 <= j < qb.len() && same_bucket(#[trigger] qb[j], b),
            out@.len() == ci,
            forall|c: int| 0 <= c < ci ==> tally_wf(#[trigger] out@[c].text@),
            forall|c: int, b: Bucket| 0 <= c < ci ==> #[trigger] quota_in_plan(bucket_count(out@[c], b), chunks@, *quotas, c, b),
        decreases chunks@.len() - ci,
    {
        let mut q = BucketCounts::new();
        let mut j: usize = 0;
        while j < buckets.len()
            invariant
                0 <= j <= qb.len(),
                buckets@ == qb,
                allocs@.len() == qb.len(),
                forall|m: int| 0 <= m < qb.len() ==> keys_increasing(#[trigger] allocs@[m]@),
                forall|i: int, j: int| 0 <= i < j < qb.len() ==> !same_bucket(#[trigger] qb[i], #[trigger] qb[j]),
                tally_wf(q.text@),
                forall|m: int| 0 <= m < j ==> bucket_count(q, #[trigger] qb[m]) == lookup(allocs@[m]@, ci as int),
                forall|b: Bucket| (forall|m: int| 0 <= m < j ==> !same_bucket(#[trigger] qb[m], b)) ==> #[trigger] bucket_count(q, b) == 0,
            decreases qb.len() - j,
        {
            let x = lookup_in(&allocs[j], ci);
            let b = buckets[j];
            let ghost before = q;
            if x > 0 {
                proof {
                    assert forall|m: int| 0 <= m < j implies !same_bucket(#[trigger] qb[m], b) by {}
                    assert(bucket_count(q, b) == 0);
                }
                q.add(b, x);
            }
            proof {
                assert forall|m: int| 0 <= m < j + 1 implies bucket_count(q, #[trigger] qb[m]) == lookup(allocs@[m]@, ci as int) by {
                    if m < j {
                        assert(!same_bucket(qb[m], b));
                        assert(bucket_count(before, qb[m]) == lookup(allocs@[m]@, ci as int));
                    } else {
                        assert forall|m2: int| 0 <= m2 < j implies !same_bucket(#[trigger] qb[m2], b) by {}
                        assert(bucket_count(before, b) == 0);
                    }
                }
                assert forall|b2: Bucket| (forall|m: int| 0 <= m < j + 1 ==> !same_bucket(#[trigger] qb[m], b2)) implies #[trigger] bucket_count(q, b2) == 0 by {
                    assert(!same_bucket(qb[j as int], b2));
                    assert(bucket_count(before, b2) == 0);
                    if x > 0 {
                        assert(!same_bucket(b2, b)) by {
                            match (b2, b) {
                                (Bucket::Text(y), Bucket::Text(z)) => {},
                                _ => {},
                            }
                        }
                    }
                }
            }
            j = j + 1;
        }
        proof {
            assert forall|b: Bucket| quota_in_plan(#[trigger] bucket_count(q, b), chunks@, *quotas, ci as int, b) by {
                if exists|m: int| 0 <= m < qb.len() && same_bucket(#[trigger] qb[m], b) {
                    let m = choose|m: int| 0 <= m < qb.len() && same_bucket(#[trigger] qb[m], b);
                    lemma_same_bucket_counts(q, qb[m], b);
                    lemma_same_bucket_counts(*quotas, qb[m], b);
                    lemma_same_bucket_column(chunks@, qb[m], b, n);
                    assert(allocation_is(allocs@[m]@, column(chunks@, b, n), bucket_count(*quotas, b)));
                } else {
                    assert(bucket_count(*quotas, b) == 0);
                    assert(allocation_is(Seq::<(usize, u64)>::empty(), column(chunks@, b, n), 0));
                    assert(lookup(Seq::<(usize, u64)>::empty(), ci as int) == 0);
                }
            }
        }
        out.push(q);
        ci = ci + 1;
    }
    out
}


/// One chunk of one source, with what it holds and what it is to contribute.
#[derive(Debug)]
pub struct ChunkPlan {
    pub source_index: usize,
    pub range: Range<usize>,
    pub counts: BucketCounts,
    pub quotas: BucketCounts,
}

/// Which lines of the corpus are to be streamed to the trainer, chunk by chunk.
#[derive(Debug)]
pub struct CorpusPlan {
    pub chunks: Vec<ChunkPlan>,
    pub bucket_counts: BucketCounts,
    pub bucket_quotas: BucketCounts,
    pub eligible_lines: u64,
    pub selected_lines: u64,
    pub invalid_utf8: u64,
    pub long_lines: u64,
    pub math_lines: u64,
}

/// Whether no bucket is asked for more lines than it holds.
pub fn quotas_within_counts(quotas: &BucketCounts, counts: &BucketCounts) -> (r: bool)
    requires
        tally_wf(quotas.text@),
        tally_wf(counts.text@),
    ensures
        r == forall|b: Bucket| #[trigger] bucket_count(*quotas, b) <= bucket_count(*counts, b),
{
    let text = crate::tally::tally_within(&quotas.text, &counts.text);
    proof {
        if !text {
            let n = choose|n: Seq<char>| !(#[trigger] tally_count(quotas.text@, n) <= tally_count(counts.text@, n));
            assert(tally_count(quotas.text@, n) > 0);
            crate::tally::lemma_tally_wf(quotas.text@);
            assert(crate::tally::tally_names(quotas.text@).contains(n));
            let j = choose|j: int| 0 <= j < crate::tally::tally_names(quotas.text@).len() && crate::tally::tally_names(quotas.text@)[j] == n;
            let b = Bucket::Text(quotas.text@[j].0);
            assert(bucket_count(*quotas, b) > bucket_count(*counts, b));
        }
        if text && quotas.math <= counts.math && quotas.unclassified <= counts.unclassified {
            assert forall|b: Bucket| #[trigger] bucket_count(*quotas, b) <= bucket_count(*counts, b) by {
                match b {
                    Bucket::Text(n) => {
                        assert(tally_count(quotas.text@, n@) <= tally_count(counts.text@, n@));
                    },
                    _ => {},
                }
            }
        }
        if quotas.math > counts.math {
            assert(bucket_count(*quotas, Bucket::Math) > bucket_count(*counts, Bucket::Math));
        }
        if quotas.unclassified > counts.unclassified {
            assert(bucket_count(*quotas, Bucket::Unclassified) > bucket_count(*counts, Bucket::Unclassified));
        }
    }
    text && quotas.math <= counts.math && quotas.unclassified <= counts.unclassified
}

/// Spread each bucket's quota over the chunks that hold its lines, exactly, and set out the plan.
///
/// `bucket_quotas` says how many lines of each bucket are to be selected, never more than the
/// bucket holds; deciding that is a smoothing computation over the bucket counts of `tally`.
pub fn assemble_plan(tally: PlanTally, bucket_quotas: BucketCounts) -> (r: CorpusPlan)
    requires
        forall|k: int| 0 <= k < tally.chunks@.len() ==> tally_wf(#[trigger] tally.chunks@[k].counts.text@),
        plan_fits(tally.chunks@),
        tally_wf(bucket_quotas.text@),
        counts_total(bucket_quotas) <= u64::MAX,
        forall|b: Bucket| #[trigger] bucket_count(bucket_quotas, b) <= bucket_count(tally.bucket_counts, b),
    ensures
        r.chunks@.len() == tally.chunks@.len(),
        forall|i: int| 0 <= i < r.chunks@.len() ==> {
            &&& (#[trigger] r.chunks@[i]).source_index == tally.chunks@[i].source_index
            &&& r.chunks@[i].range == tally.chunks@[i].range
            &&& r.chunks@[i].counts == tally.chunks@[i].counts
            &&& tally_wf(r.chunks@[i].quotas.text@)
        },
        forall|i: int, b: Bucket| 0 <= i < r.chunks@.len() ==> #[trigger] quota_in_plan(
            bucket_count(r.chunks@[i].quotas, b),
            tally.chunks@,
            bucket_quotas,
            i,
            b,
        ),
        r.bucket_counts == tally.bucket_counts,
        r.bucket_quotas == bucket_quotas,
        r.selected_lines == counts_total(bucket_quotas),
        r.eligible_lines == tally.eligible_lines,
        r.invalid_utf8 == tally.invalid_utf8,
        r.long_lines == tally.long_lines,
        r.math_lines == tally.math_lines,
{
    let quotas = chunk_quotas(&tally.chunks, &bucket_quotas);
    let ghost stats = tally.chunks@;
    let ghost planned = quotas@;
    let PlanTally { chunks, bucket_counts, eligible_lines, invalid_utf8, long_lines, math_lines } = tally;
    let mut chunks = chunks;
    let mut quotas = quotas;
    let mut backwards: Vec<ChunkPlan> = Vec::new();
    while chunks.len() > 0
        invariant
            chunks@.len() == quotas@.len(),
            chunks@.len() + backwards@.len() == stats.len(),
            planned.len() == stats.len(),
            chunks@ == stats.take(chunks@.len() as int),
            quotas@ == planned.take(quotas@.len() as int),
            forall|m: int| 0 <= m < backwards@.len() ==> {
                let i = stats.len() - 1 - m;
                &&& (#[trigger] backwards@[m]).source_index == stats[i].source_index
                &&& backwards@[m].range == stats[i].range
                &&& backwards@[m].counts == stats[i].counts
                &&& backwards@[m].quotas == planned[i]
            },
        decreases chunks@.len(),
    {
        let ghost before_chunks = chunks@;
        let ghost before_quotas = quotas@;
        let stat = chunks.pop().unwrap();
        let quota = quotas.pop().unwrap();
        proof {
            assert(chunks@ == stats.take(chunks@.len() as int)) by {
                assert(before_chunks.drop_last() =~= stats.take(chunks@.len() as int));
            }
            assert(quotas@ == planned.take(quotas@.len() as int)) by {
                assert(before_quotas.drop_last() =~= planned.take(quotas@.len() as int));
            }
            assert(stat == stats[chunks@.len() as int]);
            assert(quota == planned[chunks@.len() as int]);
        }
        let ChunkStats { source_index, range, counts, .. } = stat;
        backwards.push(ChunkPlan { source_index, range, counts, quotas: quota });
    }
    let mut forwards: Vec<ChunkPlan> = Vec::new();
    let ghost total = backwards@.len();
    while backwards.len() > 0
        invariant
            backwards@.len() + forwards@.len() == stats.len(),
            total == stats.len(),
            planned.len() == stats.len(),
            forall|m: int| 0 <= m < backwards@.len() ==> {
                let i = stats.len() - 1 - m;
                &&& (#[trigger] backwards@[m]).source_index == stats[i].source_index
                &&& backwards@[m].range == stats[i].range
                &&& backwards@[m].counts == stats[i].counts
                &&& backwards@[m].quotas == planned[i]
            },
            forall|i: int| 0 <= i < forwards@.len() ==> {
                &&& (#[trigger] forwards@[i]).source_index == stats[i].source_index
                &&& forwards@[i].range == stats[i].range
                &&& forwards@[i].counts == stats[i].counts
                &&& forwards@[i].quotas == planned[i]
            },
        decreases backwards@.len(),
    {
        let ghost before = backwards@;
        let plan = backwards.pop().unwrap();
        proof {
            let m = before.len() - 1;
            assert(plan == before[m]);
            assert(forall|q: int| 0 <= q < backwards@.len() ==> backwards@[q] == before[q]);
        }
        forwards.push(plan);
    }
    let selected = bucket_quotas.math + crate::tally::total_of(&bucket_quotas.text) + bucket_quotas.unclassified;
    CorpusPlan {
        chunks: forwards,
        bucket_counts,
        bucket_quotas,
        eligible_lines,
        selected_lines: selected,
        invalid_utf8,
        long_lines,
        math_lines,
    }
}


/// A bucket as a value: which kind, and for a writing system its name.
pub open spec fn bucket_key(b: Bucket) -> (int, Seq<char>) {
    match b {
        Bucket::Math => (0, Seq::empty()),
        Bucket::Text(n) => (1, n@),
        Bucket::Unclassified => (2, Seq::empty()),
    }
}

/// The bucket an eligible line belongs to, as a value.
pub open spec fn line_key(line: Seq<char>, policy: MathPolicy) -> (int, Seq<char>) {
    if policy is Balanced && is_math_text(line) {
        (0, Seq::empty())
    } else if exists|n: Seq<char>| dominant(line, n) {
        (1, choose|n: Seq<char>| dominant(line, n))
    } else {
        (2, Seq::empty())
    }
}

/// The bucket a line was classified into is the bucket its value names.
proof fn lemma_line_key(line: Seq<char>, policy: MathPolicy, b: Bucket)
    requires
        in_bucket(line, policy, b),
    ensures
        line_key(line, policy) == bucket_key(b),
{
    match b {
        Bucket::Text(x) => {
            let n = choose|n: Seq<char>| dominant(line, n);
            if n != x@ {
                lemma_seq_lt_asymmetric(n, x@);
            }
        },
        Bucket::Unclassified => {
            if exists|n: Seq<char>| dominant(line, n) {
                let n = choose|n: Seq<char>| dominant(line, n);
                assert(script_chars(line, n) == 0);
            }
        },
        Bucket::Math => {},
    }
}

/// SplitMix64's increment.
pub open spec fn golden_gamma() -> u64 {
    0x9E37_79B9_7F4A_7C15u64
}

/// SplitMix64's output function.
pub open spec fn mix64(z: u64) -> u64 {
    let z1 = vstd::wrapping::u64_specs::wrapping_mul(z ^ (z >> 30u64), 0xBF58_476D_1CE4_E5B9u64);
    let z2 = vstd::wrapping::u64_specs::wrapping_mul(z1 ^ (z1 >> 27u64), 0x94D0_49BB_1331_11EBu64);
    z2 ^ (z2 >> 31u64)
}

/// The state after one step.
pub open spec fn advanced(state: u64) -> u64 {
    vstd::wrapping::u64_specs::wrapping_add(state, golden_gamma())
}

/// A small, fast, seedable generator: the same seed gives the same stream on every machine, so a
/// run can be repeated exactly.
#[derive(Debug, Clone, Copy)]
pub struct SplitMix64 {
    state: u64,
}

impl SplitMix64 {
    /// The generator's state.
    pub closed spec fn state(self) -> u64 {
        self.state
    }

    pub fn new(seed: u64) -> (r: Self)
        ensures
            r.state() == seed,
    {
        SplitMix64 { state: seed }
    }

    pub fn next(&mut self) -> (r: u64)
        ensures
            final(self).state() == advanced(old(self).state()),
            r == mix64(final(self).state()),
    {
        self.state = self.state.wrapping_add(0x9E37_79B9_7F4A_7C15);
        let mut z = self.state;
        z = (z ^ (z >> 30)).wrapping_mul(0xBF58_476D_1CE4_E5B9);
        z = (z ^ (z >> 27)).wrapping_mul(0x94D0_49BB_1331_11EB);
        z ^ (z >> 31)
    }

    /// A number below `upper`; zero, without a step, when `upper` is zero.
    pub fn next_below(&mut self, upper: u64) -> (r: u64)
        ensures
            upper == 0 ==> r == 0 && final(self).state() == old(self).state(),
            upper > 0 ==> final(self).state() == advanced(old(self).state()) && r == mix64(final(self).state()) % upper,
    {
        if upper == 0 {
            return 0;
        }
        self.next() % upper
    }

    /// An index below `len`; zero, without a step, when `len` is zero.
    pub fn next_index(&mut self, len: usize) -> (r: usize)
        ensures
            len == 0 ==> r == 0 && final(self).state() == old(self).state(),
            len > 0 ==> final(self).state() == advanced(old(self).state()) && r == mix64(final(self).state()) % (len as u64),
            len > 0 ==> r < len,
    {
        let upper = len as u64;
        let v = self.next_below(upper);
        v as usize
    }
}

/// Whether the next line of a bucket is taken, with `remaining` lines of the bucket still to come
/// and `quota` still to take, and the generator's state afterwards. Every line is taken while
/// the quota covers what remains; otherwise each line is taken with probability
/// `quota / remaining`, which selects exactly the quota by the end.
pub open spec fn take_decision(state: u64, remaining: nat, quota: nat) -> (bool, u64) {
    if quota == 0 || remaining == 0 {
        (false, state)
    } else if quota >= remaining {
        (true, state)
    } else {
        (mix64(advanced(state)) % (remaining as u64) < quota, advanced(state))
    }
}

/// Whether to take the next line of a bucket: see [`take_decision`].
pub fn should_take(rng: &mut SplitMix64, remaining: u64, quota: u64) -> (r: bool)
    ensures
        (r, final(rng).state()) == take_decision(old(rng).state(), remaining as nat, quota as nat),
{
    if quota == 0 || remaining == 0 {
        return false;
    }
    if quota >= remaining {
        return true;
    }
    rng.next_below(remaining) < quota
}

/// The seed of a chunk's sampler, from where the chunk is: its source and its start.
pub open spec fn chunk_seed_of(source_index: usize, start: usize) -> u64 {
    let s1 = 0x9E37_79B9_7F4A_7C15u64 ^ vstd::wrapping::u64_specs::wrapping_mul(source_index as u64, 0xBF58_476D_1CE4_E5B9u64);
    s1 ^ vstd::wrapping::u64_specs::wrapping_mul(start as u64, 0x94D0_49BB_1331_11EBu64)
}

pub fn chunk_seed(chunk: &ChunkPlan) -> (r: u64)
    ensures
        r == chunk_seed_of(chunk.source_index, chunk.range.start),
{
    let mut seed: u64 = 0x9E37_79B9_7F4A_7C15;
    seed = seed ^ (chunk.source_index as u64).wrapping_mul(0xBF58_476D_1CE4_E5B9);
    seed = seed ^ (chunk.range.start as u64).wrapping_mul(0x94D0_49BB_1331_11EB);
    seed
}


/// What `c` holds for the bucket whose value is `k`.
pub open spec fn key_count(c: BucketCounts, k: (int, Seq<char>)) -> nat {
    if k == bucket_key(Bucket::Math) {
        c.math as nat
    } else if k.0 == 1 {
        tally_count(c.text@, k.1)
    } else if k == bucket_key(Bucket::Unclassified) {
        c.unclassified as nat
    } else {
        0
    }
}

impl BucketCounts {
    /// The same counts, in a value of their own.
    pub fn duplicate(&self) -> (r: Self)
        ensures
            r.math == self.math,
            r.text@ == self.text@,
            r.unclassified == self.unclassified,
    {
        let mut text: Vec<(&'static str, u64)> = Vec::new();
        let mut i: usize = 0;
        while i < self.text.len()
            invariant
                0 <= i <= self.text@.len(),
                text@ == self.text@.take(i as int),
            decreases self.text@.len() - i,
        {
            text.push(self.text[i]);
            proof {
                assert(self.text@.take(i + 1) =~= self.text@.take(i as int).push(self.text@[i as int]));
            }
            i = i + 1;
        }
        proof {
            assert(self.text@.take(i as int) == self.text@);
        }
        BucketCounts { math: self.math, text, unclassified: self.unclassified }
    }

    /// One line fewer in bucket `b`.
    pub fn take_one(&mut self, b: Bucket)
        requires
            tally_wf(old(self).text@),
            bucket_count(*old(self), b) > 0,
        ensures
            tally_wf(final(self).text@),
            forall|k: (int, Seq<char>)| #[trigger] key_count(*final(self), k) == key_count(*old(self), k) - if k == bucket_key(b) {
                1int
            } else {
                0int
            },
    {
        match b {
            Bucket::Math => {
                self.math = self.math - 1;
            },
            Bucket::Unclassified => {
                self.unclassified = self.unclassified - 1;
            },
            Bucket::Text(name) => {
                let ghost t = self.text@;
                proof {
                    lemma_tally_wf(t);
                }
                let mut k: usize = 0;
                while k < self.text.len() && !crate::text::str_eq(self.text[k].0, name)
                    invariant
                        0 <= k <= t.len(),
                        self.text@ == t,
                        forall|m: int| 0 <= m < k ==> #[trigger] t[m].0@ != name@,
                    decreases t.len() - k,
                {
                    k = k + 1;
                }
                proof {
                    if k == t.len() {
                        assert(tally_count(t, name@) > 0);
                        assert(tally_names(t).contains(name@));
                        let q = choose|q: int| 0 <= q < tally_names(t).len() && tally_names(t)[q] == name@;
                        assert(t[q].0@ == name@);
                    }
                    assert(t[k as int].1 == tally_count(t, name@));
                }
                let (entry, count) = self.text[k];
                let ghost after = |n: Seq<char>| tally_count(t, n) - if n == name@ { 1int } else { 0int };
                if count == 1 {
                    self.text.remove(k);
                    proof {
                        let nt = self.text@;
                        assert(nt == t.remove(k as int));
                        assert(tally_names(nt) =~= tally_names(t).remove(k as int));
                        assert forall|x: int, y: int| 0 <= x < y < tally_names(nt).len() implies seq_lt(
                            #[trigger] tally_names(nt)[x],
                            #[trigger] tally_names(nt)[y],
                        ) by {
                            if y < k {
                            } else if x >= k {
                                assert(tally_names(nt)[x] == tally_names(t)[x + 1]);
                                assert(tally_names(nt)[y] == tally_names(t)[y + 1]);
                            } else {
                                assert(tally_names(nt)[y] == tally_names(t)[y + 1]);
                            }
                        }
                        assert forall|m: int| 0 <= m < nt.len() implies #[trigger] nt[m].1 > 0 by {
                            if m >= k {
                                assert(nt[m] == t[m + 1]);
                            }
                        }
                        assert(tally_wf(nt));
                        lemma_tally_wf(nt);
                        assert forall|n: Seq<char>| #[trigger] tally_count(nt, n) == after(n) by {
                            if n == name@ {
                                if tally_names(nt).contains(n) {
                                    let q = choose|q: int| 0 <= q < tally_names(nt).len() && tally_names(nt)[q] == n;
                                    if q < k {
                                        assert(t[q].0@ == n);
                                        assert(seq_lt(tally_names(t)[q], tally_names(t)[k as int]));
                                        lemma_seq_lt_irreflexive(n);
                                    } else {
                                        assert(t[q + 1].0@ == n);
                                        assert(seq_lt(tally_names(t)[k as int], tally_names(t)[q + 1]));
                                        lemma_seq_lt_irreflexive(n);
                                    }
                                }
                            } else {
                                if tally_names(t).contains(n) {
                                    let q = choose|q: int| 0 <= q < tally_names(t).len() && tally_names(t)[q] == n;
                                    assert(q != k);
                                    if q < k {
                                        assert(nt[q] == t[q]);
                                        assert(tally_names(nt)[q] == n);
                                    } else {
                                        assert(nt[q - 1] == t[q]);
                                        assert(tally_names(nt)[q - 1] == n);
                                    }
                                    assert(t[q].1 == tally_count(t, n));
                                }
                                if tally_names(nt).contains(n) {
                                    let q = choose|q: int| 0 <= q < tally_names(nt).len() && tally_names(nt)[q] == n;
                                    if q < k {
                                        assert(tally_names(t)[q] == n);
                                    } else {
                                        assert(tally_names(t)[q + 1] == n);
                                    }
                                }
                            }
                        }
                    }
                } else {
                    self.text.set(k, (entry, count - 1));
                    proof {
                        let nt = self.text@;
                        assert(tally_names(nt) =~= tally_names(t));
                        assert forall|m: int| 0 <= m < nt.len() implies #[trigger] nt[m].1 > 0 by {}
                        assert(tally_wf(nt));
                        lemma_tally_wf(nt);
                        assert forall|n: Seq<char>| #[trigger] tally_count(nt, n) == after(n) by {
                            if tally_names(t).contains(n) {
                                let q = choose|q: int| 0 <= q < tally_names(t).len() && tally_names(t)[q] == n;
                                assert(tally_names(nt)[q] == n);
                                assert(t[q].1 == tally_count(t, n));
                                assert(nt[q].1 == tally_count(nt, n));
                                if q != k {
                                    assert(nt[q] == t[q]);
                                    assert(n != name@) by {
                                        if q < k {
                                            assert(seq_lt(tally_names(t)[q], tally_names(t)[k as int]));
                                        } else {
                                            assert(seq_lt(tally_names(t)[k as int], tally_names(t)[q]));
                                        }
                                        lemma_seq_lt_irreflexive(n);
                                    }
                                }
                            }
                        }
                    }
                }
            },
        }
    }
}

/// The state of a chunk's sampler: the lines taken so far, what remains of each bucket, what
/// remains of each bucket's quota, and the generator's state.
pub struct SampleState {
    pub taken: Seq<Seq<char>>,
    pub remaining: spec_fn((int, Seq<char>)) -> nat,
    pub quota: spec_fn((int, Seq<char>)) -> nat,
    pub rng: u64,
}

/// The sampler after one more line of fate `fate`.
pub open spec fn sample_step(st: SampleState, fate: LineFate, policy: MathPolicy) -> SampleState {
    match fate {
        LineFate::Eligible(l) => {
            let k = line_key(l, policy);
            let r = (st.remaining)(k);
            let q = (st.quota)(k);
            if r == 0 {
                st
            } else {
                let (take, rng) = take_decision(st.rng, r, q);
                let remaining = |x: (int, Seq<char>)| if x == k { (r - 1) as nat } else { (st.remaining)(x) };
                if take {
                    SampleState {
                        taken: st.taken.push(l),
                        remaining,
                        quota: |x: (int, Seq<char>)| if x == k { (q - 1) as nat } else { (st.quota)(x) },
                        rng,
                    }
                } else {
                    SampleState { taken: st.taken, remaining, quota: st.quota, rng }
                }
            }
        },
        _ => st,
    }
}

/// The sampler after the first `n` lines.
pub open spec fn sample_upto(fates: Seq<LineFate>, policy: MathPolicy, start: SampleState, n: int) -> SampleState
    decreases n,
{
    if n <= 0 {
        start
    } else {
        sample_step(sample_upto(fates, policy, start, n - 1), fates[n - 1], policy)
    }
}

/// Where a chunk's sampler starts: every bucket's count and quota, and a generator seeded from
/// the run's seed and the chunk's place.
pub open spec fn sample_start(chunk: ChunkPlan, seed: u64) -> SampleState {
    SampleState {
        taken: Seq::empty(),
        remaining: |k: (int, Seq<char>)| key_count(chunk.counts, k),
        quota: |k: (int, Seq<char>)| key_count(chunk.quotas, k),
        rng: seed ^ chunk_seed_of(chunk.source_index, chunk.range.start),
    }
}

/// The lines of one chunk to stream to the trainer, canonicalized, in the order they occur.
///
/// Each bucket's lines are taken with probability quota over remaining as they pass, which
/// selects exactly the chunk's quota of each bucket by the end of the chunk, and the same seed
/// selects the same lines.
pub fn sample_chunk(bytes: &[u8], chunk: &ChunkPlan, canonicalizer: &Canonicalizer, options: &PrepareOptions) -> (r: Vec<String>)
    requires
        tally_wf(chunk.counts.text@),
        tally_wf(chunk.quotas.text@),
        bytes@.len() < usize::MAX,
    ensures
        ({
            let fates = chunk_fates(bytes@, *canonicalizer, options.max_line_bytes);
            let fin = sample_upto(fates, options.math_policy, sample_start(*chunk, options.seed), fates.len() as int);
            r@.map_values(|s: String| s@) == fin.taken
        }),
{
    let ghost canon = *canonicalizer;
    let ghost max = options.max_line_bytes;
    let ghost policy = options.math_policy;
    let ghost start = sample_start(*chunk, options.seed);
    let mut remaining = chunk.counts.duplicate();
    let mut quotas = chunk.quotas.duplicate();
    let mut rng = SplitMix64::new(options.seed ^ chunk_seed(chunk));
    let mut out: Vec<String> = Vec::new();
    let ghost mut done: Seq<Seq<u8>> = Seq::empty();
    let mut piece: Vec<u8> = Vec::new();
    let mut i: usize = 0;
    proof {
        assert(bytes@.take(0) =~= Seq::<u8>::empty());
        assert(split_lines(bytes@.take(0)) =~= done.push(piece@));
        assert(out@.map_values(|s: String| s@) =~= Seq::<Seq<char>>::empty());
    }
    while i <= bytes.len()
        invariant
            0 <= i <= bytes@.len() + 1,
            bytes@.len() < usize::MAX,
            canon == *canonicalizer,
            max == options.max_line_bytes,
            policy == options.math_policy,
            start == sample_start(*chunk, options.seed),
            i <= bytes@.len() ==> split_lines(bytes@.take(i as int)) == done.push(piece@),
            i == bytes@.len() + 1 ==> split_lines(bytes@) == done,
            tally_wf(remaining.text@),
            tally_wf(quotas.text@),
            ({
                let st = sample_upto(done.map_values(|p: Seq<u8>| line_fate(p, canon, max)), policy, start, done.len() as int);
                &&& out@.map_values(|s: String| s@) == st.taken
                &&& forall|k: (int, Seq<char>)| #[trigger] key_count(remaining, k) == (st.remaining)(k)
                &&& forall|k: (int, Seq<char>)| #[trigger] key_count(quotas, k) == (st.quota)(k)
                &&& rng.state() == st.rng
            }),
        decreases bytes@.len() + 1 - i,
    {
        if i == bytes.len() || bytes[i] == 10u8 {
            let ghost fates = done.map_values(|p: Seq<u8>| line_fate(p, canon, max));
            let ghost p = piece@;
            let ghost st = sample_upto(fates, policy, start, fates.len() as int);
            sample_line(piece.as_slice(), canonicalizer, options, &mut remaining, &mut quotas, &mut rng, &mut out, Ghost(st));
            proof {
                let d2 = done.push(p);
                let f2 = d2.map_values(|q: Seq<u8>| line_fate(q, canon, max));
                assert(f2 =~= fates.push(line_fate(p, canon, max)));
                assert(f2.len() == fates.len() + 1);
                assert(sample_upto(f2, policy, start, fates.len() as int) == st) by {
                    lemma_sample_prefix(f2, fates, policy, start, fates.len() as int);
                }
                if i < bytes@.len() {
                    assert(bytes@.take(i + 1).drop_last() == bytes@.take(i as int));
                    assert(bytes@.take(i + 1).last() == 10u8);
                } else {
                    assert(bytes@.take(i as int) == bytes@);
                }
                done = d2;
            }
            piece = Vec::new();
            proof {
                if i < bytes@.len() {
                    assert(split_lines(bytes@.take(i + 1)) == done.push(piece@));
                }
            }
        } else {
            let ghost before = piece@;
            piece.push(bytes[i]);
            proof {
                assert(bytes@.take(i + 1).drop_last() == bytes@.take(i as int));
                assert(bytes@.take(i + 1).last() == bytes@[i as int]);
                let s0 = done.push(before);
                assert(s0.update(s0.len() - 1, s0.last().push(bytes@[i as int])) =~= done.push(piece@));
            }
        }
        i = i + 1;
    }
    proof {
        assert(done.map_values(|p: Seq<u8>| line_fate(p, canon, max)) == chunk_fates(bytes@, canon, max));
    }
    out
}

proof fn lemma_sample_prefix(longer: Seq<LineFate>, shorter: Seq<LineFate>, policy: MathPolicy, start: SampleState, n: int)
    requires
        0 <= n <= shorter.len(),
        shorter.len() <= longer.len(),
        forall|k: int| 0 <= k < shorter.len() ==> longer[k] == shorter[k],
    ensures
        sample_upto(longer, policy, start, n) == sample_upto(shorter, policy, start, n),
    decreases n,
{
    if n > 0 {
        lemma_sample_prefix(longer, shorter, policy, start, n - 1);
    }
}

/// Sample one line of a chunk.
fn sample_line(
    piece: &[u8],
    canonicalizer: &Canonicalizer,
    options: &PrepareOptions,
    remaining: &mut BucketCounts,
    quotas: &mut BucketCounts,
    rng: &mut SplitMix64,
    out: &mut Vec<String>,
    Ghost(st): Ghost<SampleState>,
)
    requires
        tally_wf(old(remaining).text@),
        tally_wf(old(quotas).text@),
        old(out)@.map_values(|s: String| s@) == st.taken,
        forall|k: (int, Seq<char>)| #[trigger] key_count(*old(remaining), k) == (st.remaining)(k),
        forall|k: (int, Seq<char>)| #[trigger] key_count(*old(quotas), k) == (st.quota)(k),
        old(rng).state() == st.rng,
    ensures
        ({
            let next = sample_step(st, line_fate(piece@, *canonicalizer, options.max_line_bytes), options.math_policy);
            &&& tally_wf(final(remaining).text@)
            &&& tally_wf(final(quotas).text@)
            &&& final(out)@.map_values(|s: String| s@) == next.taken
            &&& forall|k: (int, Seq<char>)| #[trigger] key_count(*final(remaining), k) == (next.remaining)(k)
            &&& forall|k: (int, Seq<char>)| #[trigger] key_count(*final(quotas), k) == (next.quota)(k)
            &&& final(rng).state() == next.rng
        }),
{
    let ghost fate = line_fate(piece@, *canonicalizer, options.max_line_bytes);
    let ghost policy = options.math_policy;
    let text = match decode(piece) {
        None => {
            return;
        },
        Some(text) => text,
    };
    proof {
        vstd::utf8::encode_utf8_decode_utf8(text@);
    }
    if blank(text) {
        return;
    }
    let canonical = canonicalizer.apply(text);
    let line: String = match canonical {
        Cow::Borrowed(b) => owned(b),
        Cow::Owned(o) => o,
    };
    if byte_len(line.as_str()) > options.max_line_bytes {
        return;
    }
    let bucket = classify_bucket(line.as_str(), options.math_policy);
    let ghost k = line_key(line@, policy);
    proof {
        lemma_line_key(line@, policy, bucket);
        assert(key_count(*remaining, bucket_key(bucket)) == bucket_count(*remaining, bucket));
        assert(key_count(*quotas, bucket_key(bucket)) == bucket_count(*quotas, bucket));
    }
    let left = remaining.get(bucket);
    if left == 0 {
        return;
    }
    let quota = quotas.get(bucket);
    let take = should_take(rng, left, quota);
    let ghost before_out = out@;
    remaining.take_one(bucket);
    if take {
        quotas.take_one(bucket);
        out.push(line);
        proof {
            assert(out@.map_values(|s: String| s@) =~= before_out.map_values(|s: String| s@).push(line@));
        }
    }
    proof {
        let next = sample_step(st, fate, policy);
        assert(fate == LineFate::Eligible(line@));
        assert forall|x: (int, Seq<char>)| #[trigger] key_count(*remaining, x) == (next.remaining)(x) by {}
        assert forall|x: (int, Seq<char>)| #[trigger] key_count(*quotas, x) == (next.quota)(x) by {}
    }
}


/// Eligible lines among the first `n` fates whose bucket is the one valued `k`.
pub open spec fn fates_keyed(fates: Seq<LineFate>, policy: MathPolicy, k: (int, Seq<char>), n: int) -> nat
    decreases n,
{
    if n <= 0 {
        0
    } else {
        fates_keyed(fates, policy, k, n - 1) + match fates[n - 1] {
            LineFate::Eligible(l) => if line_key(l, policy) == k { 1nat } else { 0nat },
            _ => 0nat,
        }
    }
}

/// Lines among `lines` whose bucket is the one valued `k`.
pub open spec fn lines_keyed(lines: Seq<Seq<char>>, policy: MathPolicy, k: (int, Seq<char>)) -> nat
    decreases lines.len(),
{
    if lines.len() == 0 {
        0
    } else {
        lines_keyed(lines.drop_last(), policy, k) + if line_key(lines.last(), policy) == k { 1nat } else { 0nat }
    }
}

pub open spec fn min_nat(a: nat, b: nat) -> nat {
    if a <= b { a } else { b }
}

/// A chunk's sampler takes, of each bucket, exactly its quota or every line the bucket has if
/// that is fewer, provided it starts from the bucket's true line count.
pub proof fn law_sampling_takes_each_quota(fates: Seq<LineFate>, policy: MathPolicy, start: SampleState, k: (int, Seq<char>))
    requires
        start.taken.len() == 0,
        (start.remaining)(k) == fates_keyed(fates, policy, k, fates.len() as int),
    ensures
        lines_keyed(sample_upto(fates, policy, start, fates.len() as int).taken, policy, k) == min_nat(
            (start.quota)(k),
            (start.remaining)(k),
        ),
{
    lemma_sampling_progress(fates, policy, start, k, fates.len() as int);
}

proof fn lemma_fates_keyed_monotone(fates: Seq<LineFate>, policy: MathPolicy, k: (int, Seq<char>), n: int, m: int)
    requires
        0 <= n <= m <= fates.len(),
    ensures
        fates_keyed(fates, policy, k, n) <= fates_keyed(fates, policy, k, m),
    decreases m - n,
{
    if n < m {
        lemma_fates_keyed_monotone(fates, policy, k, n, m - 1);
    }
}

proof fn lemma_sampling_progress(fates: Seq<LineFate>, policy: MathPolicy, start: SampleState, k: (int, Seq<char>), n: int)
    requires
        0 <= n <= fates.len(),
        start.taken.len() == 0,
        (start.remaining)(k) == fates_keyed(fates, policy, k, fates.len() as int),
    ensures
        ({
            let st = sample_upto(fates, policy, start, n);
            &&& (st.remaining)(k) + fates_keyed(fates, policy, k, n) == (start.remaining)(k)
            &&& lines_keyed(st.taken, policy, k) + min_nat((st.quota)(k), (st.remaining)(k)) == min_nat(
                (start.quota)(k),
                (start.remaining)(k),
            )
        }),
    decreases n,
{
    if n == 0 {
        assert(start.taken =~= Seq::<Seq<char>>::empty());
    } else {
        lemma_sampling_progress(fates, policy, start, k, n - 1);
        lemma_fates_keyed_monotone(fates, policy, k, n, fates.len() as int);
        let before = sample_upto(fates, policy, start, n - 1);
        let after = sample_upto(fates, policy, start, n);
        match fates[n - 1] {
            LineFate::Eligible(l) => {
                let j = line_key(l, policy);
                let r = (before.remaining)(j);
                let q = (before.quota)(j);
                if r != 0 {
                    let (take, rng) = take_decision(before.rng, r, q);
                    if take {
                        assert(after.taken == before.taken.push(l));
                        assert(after.taken.drop_last() == before.taken);
                    } else {
                        assert(after.taken == before.taken);
                    }
                    if j == k {
                        assert(take ==> q > 0);
                        assert(q >= r ==> take);
                        assert(q == 0 ==> !take);
                    }
                } else {
                    assert(j == k ==> false) by {
                        if j == k {
                            assert(fates_keyed(fates, policy, k, n) == fates_keyed(fates, policy, k, n - 1) + 1);
                        }
                    }
                }
            },
            _ => {},
        }
    }
}

} // verus!
