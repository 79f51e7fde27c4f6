//! Measuring which axes actually vary, and in which source.
//!
//! You cannot canonicalize what you have not characterised: the exception list beyond NFC is a
//! judgement about your extractors, and guessing at it is how a soft hyphen that was on the page
//! gets stripped. This produces the evidence that judgement needs.
//!
//! The mapping from [`Action`] to severity is the whole ranking. `Collapse` variation is a
//! blocker: the label space is split before training starts. `Decide` variation is high: it needs
//! a call, and the counts are how you make it. `Preserve` variation is informational, and a
//! non-zero count there is expected rather than a defect.
//!
//! Bytes that are not valid UTF-8 are corrupt data, not an encoding preference, so they are
//! counted and reported rather than transformed. A block that fails to decode is walked line by
//! line so one bad line does not discard the rest of the block.

use vstd::prelude::*;
use vstd::utf8::{decode_utf8, encode_utf8, is_ascii_chars, valid_utf8};

use crate::corpus::axis::{axis_failure_mode, Action, Axis};
use crate::corpus::rewrite::split_lines;
use crate::tally::{
    add_count, count_in, lemma_tallies_count, lemma_tally_unique, lemma_tally_wf, merge_into, tallies, tally_count, tally_index,
    tally_names, tally_total, tally_view, tally_wf, total_of,
};
use crate::format::{count, count_text, ratio, ratio_text};
use crate::report::{shows, shows_pass, FailureMode, Finding, Remedy, Report, Severity, Status, MAX_EVIDENCE};
use crate::text::{
    blank, byte_len, decode, from_chars, is_blank, lemma_seq_lt_asymmetric, lemma_seq_lt_irreflexive, lemma_seq_lt_total,
    lemma_seq_lt_transitive, owned, push_str, seq_lt, str_eq, str_lt, decimal, decimal_string,
};
use crate::unicode::{is_nfc, is_nfd, is_nfd_text, nfc_of};
use crate::writing::{writing_name, writing_of, writing_of_char};

verus! {

/// Target size of one unit of parallel work, in bytes: 1 MiB. Chunks are extended to the next
/// line boundary, so this is a floor rather than a cap.
pub const CHUNK_BYTES: usize = 1048576;

/// SentencePiece's own default for `max_sentence_length`, in bytes. The trainer does not warn
/// about lines above it: a longer sentence is simply ignored.
pub const DEFAULT_MAX_LINE_BYTES: usize = 4192;

/// What to measure in one pass.
#[derive(Debug, Clone, Copy)]
pub struct Config<'a> {
    pub axes: &'a [Axis],
    /// Lines longer than this, in bytes, are dropped by the trainer, silently.
    pub max_line_bytes: usize,
}

impl<'a> Config<'a> {
    pub fn new(axes: &'a [Axis]) -> (r: Self)
        ensures
            r.axes@ == axes@,
            r.max_line_bytes == DEFAULT_MAX_LINE_BYTES,
    {
        Config { axes, max_line_bytes: DEFAULT_MAX_LINE_BYTES }
    }

    /// Measure against a specific model's limit rather than the default.
    pub fn with_max_line_bytes(self, limit: usize) -> (r: Self)
        ensures
            r.axes@ == self.axes@,
            r.max_line_bytes == limit,
    {
        Config { axes: self.axes, max_line_bytes: limit }
    }
}

/// Which normalization form a line is written in.
///
/// Most lines say nothing at all: pure ASCII, or Han, carries no composable character and is
/// simultaneously NFC and NFD. A line that is neither form is the strongest signal available:
/// one extractor produced both spellings inside a single line.
#[derive(Debug, Clone, Copy, PartialEq, Eq, Structural)]
pub enum Form {
    /// No composable characters, so the line reveals nothing about its source.
    Undecidable,
    /// NFC, and not NFD.
    Composed,
    /// NFD, and not NFC.
    Decomposed,
    /// Neither: both spellings appear in one line.
    Mixed,
}

/// The form of a line.
pub open spec fn form_of(line: Seq<char>) -> Form {
    if is_ascii_chars(line) {
        Form::Undecidable
    } else {
        let composed = nfc_of(line) == line;
        let decomposed = is_nfd_text(line);
        if composed && decomposed {
            Form::Undecidable
        } else if composed {
            Form::Composed
        } else if decomposed {
            Form::Decomposed
        } else {
            Form::Mixed
        }
    }
}

impl Form {
    pub fn of(line: &str) -> (r: Form)
        ensures
            r == form_of(line@),
    {
        if line.is_ascii() {
            return Form::Undecidable;
        }
        let composed = is_nfc(line);
        let decomposed = is_nfd(line);
        if composed && decomposed {
            Form::Undecidable
        } else if composed {
            Form::Composed
        } else if decomposed {
            Form::Decomposed
        } else {
            Form::Mixed
        }
    }
}

/// Line counts per normalization form.
#[derive(Debug, Clone, Copy, PartialEq, Eq, Structural)]
pub struct Forms {
    pub undecidable: u64,
    pub composed: u64,
    pub decomposed: u64,
    pub mixed: u64,
}

impl Default for Forms {
    fn default() -> (r: Self)
        ensures
            r == (Forms { undecidable: 0, composed: 0, decomposed: 0, mixed: 0 }),
    {
        Forms { undecidable: 0, composed: 0, decomposed: 0, mixed: 0 }
    }
}

/// `f` with one more line of form `form`.
pub open spec fn form_plus(f: Forms, form: Form) -> Forms {
    match form {
        Form::Undecidable => Forms { undecidable: (f.undecidable + 1) as u64, ..f },
        Form::Composed => Forms { composed: (f.composed + 1) as u64, ..f },
        Form::Decomposed => Forms { decomposed: (f.decomposed + 1) as u64, ..f },
        Form::Mixed => Forms { mixed: (f.mixed + 1) as u64, ..f },
    }
}

/// Every count of `f` has room for `k` more.
pub open spec fn forms_room(f: Forms, k: nat) -> bool {
    f.undecidable + k <= u64::MAX && f.composed + k <= u64::MAX && f.decomposed + k <= u64::MAX
        && f.mixed + k <= u64::MAX
}

impl Forms {
    pub fn add(&mut self, form: Form)
        requires
            forms_room(*old(self), 1),
        ensures
            *final(self) == form_plus(*old(self), form),
    {
        match form {
            Form::Undecidable => self.undecidable = self.undecidable + 1,
            Form::Composed => self.composed = self.composed + 1,
            Form::Decomposed => self.decomposed = self.decomposed + 1,
            Form::Mixed => self.mixed = self.mixed + 1,
        }
    }

    pub fn absorb(&mut self, other: &Forms)
        requires
            old(self).undecidable + other.undecidable <= u64::MAX,
            old(self).composed + other.composed <= u64::MAX,
            old(self).decomposed + other.decomposed <= u64::MAX,
            old(self).mixed + other.mixed <= u64::MAX,
        ensures
            final(self).undecidable == old(self).undecidable + other.undecidable,
            final(self).composed == old(self).composed + other.composed,
            final(self).decomposed == old(self).decomposed + other.decomposed,
            final(self).mixed == old(self).mixed + other.mixed,
    {
        self.undecidable = self.undecidable + other.undecidable;
        self.composed = self.composed + other.composed;
        self.decomposed = self.decomposed + other.decomposed;
        self.mixed = self.mixed + other.mixed;
    }

    /// Lines that carry the distinction, which is the only honest denominator for a share.
    pub fn decidable(&self) -> (r: u64)
        requires
            self.composed + self.decomposed + self.mixed <= u64::MAX,
        ensures
            r == self.composed + self.decomposed + self.mixed,
    {
        self.composed + self.decomposed + self.mixed
    }
}

/// What one unit of work observed.
#[derive(Debug, Clone, PartialEq, Eq)]
pub struct Counts {
    pub lines: u64,
    pub invalid_utf8: u64,
    /// Lines whose byte length exceeds the configured limit.
    pub long_lines: u64,
    /// Characters per writing system, by name: what corpus balance is measured in.
    pub per_script: Vec<(&'static str, u64)>,
    /// Affected-line count per axis name.
    pub per_axis: Vec<(&'static str, u64)>,
    /// Which normalization form each line is written in.
    pub forms: Forms,
}

/// Counts whose two tallies are in good order.
pub open spec fn counts_wf(c: Counts) -> bool {
    tally_wf(c.per_script@) && tally_wf(c.per_axis@)
}

impl Default for Counts {
    fn default() -> (r: Self)
        ensures
            r.lines == 0 && r.invalid_utf8 == 0 && r.long_lines == 0,
            r.per_script@.len() == 0,
            r.per_axis@.len() == 0,
            r.forms == (Forms { undecidable: 0, composed: 0, decomposed: 0, mixed: 0 }),
            counts_wf(r),
    {
        Counts {
            lines: 0,
            invalid_utf8: 0,
            long_lines: 0,
            per_script: Vec::new(),
            per_axis: Vec::new(),
            forms: Forms::default(),
        }
    }
}

/// How many characters of `line` belong to the writing system `n`.
pub open spec fn script_chars(line: Seq<char>, n: Seq<char>) -> nat
    decreases line.len(),
{
    if line.len() == 0 {
        0
    } else {
        script_chars(line.drop_last(), n) + if writing_of_char(line.last()) == Some(n) { 1nat } else { 0nat }
    }
}

proof fn lemma_script_chars_bounded(line: Seq<char>, n: Seq<char>)
    ensures
        script_chars(line, n) <= line.len(),
    decreases line.len(),
{
    if line.len() > 0 {
        lemma_script_chars_bounded(line.drop_last(), n);
    }
}

/// How many of the axes named `n` change `line`.
pub open spec fn axes_firing(axes: Seq<Axis>, line: Seq<char>, n: Seq<char>) -> nat
    decreases axes.len(),
{
    if axes.len() == 0 {
        0
    } else {
        axes_firing(axes.drop_last(), line, n) + if axes.last().name@ == n && axes.last().transform(line) is Some {
            1nat
        } else {
            0nat
        }
    }
}

proof fn lemma_axes_firing_bounded(axes: Seq<Axis>, line: Seq<char>, n: Seq<char>)
    ensures
        axes_firing(axes, line, n) <= axes.len(),
        is_ascii_chars(line) ==> axes_firing(axes, line, n) == 0,
    decreases axes.len(),
{
    if axes.len() > 0 {
        lemma_axes_firing_bounded(axes.drop_last(), line, n);
    }
}

/// Room in every count of `c` for one more line of `chars` characters against `axes` axes.
pub open spec fn line_room(c: Counts, chars: nat, axes: nat) -> bool {
    &&& c.lines < u64::MAX
    &&& c.long_lines < u64::MAX
    &&& forms_room(c.forms, 1)
    &&& forall|n: Seq<char>| tally_count(c.per_script@, n) + chars <= u64::MAX
    &&& forall|n: Seq<char>| tally_count(c.per_axis@, n) + axes <= u64::MAX
}

/// `after` is `before` with one more line of text `line` counted against `axes`.
pub open spec fn counted_line(after: Counts, before: Counts, line: Seq<char>, axes: Seq<Axis>, max: usize) -> bool {
    &&& after.lines == before.lines + 1
    &&& after.invalid_utf8 == before.invalid_utf8
    &&& after.long_lines == before.long_lines + if encode_utf8(line).len() > max { 1nat } else { 0nat }
    &&& after.forms == form_plus(before.forms, form_of(line))
    &&& counts_wf(after)
    &&& forall|n: Seq<char>| #[trigger] tally_count(after.per_script@, n) == tally_count(before.per_script@, n) + script_chars(line, n)
    &&& forall|n: Seq<char>| #[trigger] tally_count(after.per_axis@, n) == tally_count(before.per_axis@, n) + axes_firing(axes, line, n)
}

/// Count one line against every axis, and tally what it is written in.
pub fn count_line(line: &str, config: &Config, counts: &mut Counts)
    requires
        counts_wf(*old(counts)),
        line_room(*old(counts), line@.len(), config.axes@.len()),
    ensures
        counted_line(*final(counts), *old(counts), line@, config.axes@, config.max_line_bytes),
{
    let ghost start = *counts;
    counts.lines = counts.lines + 1;
    if byte_len(line) > config.max_line_bytes {
        counts.long_lines = counts.long_lines + 1;
    }
    count_scripts(line, counts);
    counts.forms.add(Form::of(line));
    if line.is_ascii() {
        proof {
            assert forall|n: Seq<char>| #[trigger] tally_count(counts.per_axis@, n) == tally_count(start.per_axis@, n) + axes_firing(config.axes@, line@, n) by {
                lemma_axes_firing_bounded(config.axes@, line@, n);
            }
        }
        return;
    }
    let ghost base = start.per_axis@;
    let ghost mid = *counts;
    proof {
        lemma_tally_wf(base);
        assert(config.axes@.take(0) =~= Seq::<Axis>::empty());
    }
    let mut k: usize = 0;
    while k < config.axes.len()
        invariant
            0 <= k <= config.axes@.len(),
            base == start.per_axis@,
            tally_wf(base),
            forall|n: Seq<char>| tally_count(base, n) + config.axes@.len() <= u64::MAX,
            tallies(counts.per_axis@, |n: Seq<char>| tally_count(base, n) + axes_firing(config.axes@.take(k as int), line@, n)),
            counts.lines == mid.lines,
            counts.invalid_utf8 == mid.invalid_utf8,
            counts.long_lines == mid.long_lines,
            counts.forms == mid.forms,
            counts.per_script == mid.per_script,
        decreases config.axes.len() - k,
    {
        let axis = &config.axes[k];
        let ghost before = |n: Seq<char>| tally_count(base, n) + axes_firing(config.axes@.take(k as int), line@, n);
        let ghost after = |n: Seq<char>| tally_count(base, n) + axes_firing(config.axes@.take(k + 1), line@, n);
        proof {
            assert(config.axes@.take(k + 1).drop_last() == config.axes@.take(k as int));
            assert(config.axes@.take(k + 1).last() == *axis);
            lemma_axes_firing_bounded(config.axes@.take(k as int), line@, axis.name@);
        }
        if axis.affects(line) {
            proof {
                assert forall|n: Seq<char>| #[trigger] after(n) == before(n) + if n == axis.name@ { 1nat } else { 0nat } by {}
            }
            add_count(&mut counts.per_axis, axis.name, 1, Ghost(before), Ghost(after));
        } else {
            proof {
                assert(tallies(counts.per_axis@, after)) by {
                    assert forall|n: Seq<char>| #[trigger] after(n) == before(n) by {}
                    assert(after =~= before);
                }
            }
        }
        k = k + 1;
    }
    proof {
        assert(config.axes@.take(k as int) == config.axes@);
        let f = |n: Seq<char>| tally_count(base, n) + axes_firing(config.axes@.take(k as int), line@, n);
        lemma_tallies_count(counts.per_axis@, f);
    }
}

/// Tally the characters of a line per writing system.
fn count_scripts(line: &str, counts: &mut Counts)
    requires
        tally_wf(old(counts).per_script@),
        forall|n: Seq<char>| tally_count(old(counts).per_script@, n) + line@.len() <= u64::MAX,
    ensures
        final(counts).lines == old(counts).lines,
        final(counts).invalid_utf8 == old(counts).invalid_utf8,
        final(counts).long_lines == old(counts).long_lines,
        final(counts).forms == old(counts).forms,
        final(counts).per_axis == old(counts).per_axis,
        tally_wf(final(counts).per_script@),
        forall|n: Seq<char>| #[trigger] tally_count(final(counts).per_script@, n) == tally_count(old(counts).per_script@, n) + script_chars(line@, n),
{
    let chars = crate::text::to_chars(line);
    let ghost base = counts.per_script@;
    proof {
        lemma_tally_wf(base);
        assert(line@.take(0) =~= Seq::<char>::empty());
    }
    let mut i: usize = 0;
    while i < chars.len()
        invariant
            0 <= i <= chars@.len(),
            chars@ == line@,
            base == old(counts).per_script@,
            tally_wf(base),
            forall|n: Seq<char>| tally_count(base, n) + line@.len() <= u64::MAX,
            counts.lines == old(counts).lines,
            counts.invalid_utf8 == old(counts).invalid_utf8,
            counts.long_lines == old(counts).long_lines,
            counts.forms == old(counts).forms,
            counts.per_axis == old(counts).per_axis,
            tallies(counts.per_script@, |n: Seq<char>| tally_count(base, n) + script_chars(line@.take(i as int), n)),
        decreases chars.len() - i,
    {
        let c = chars[i];
        let ghost before = |n: Seq<char>| tally_count(base, n) + script_chars(line@.take(i as int), n);
        let ghost after = |n: Seq<char>| tally_count(base, n) + script_chars(line@.take(i + 1), n);
        proof {
            assert(line@.take(i + 1).drop_last() == line@.take(i as int));
            assert(line@.take(i + 1).last() == c);
        }
        match writing_of(c) {
            Some(w) => {
                let name = w.name();
                proof {
                    lemma_script_chars_bounded(line@.take(i as int), name@);
                    assert forall|n: Seq<char>| #[trigger] after(n) == before(n) + if n == name@ { 1nat } else { 0nat } by {}
                }
                add_count(&mut counts.per_script, name, 1, Ghost(before), Ghost(after));
            },
            None => {
                proof {
                    assert(tallies(counts.per_script@, after)) by {
                        assert forall|n: Seq<char>| #[trigger] after(n) == before(n) by {}
                        assert(after =~= before);
                    }
                }
            },
        }
        i = i + 1;
    }
    proof {
        assert(line@.take(i as int) == line@);
        let f = |n: Seq<char>| tally_count(base, n) + script_chars(line@.take(i as int), n);
        lemma_tallies_count(counts.per_script@, f);
    }
}

/// The pieces of a text between newlines.
pub open spec fn split_text(s: Seq<char>) -> Seq<Seq<char>>
    decreases s.len(),
{
    if s.len() == 0 {
        seq![Seq::empty()]
    } else {
        let t = split_text(s.drop_last());
        if s.last() == '\n' {
            t.push(Seq::empty())
        } else {
            t.update(t.len() - 1, t.last().push(s.last()))
        }
    }
}

/// A line ended by a newline, without the carriage return of a `\r\n` ending.
pub open spec fn strip_cr(s: Seq<char>) -> Seq<char> {
    if s.len() > 0 && s.last() == '\r' {
        s.drop_last()
    } else {
        s
    }
}

/// The lines a block contributes, as `str::lines` yields them with blank ones left out: each
/// piece that a newline ended loses a trailing carriage return.
pub open spec fn ended_lines(pieces: Seq<Seq<char>>) -> Seq<Option<Seq<char>>>
    decreases pieces.len(),
{
    if pieces.len() == 0 {
        Seq::empty()
    } else {
        let line = strip_cr(pieces.last());
        if is_blank(line) {
            ended_lines(pieces.drop_last())
        } else {
            ended_lines(pieces.drop_last()).push(Some(line))
        }
    }
}

/// The final piece of a block, unless it is blank.
pub open spec fn final_line(piece: Seq<char>) -> Seq<Option<Seq<char>>> {
    if is_blank(piece) {
        Seq::empty()
    } else {
        seq![Some(piece)]
    }
}

/// The pieces of an undecodable block, each decoded on its own: a piece that does not decode is
/// an invalid line, a blank one is left out.
pub open spec fn piece_lines(pieces: Seq<Seq<u8>>) -> Seq<Option<Seq<char>>>
    decreases pieces.len(),
{
    if pieces.len() == 0 {
        Seq::empty()
    } else {
        let p = pieces.last();
        if !valid_utf8(p) {
            piece_lines(pieces.drop_last()).push(None)
        } else if is_blank(decode_utf8(p)) {
            piece_lines(pieces.drop_last())
        } else {
            piece_lines(pieces.drop_last()).push(Some(decode_utf8(p)))
        }
    }
}

/// The lines a block is measured as: text for a line that decodes, `None` for one that does not.
pub open spec fn block_lines(block: Seq<u8>) -> Seq<Option<Seq<char>>> {
    if valid_utf8(block) {
        let pieces = split_text(decode_utf8(block));
        ended_lines(pieces.drop_last()) + final_line(pieces.last())
    } else {
        piece_lines(split_lines(block))
    }
}

/// Lines that did not decode.
pub open spec fn m_invalid(ms: Seq<Option<Seq<char>>>) -> nat
    decreases ms.len(),
{
    if ms.len() == 0 {
        0
    } else {
        m_invalid(ms.drop_last()) + if ms.last() is None { 1nat } else { 0nat }
    }
}

/// Lines longer than `max` bytes.
pub open spec fn m_long(ms: Seq<Option<Seq<char>>>, max: usize) -> nat
    decreases ms.len(),
{
    if ms.len() == 0 {
        0
    } else {
        m_long(ms.drop_last(), max) + match ms.last() {
            Some(t) => if encode_utf8(t).len() > max { 1nat } else { 0nat },
            None => 0nat,
        }
    }
}

/// The forms of the lines that decoded.
pub open spec fn m_forms(ms: Seq<Option<Seq<char>>>) -> Forms
    decreases ms.len(),
{
    if ms.len() == 0 {
        Forms { undecidable: 0, composed: 0, decomposed: 0, mixed: 0 }
    } else {
        match ms.last() {
            Some(t) => form_plus(m_forms(ms.drop_last()), form_of(t)),
            None => m_forms(ms.drop_last()),
        }
    }
}

/// Characters of writing system `n` over all lines.
pub open spec fn m_script(ms: Seq<Option<Seq<char>>>, n: Seq<char>) -> nat
    decreases ms.len(),
{
    if ms.len() == 0 {
        0
    } else {
        m_script(ms.drop_last(), n) + match ms.last() {
            Some(t) => script_chars(t, n),
            None => 0nat,
        }
    }
}

/// Lines changed by axes named `n`, counted per axis.
pub open spec fn m_axis(ms: Seq<Option<Seq<char>>>, axes: Seq<Axis>, n: Seq<char>) -> nat
    decreases ms.len(),
{
    if ms.len() == 0 {
        0
    } else {
        m_axis(ms.drop_last(), axes, n) + match ms.last() {
            Some(t) => axes_firing(axes, t, n),
            None => 0nat,
        }
    }
}

/// `c` holds exactly what measuring the lines `ms` gives.
pub open spec fn measures(c: Counts, ms: Seq<Option<Seq<char>>>, axes: Seq<Axis>, max: usize) -> bool {
    &&& c.lines == ms.len()
    &&& c.invalid_utf8 == m_invalid(ms)
    &&& c.long_lines == m_long(ms, max)
    &&& c.forms == m_forms(ms)
    &&& counts_wf(c)
    &&& forall|n: Seq<char>| #[trigger] tally_count(c.per_script@, n) == m_script(ms, n)
    &&& forall|n: Seq<char>| #[trigger] tally_count(c.per_axis@, n) == m_axis(ms, axes, n)
}

/// The counts of a measurement stay within the characters and lines measured.
pub proof fn lemma_measure_bounds(ms: Seq<Option<Seq<char>>>, axes: Seq<Axis>, max: usize, n: Seq<char>)
    ensures
        m_invalid(ms) <= ms.len(),
        m_long(ms, max) <= ms.len(),
        m_forms(ms).undecidable + m_forms(ms).composed + m_forms(ms).decomposed + m_forms(ms).mixed <= ms.len(),
        m_axis(ms, axes, n) <= ms.len() * axes.len(),
    decreases ms.len(),
{
    if ms.len() > 0 {
        lemma_measure_bounds(ms.drop_last(), axes, max, n);
        match ms.last() {
            Some(t) => {
                lemma_axes_firing_bounded(axes, t, n);
            },
            None => {},
        }
        let k = ms.len() - 1;
        assert(k * axes.len() + axes.len() == ms.len() * axes.len()) by (nonlinear_arith)
            requires
                k == ms.len() - 1,
        ;
    }
}

/// Characters of a measurement, against the text it came from.
pub open spec fn m_chars(ms: Seq<Option<Seq<char>>>) -> nat
    decreases ms.len(),
{
    if ms.len() == 0 {
        0
    } else {
        m_chars(ms.drop_last()) + match ms.last() {
            Some(t) => t.len(),
            None => 0nat,
        }
    }
}

proof fn lemma_script_within_chars(ms: Seq<Option<Seq<char>>>, n: Seq<char>)
    ensures
        m_script(ms, n) <= m_chars(ms),
    decreases ms.len(),
{
    if ms.len() > 0 {
        lemma_script_within_chars(ms.drop_last(), n);
        match ms.last() {
            Some(t) => lemma_script_chars_bounded(t, n),
            None => {},
        }
    }
}

proof fn lemma_encode_len(chars: Seq<char>)
    ensures
        encode_utf8(chars).len() >= chars.len(),
    decreases chars.len(),
{
    if chars.len() > 0 {
        lemma_encode_len(chars.drop_first());
    }
}

/// A measured line added to counts that measured the lines before it.
proof fn lemma_measures_push(before: Counts, after: Counts, ms: Seq<Option<Seq<char>>>, line: Seq<char>, axes: Seq<Axis>, max: usize)
    requires
        measures(before, ms, axes, max),
        counted_line(after, before, line, axes, max),
    ensures
        measures(after, ms.push(Some(line)), axes, max),
{
    let ms2 = ms.push(Some(line));
    assert(ms2.drop_last() == ms);
    assert(ms2.last() == Some(line));
}

/// Count one line if it is not blank.
fn count_if_text(chars: &Vec<char>, config: &Config, counts: &mut Counts, Ghost(ms): Ghost<Seq<Option<Seq<char>>>>)
    requires
        measures(*old(counts), ms, config.axes@, config.max_line_bytes),
        ms.len() + 1 < u64::MAX,
        m_chars(ms) + chars@.len() <= u64::MAX,
        (ms.len() + 1) * config.axes@.len() <= u64::MAX,
    ensures
        measures(*final(counts), ms + final_line(chars@), config.axes@, config.max_line_bytes),
        (ms + final_line(chars@)).len() <= ms.len() + 1,
        m_chars(ms + final_line(chars@)) <= m_chars(ms) + chars@.len(),
{
    let line = from_chars(chars.as_slice());
    if blank(line.as_str()) {
        assert(ms + final_line(chars@) == ms);
        return;
    }
    proof {
        let ms2 = ms.push(Some(line@));
        assert(ms2.drop_last() == ms);
        assert(ms + final_line(chars@) == ms2);
    }
    proof {
        assert forall|n: Seq<char>| tally_count(counts.per_script@, n) + line@.len() <= u64::MAX by {
            lemma_script_within_chars(ms, n);
        }
        assert forall|n: Seq<char>| tally_count(counts.per_axis@, n) + config.axes@.len() <= u64::MAX by {
            lemma_measure_bounds(ms, config.axes@, config.max_line_bytes, n);
            assert(ms.len() * config.axes@.len() + config.axes@.len() == (ms.len() + 1) * config.axes@.len()) by (nonlinear_arith);
        }
        lemma_measure_bounds(ms, config.axes@, config.max_line_bytes, Seq::empty());
    }
    let ghost before = *counts;
    count_line(line.as_str(), config, counts);
    proof {
        lemma_measures_push(before, *counts, ms, line@, config.axes@, config.max_line_bytes);
        assert(ms + final_line(chars@) == ms.push(Some(line@)));
    }
}

/// Count a block of complete lines.
///
/// A block that decodes is read with `str::lines`; one that does not is walked piece by piece
/// between newlines, so the damage is attributed to the lines that carry it.
pub fn count_block(block: &[u8], config: &Config) -> (r: Counts)
    requires
        (block@.len() + 2) * (config.axes@.len() + 1) < u64::MAX,
    ensures
        measures(r, block_lines(block@), config.axes@, config.max_line_bytes),
{
    let mut counts = Counts::default();
    let ghost axes = config.axes@;
    let ghost max = config.max_line_bytes;
    proof {
        assert(measures(counts, Seq::empty(), axes, max));
        assert((block@.len() + 2) * (axes.len() + 1) >= block@.len() + 2) by (nonlinear_arith);
    }
    match decode(block) {
        Some(text) => {
            let chars = crate::text::to_chars(text);
            proof {
                vstd::utf8::encode_utf8_decode_utf8(text@);
                lemma_encode_len(text@);
            }
            let ghost mut done: Seq<Seq<char>> = Seq::empty();
            let mut current: Vec<char> = Vec::new();
            let mut i: usize = 0;
            assert(text@.take(0) =~= Seq::<char>::empty());
            assert(split_text(text@.take(0)) =~= done.push(current@));
            while i < chars.len()
                invariant
                    0 <= i <= chars@.len(),
                    chars@ == text@,
                    text@.len() <= block@.len(),
                    (block@.len() + 2) * (axes.len() + 1) < u64::MAX,
                    block@.len() + 2 < u64::MAX,
                    axes == config.axes@,
                    max == config.max_line_bytes,
                    split_text(text@.take(i as int)) == done.push(current@),
                    measures(counts, ended_lines(done), axes, max),
                    m_chars(ended_lines(done)) + ended_lines(done).len() + current@.len() <= i,
                decreases chars.len() - i,
            {
                let c = chars[i];
                proof {
                    assert(text@.take(i + 1).drop_last() == text@.take(i as int));
                    assert(text@.take(i + 1).last() == c);
                }
                if c == '\n' {
                    let ghost piece = current@;
                    let mut line = current;
                    let n = line.len();
                    if n > 0 && line[n - 1] == '\r' {
                        line.pop();
                    }
                    assert(line@ == strip_cr(piece));
                    proof {
                        let ms = ended_lines(done);
                        assert((ms.len() + 1) * axes.len() <= (block@.len() + 2) * (axes.len() + 1)) by (nonlinear_arith)
                            requires
                                ms.len() <= block@.len(),
                        ;
                    }
                    count_if_text(&line, config, &mut counts, Ghost(ended_lines(done)));
                    proof {
                        let d2 = done.push(piece);
                        assert(d2.drop_last() == done);
                        assert(d2.last() == piece);
                        assert(ended_lines(d2) == ended_lines(done) + final_line(strip_cr(piece)));
                        done = d2;
                    }
                    current = Vec::new();
                    proof {
                        assert(split_text(text@.take(i + 1)) == done.push(current@));
                    }
                } else {
                    let ghost before = current@;
                    current.push(c);
                    proof {
                        let s0 = done.push(before);
                        assert(s0.update(s0.len() - 1, s0.last().push(c)) =~= done.push(current@));
                    }
                }
                i = i + 1;
            }
            proof {
                assert(text@.take(i as int) == text@);
                let pieces = split_text(text@);
                assert(pieces.drop_last() == done);
                assert(pieces.last() == current@);
                let ms = ended_lines(done);
                assert((ms.len() + 1) * axes.len() <= (block@.len() + 2) * (axes.len() + 1)) by (nonlinear_arith)
                    requires
                        ms.len() <= block@.len(),
                ;
            }
            count_if_text(&current, config, &mut counts, Ghost(ended_lines(done)));
            counts
        },
        None => {
            let ghost mut done: Seq<Seq<u8>> = Seq::empty();
            let mut piece: Vec<u8> = Vec::new();
            let mut i: usize = 0;
            assert(block@.take(0) =~= Seq::<u8>::empty());
            assert(split_lines(block@.take(0)) =~= done.push(piece@));
            while i < block.len()
                invariant
                    0 <= i <= block@.len(),
                    !valid_utf8(block@),
                    (block@.len() + 2) * (axes.len() + 1) < u64::MAX,
                    block@.len() + 2 < u64::MAX,
                    axes == config.axes@,
                    max == config.max_line_bytes,
                    split_lines(block@.take(i as int)) == done.push(piece@),
                    measures(counts, piece_lines(done), axes, max),
                    m_chars(piece_lines(done)) + piece_lines(done).len() + piece@.len() <= i,
                decreases block.len() - i,
            {
                proof {
                    assert(block@.take(i + 1).drop_last() == block@.take(i as int));
                    assert(block@.take(i + 1).last() == block@[i as int]);
                }
                if block[i] == 10u8 {
                    let ghost ms = piece_lines(done);
                    let ghost p = piece@;
                    match decode(piece.as_slice()) {
                        Some(text) => {
                            let chars = crate::text::to_chars(text);
                            proof {
                                vstd::utf8::encode_utf8_decode_utf8(text@);
                                lemma_encode_len(text@);
                                assert((ms.len() + 1) * axes.len() <= (block@.len() + 2) * (axes.len() + 1)) by (nonlinear_arith)
                                    requires
                                        ms.len() <= block@.len(),
                                ;
                            }
                            count_if_text(&chars, config, &mut counts, Ghost(ms));
                            proof {
                                assert(decode_utf8(p) == text@);
                                assert(ms + final_line(text@) == piece_lines(done.push(p))) by {
                                    assert(done.push(p).drop_last() == done);
                                    assert(done.push(p).last() == p);
                                }
                            }
                        },
                        None => {
                            proof {
                                lemma_measure_bounds(ms, axes, max, Seq::empty());
                            }
                            counts.lines = counts.lines + 1;
                            counts.invalid_utf8 = counts.invalid_utf8 + 1;
                            proof {
                                let ms2 = ms.push(None::<Seq<char>>);
                                assert(ms2.drop_last() == ms);
                                assert(piece_lines(done.push(p)) == ms2) by {
                                    assert(done.push(p).drop_last() == done);
                                    assert(done.push(p).last() == p);
                                }
                                assert(measures(counts, ms2, axes, max));
                            }
                        },
                    }
                    proof {
                        done = done.push(p);
                    }
                    piece = Vec::new();
                    proof {
                        assert(split_lines(block@.take(i + 1)) == done.push(piece@));
                    }
                } else {
                    let ghost before = piece@;
                    piece.push(block[i]);
                    proof {
                        let s0 = done.push(before);
                        assert(s0.update(s0.len() - 1, s0.last().push(block@[i as int])) =~= done.push(piece@));
                    }
                }
                i = i + 1;
            }
            proof {
                assert(block@.take(i as int) == block@);
            }
            let ghost ms = piece_lines(done);
            let ghost p = piece@;
            match decode(piece.as_slice()) {
                Some(text) => {
                    let chars = crate::text::to_chars(text);
                    proof {
                        vstd::utf8::encode_utf8_decode_utf8(text@);
                        lemma_encode_len(text@);
                        assert((ms.len() + 1) * axes.len() <= (block@.len() + 2) * (axes.len() + 1)) by (nonlinear_arith)
                            requires
                                ms.len() <= block@.len(),
                        ;
                    }
                    count_if_text(&chars, config, &mut counts, Ghost(ms));
                    proof {
                        assert(decode_utf8(p) == text@);
                        assert(ms + final_line(text@) == piece_lines(done.push(p))) by {
                            assert(done.push(p).drop_last() == done);
                            assert(done.push(p).last() == p);
                        }
                    }
                },
                None => {
                    proof {
                        lemma_measure_bounds(ms, axes, max, Seq::empty());
                    }
                    counts.lines = counts.lines + 1;
                    counts.invalid_utf8 = counts.invalid_utf8 + 1;
                    proof {
                        let ms2 = ms.push(None::<Seq<char>>);
                        assert(ms2.drop_last() == ms);
                        assert(piece_lines(done.push(p)) == ms2) by {
                            assert(done.push(p).drop_last() == done);
                            assert(done.push(p).last() == p);
                        }
                    }
                },
            }
            proof {
                let pieces = split_lines(block@);
                assert(pieces == done.push(p));
            }
            counts
        },
    }
}

/// Where a scan reads its bytes from: the seam that keeps a scan off the filesystem.
pub fn scan_bytes(bytes: &[u8], config: &Config) -> (r: Counts)
    requires
        (bytes@.len() + 2) * (config.axes@.len() + 1) < u64::MAX,
    ensures
        measures(r, block_lines(bytes@), config.axes@, config.max_line_bytes),
{
    count_block(bytes, config)
}


/// One quantity that counts hold and that adds up across sources.
pub enum Field {
    Lines,
    InvalidUtf8,
    LongLines,
    Undecidable,
    Composed,
    Decomposed,
    Mixed,
    /// Characters of the writing system of this name.
    Script(Seq<char>),
    /// Lines the axis of this name changes.
    Axis(Seq<char>),
}

/// The value of `f` in `c`.
pub open spec fn field(c: Counts, f: Field) -> nat {
    match f {
        Field::Lines => c.lines as nat,
        Field::InvalidUtf8 => c.invalid_utf8 as nat,
        Field::LongLines => c.long_lines as nat,
        Field::Undecidable => c.forms.undecidable as nat,
        Field::Composed => c.forms.composed as nat,
        Field::Decomposed => c.forms.decomposed as nat,
        Field::Mixed => c.forms.mixed as nat,
        Field::Script(n) => tally_count(c.per_script@, n),
        Field::Axis(n) => tally_count(c.per_axis@, n),
    }
}

/// `a` and `b` can be added without any count overflowing.
pub open spec fn merge_fits(a: Counts, b: Counts) -> bool {
    forall|f: Field| #[trigger] field(a, f) + field(b, f) <= u64::MAX
}

/// `r` holds what `a` and `b` observed together.
pub open spec fn merged(r: Counts, a: Counts, b: Counts) -> bool {
    &&& counts_wf(r)
    &&& forall|f: Field| #[trigger] field(r, f) == field(a, f) + field(b, f)
}

/// The same counts, whatever order the names were met in.
pub open spec fn same_counts(x: Counts, y: Counts) -> bool {
    &&& x.lines == y.lines
    &&& x.invalid_utf8 == y.invalid_utf8
    &&& x.long_lines == y.long_lines
    &&& x.forms == y.forms
    &&& tally_view(x.per_script@) == tally_view(y.per_script@)
    &&& tally_view(x.per_axis@) == tally_view(y.per_axis@)
}

/// Counts in good order that agree on every field are the same counts.
proof fn lemma_fields_determine(x: Counts, y: Counts)
    requires
        counts_wf(x),
        counts_wf(y),
        forall|f: Field| #[trigger] field(x, f) == field(y, f),
    ensures
        same_counts(x, y),
{
    assert(field(x, Field::Lines) == field(y, Field::Lines));
    assert(field(x, Field::InvalidUtf8) == field(y, Field::InvalidUtf8));
    assert(field(x, Field::LongLines) == field(y, Field::LongLines));
    assert(field(x, Field::Undecidable) == field(y, Field::Undecidable));
    assert(field(x, Field::Composed) == field(y, Field::Composed));
    assert(field(x, Field::Decomposed) == field(y, Field::Decomposed));
    assert(field(x, Field::Mixed) == field(y, Field::Mixed));
    assert forall|n: Seq<char>| #[trigger] tally_count(x.per_script@, n) == tally_count(y.per_script@, n) by {
        assert(field(x, Field::Script(n)) == field(y, Field::Script(n)));
    }
    assert forall|n: Seq<char>| #[trigger] tally_count(x.per_axis@, n) == tally_count(y.per_axis@, n) by {
        assert(field(x, Field::Axis(n)) == field(y, Field::Axis(n)));
    }
    lemma_tally_unique(x.per_script@, y.per_script@);
    lemma_tally_unique(x.per_axis@, y.per_axis@);
}

/// Merging is commutative: the order in which two units of work complete cannot change what
/// their merge holds.
pub proof fn law_merge_commutes(a: Counts, b: Counts, ab: Counts, ba: Counts)
    requires
        merged(ab, a, b),
        merged(ba, b, a),
    ensures
        same_counts(ab, ba),
{
    assert forall|f: Field| #[trigger] field(ab, f) == field(ba, f) by {
        assert(field(ab, f) == field(a, f) + field(b, f));
        assert(field(ba, f) == field(b, f) + field(a, f));
    }
    lemma_fields_determine(ab, ba);
}

/// Merging is associative: how completed units of work are grouped cannot change what their
/// merge holds.
pub proof fn law_merge_associates(a: Counts, b: Counts, c: Counts, ab: Counts, ab_c: Counts, bc: Counts, a_bc: Counts)
    requires
        merged(ab, a, b),
        merged(ab_c, ab, c),
        merged(bc, b, c),
        merged(a_bc, a, bc),
    ensures
        same_counts(ab_c, a_bc),
{
    assert forall|f: Field| #[trigger] field(ab_c, f) == field(a_bc, f) by {
        assert(field(ab_c, f) == field(ab, f) + field(c, f));
        assert(field(ab, f) == field(a, f) + field(b, f));
        assert(field(a_bc, f) == field(a, f) + field(bc, f));
        assert(field(bc, f) == field(b, f) + field(c, f));
    }
    lemma_fields_determine(ab_c, a_bc);
}

impl Counts {
    /// Add every count of `other` into these.
    fn absorb_counts(&mut self, other: &Counts)
        requires
            counts_wf(*old(self)),
            counts_wf(*other),
            merge_fits(*old(self), *other),
        ensures
            merged(*final(self), *old(self), *other),
    {
        proof {
            assert(field(*self, Field::Lines) + field(*other, Field::Lines) <= u64::MAX);
            assert(field(*self, Field::InvalidUtf8) + field(*other, Field::InvalidUtf8) <= u64::MAX);
            assert(field(*self, Field::LongLines) + field(*other, Field::LongLines) <= u64::MAX);
            assert(field(*self, Field::Undecidable) + field(*other, Field::Undecidable) <= u64::MAX);
            assert(field(*self, Field::Composed) + field(*other, Field::Composed) <= u64::MAX);
            assert(field(*self, Field::Decomposed) + field(*other, Field::Decomposed) <= u64::MAX);
            assert(field(*self, Field::Mixed) + field(*other, Field::Mixed) <= u64::MAX);
            assert forall|n: Seq<char>| tally_count(self.per_script@, n) + tally_count(other.per_script@, n) <= u64::MAX by {
                assert(field(*self, Field::Script(n)) + field(*other, Field::Script(n)) <= u64::MAX);
            }
            assert forall|n: Seq<char>| tally_count(self.per_axis@, n) + tally_count(other.per_axis@, n) <= u64::MAX by {
                assert(field(*self, Field::Axis(n)) + field(*other, Field::Axis(n)) <= u64::MAX);
            }
        }
        let ghost start = *self;
        self.lines = self.lines + other.lines;
        self.invalid_utf8 = self.invalid_utf8 + other.invalid_utf8;
        self.long_lines = self.long_lines + other.long_lines;
        self.forms.absorb(&other.forms);
        merge_into(&mut self.per_axis, &other.per_axis);
        merge_into(&mut self.per_script, &other.per_script);
        proof {
            assert forall|f: Field| #[trigger] field(*self, f) == field(start, f) + field(*other, f) by {
                match f {
                    Field::Script(n) => {},
                    Field::Axis(n) => {},
                    _ => {},
                }
            }
        }
    }

    /// Fold another unit's counts into these. Commutative and associative (see
    /// [`law_merge_commutes`] and [`law_merge_associates`]), so completion order cannot affect
    /// the report.
    pub fn merge(self, other: Counts) -> (r: Counts)
        requires
            counts_wf(self),
            counts_wf(other),
            merge_fits(self, other),
        ensures
            merged(r, self, other),
    {
        let mut all = self;
        all.absorb_counts(&other);
        all
    }

    /// Total characters attributed to some writing system.
    pub fn script_characters(&self) -> (r: u64)
        requires
            tally_total(self.per_script@) <= u64::MAX,
        ensures
            r == tally_total(self.per_script@),
    {
        total_of(&self.per_script)
    }
}

/// Whether two units' counts can be merged without a count overflowing.
pub fn can_merge(a: &Counts, b: &Counts) -> (r: bool)
    requires
        counts_wf(*a),
        counts_wf(*b),
    ensures
        r == merge_fits(*a, *b),
{
    if a.lines > u64::MAX - b.lines || a.invalid_utf8 > u64::MAX - b.invalid_utf8 || a.long_lines > u64::MAX - b.long_lines
        || a.forms.undecidable > u64::MAX - b.forms.undecidable || a.forms.composed > u64::MAX - b.forms.composed
        || a.forms.decomposed > u64::MAX - b.forms.decomposed || a.forms.mixed > u64::MAX - b.forms.mixed {
        proof {
            if a.lines > u64::MAX - b.lines {
                assert(field(*a, Field::Lines) + field(*b, Field::Lines) > u64::MAX);
            } else if a.invalid_utf8 > u64::MAX - b.invalid_utf8 {
                assert(field(*a, Field::InvalidUtf8) + field(*b, Field::InvalidUtf8) > u64::MAX);
            } else if a.long_lines > u64::MAX - b.long_lines {
                assert(field(*a, Field::LongLines) + field(*b, Field::LongLines) > u64::MAX);
            } else if a.forms.undecidable > u64::MAX - b.forms.undecidable {
                assert(field(*a, Field::Undecidable) + field(*b, Field::Undecidable) > u64::MAX);
            } else if a.forms.composed > u64::MAX - b.forms.composed {
                assert(field(*a, Field::Composed) + field(*b, Field::Composed) > u64::MAX);
            } else if a.forms.decomposed > u64::MAX - b.forms.decomposed {
                assert(field(*a, Field::Decomposed) + field(*b, Field::Decomposed) > u64::MAX);
            } else {
                assert(field(*a, Field::Mixed) + field(*b, Field::Mixed) > u64::MAX);
            }
        }
        return false;
    }
    let script_fits = tally_fits(&a.per_script, &b.per_script);
    if !script_fits {
        proof {
            let n = choose|n: Seq<char>| tally_count(a.per_script@, n) + tally_count(b.per_script@, n) > u64::MAX;
            assert(field(*a, Field::Script(n)) + field(*b, Field::Script(n)) > u64::MAX);
        }
        return false;
    }
    let axis_fits = tally_fits(&a.per_axis, &b.per_axis);
    if !axis_fits {
        proof {
            let n = choose|n: Seq<char>| tally_count(a.per_axis@, n) + tally_count(b.per_axis@, n) > u64::MAX;
            assert(field(*a, Field::Axis(n)) + field(*b, Field::Axis(n)) > u64::MAX);
        }
        return false;
    }
    proof {
        assert forall|f: Field| #[trigger] field(*a, f) + field(*b, f) <= u64::MAX by {
            match f {
                Field::Script(n) => {},
                Field::Axis(n) => {},
                _ => {},
            }
        }
    }
    true
}

/// Whether every count of `b` can be added to the same name's count in `a`.
fn tally_fits(a: &Vec<(&'static str, u64)>, b: &Vec<(&'static str, u64)>) -> (r: bool)
    requires
        tally_wf(a@),
        tally_wf(b@),
    ensures
        r == forall|n: Seq<char>| tally_count(a@, n) + tally_count(b@, n) <= u64::MAX,
{
    proof {
        lemma_tally_wf(b@);
    }
    let mut k: usize = 0;
    while k < b.len()
        invariant
            0 <= k <= b@.len(),
            tally_wf(a@),
            tallies(b@, |n: Seq<char>| tally_count(b@, n)),
            forall|m: int| 0 <= m < k ==> tally_count(a@, #[trigger] b@[m].0@) + b@[m].1 <= u64::MAX,
        decreases b.len() - k,
    {
        let (name, by) = b[k];
        let have = count_in(a, name);
        if have > u64::MAX - by {
            proof {
                assert(b@[k as int].1 == tally_count(b@, b@[k as int].0@));
            }
            return false;
        }
        k = k + 1;
    }
    proof {
        assert forall|n: Seq<char>| tally_count(a@, n) + tally_count(b@, n) <= u64::MAX by {
            if tally_names(b@).contains(n) {
                let q = choose|q: int| 0 <= q < tally_names(b@).len() && tally_names(b@)[q] == n;
                assert(b@[q].0@ == n);
                assert(b@[q].1 == tally_count(b@, n));
            } else {
                assert(!(tally_count(b@, n) > 0));
                if exists|q: int| 0 <= q < a@.len() && #[trigger] a@[q].0@ == n {
                    let q = tally_index(a@, n);
                    assert(a@[q].1 <= u64::MAX);
                }
            }
        }
    }
    true
}


/// Per-source totals, in the order the sources were supplied.
pub type Totals = Vec<(String, Counts)>;

/// `f` summed over every source.
pub open spec fn total(ts: Seq<(String, Counts)>, f: Field) -> nat
    decreases ts.len(),
{
    if ts.len() == 0 {
        0
    } else {
        total(ts.drop_last(), f) + field(ts.last().1, f)
    }
}

/// Every source's counts are in good order.
pub open spec fn totals_wf(ts: Seq<(String, Counts)>) -> bool {
    forall|k: int| 0 <= k < ts.len() ==> #[trigger] counts_wf(ts[k].1)
}

/// Every count, summed over all sources, fits.
pub open spec fn totals_fit(ts: Seq<(String, Counts)>) -> bool {
    forall|f: Field| #[trigger] total(ts, f) <= u64::MAX
}

proof fn lemma_total_prefix(ts: Seq<(String, Counts)>, k: int, f: Field)
    requires
        0 <= k <= ts.len(),
    ensures
        total(ts.take(k), f) <= total(ts, f),
    decreases ts.len() - k,
{
    if k < ts.len() {
        lemma_total_prefix(ts, k + 1, f);
        assert(ts.take(k + 1).drop_last() == ts.take(k));
    } else {
        assert(ts.take(k) == ts);
    }
}

/// Every source's counts folded into one, or `None` when some sum would overflow.
fn sum_totals(totals: &Totals) -> (r: Option<Counts>)
    requires
        totals_wf(totals@),
    ensures
        r is Some <==> totals_fit(totals@),
        r matches Some(c) ==> counts_wf(c) && forall|f: Field| #[trigger] field(c, f) == total(totals@, f),
{
    let mut all = Counts::default();
    let mut i: usize = 0;
    proof {
        assert(totals@.take(0) =~= Seq::<(String, Counts)>::empty());
        assert forall|f: Field| #[trigger] field(all, f) == total(totals@.take(0), f) by {
            match f {
                Field::Script(n) => {},
                Field::Axis(n) => {},
                _ => {},
            }
        }
    }
    while i < totals.len()
        invariant
            0 <= i <= totals@.len(),
            totals_wf(totals@),
            counts_wf(all),
            forall|f: Field| #[trigger] field(all, f) == total(totals@.take(i as int), f),
        decreases totals.len() - i,
    {
        let other = &totals[i].1;
        proof {
            assert(counts_wf(totals@[i as int].1));
            assert(totals@.take(i + 1).drop_last() == totals@.take(i as int));
            assert(totals@.take(i + 1).last() == totals@[i as int]);
        }
        if !can_merge(&all, other) {
            proof {
                let f = choose|f: Field| !(field(all, f) + field(*other, f) <= u64::MAX);
                assert(total(totals@.take(i + 1), f) == total(totals@.take(i as int), f) + field(*other, f));
                lemma_total_prefix(totals@, i + 1, f);
                assert(!(total(totals@, f) <= u64::MAX));
            }
            return None;
        }
        let ghost before = all;
        all.absorb_counts(other);
        proof {
            assert forall|f: Field| #[trigger] field(all, f) == total(totals@.take(i + 1), f) by {
                assert(field(all, f) == field(before, f) + field(*other, f));
            }
        }
        i = i + 1;
    }
    proof {
        assert(totals@.take(i as int) == totals@);
        assert forall|f: Field| #[trigger] total(totals@, f) <= u64::MAX by {
            assert(field(all, f) == total(totals@, f));
            match f {
                Field::Script(n) => {
                    if exists|q: int| 0 <= q < all.per_script@.len() && #[trigger] all.per_script@[q].0@ == n {
                        let q = tally_index(all.per_script@, n);
                        assert(all.per_script@[q].1 <= u64::MAX);
                    }
                },
                Field::Axis(n) => {
                    if exists|q: int| 0 <= q < all.per_axis@.len() && #[trigger] all.per_axis@[q].0@ == n {
                        let q = tally_index(all.per_axis@, n);
                        assert(all.per_axis@[q].1 <= u64::MAX);
                    }
                },
                _ => {},
            }
        }
    }
    Some(all)
}

/// Whether every count, summed over all sources, fits: what [`combined`] and [`report`] need.
pub fn fits(totals: &Totals) -> (r: bool)
    requires
        totals_wf(totals@),
    ensures
        r == totals_fit(totals@),
{
    sum_totals(totals).is_some()
}

/// Every source's counts folded into one, for checks that ask about the corpus as a whole.
pub fn combined(totals: &Totals) -> (r: Counts)
    requires
        totals_wf(totals@),
        totals_fit(totals@),
    ensures
        counts_wf(r),
        forall|f: Field| #[trigger] field(r, f) == total(totals@, f),
{
    match sum_totals(totals) {
        Some(all) => all,
        None => {
            proof {
                assert(false);
            }
            Counts::default()
        },
    }
}


/// Source `i` ranks ahead of source `j` by what `f` counts in it: more first, then by name, then
/// in the order the sources were supplied.
pub open spec fn ranks_ahead(ts: Seq<(String, Counts)>, f: Field, i: int, j: int) -> bool {
    let ci = field(ts[i].1, f);
    let cj = field(ts[j].1, f);
    ci > cj || (ci == cj && (seq_lt(ts[i].0@, ts[j].0@) || (ts[i].0@ == ts[j].0@ && i < j)))
}

/// `idx` lists, worst first, every source in which `f` counts something.
pub open spec fn is_source_ranking(ts: Seq<(String, Counts)>, f: Field, idx: Seq<int>) -> bool {
    &&& forall|a: int, b: int| 0 <= a < b < idx.len() ==> #[trigger] ranks_ahead(ts, f, idx[a], idx[b])
    &&& forall|j: int| idx.contains(j) <==> 0 <= j < ts.len() && field(ts[j].1, f) > 0
}

/// The evidence line for source `i`: `name: 12 of 340 (3.5%) lines`.
pub open spec fn evidence_line(ts: Seq<(String, Counts)>, f: Field, i: int) -> Seq<char> {
    ts[i].0@ + ": "@ + ratio_text(field(ts[i].1, f), ts[i].1.lines as nat) + " lines"@
}

/// `e` is the evidence for `f`: the worst sources first, at most `MAX_EVIDENCE` of them.
pub open spec fn ranked_evidence(e: Seq<String>, ts: Seq<(String, Counts)>, f: Field) -> bool {
    exists|idx: Seq<int>|
        {
            &&& #[trigger] is_source_ranking(ts, f, idx)
            &&& e.len() == if idx.len() < MAX_EVIDENCE { idx.len() } else { MAX_EVIDENCE as nat }
            &&& forall|k: int| 0 <= k < e.len() ==> #[trigger] e[k]@ == evidence_line(ts, f, idx[k])
        }
}

/// Ranking sources is a strict total order.
proof fn lemma_ranks_order(ts: Seq<(String, Counts)>, f: Field, i: int, j: int, k: int)
    ensures
        !ranks_ahead(ts, f, i, i),
        ranks_ahead(ts, f, i, j) ==> !ranks_ahead(ts, f, j, i),
        i != j ==> ranks_ahead(ts, f, i, j) || ranks_ahead(ts, f, j, i),
        ranks_ahead(ts, f, i, j) && ranks_ahead(ts, f, j, k) ==> ranks_ahead(ts, f, i, k),
{
    let (ni, nj, nk) = (ts[i].0@, ts[j].0@, ts[k].0@);
    lemma_seq_lt_irreflexive(ni);
    lemma_seq_lt_irreflexive(nj);
    lemma_seq_lt_asymmetric(ni, nj);
    lemma_seq_lt_total(ni, nj);
    if seq_lt(ni, nj) && seq_lt(nj, nk) {
        lemma_seq_lt_transitive(ni, nj, nk);
    }
}

/// Whether source `i` ranks ahead of source `j`.
fn ahead(totals: &Totals, affected: &Vec<u64>, i: usize, j: usize, Ghost(f): Ghost<Field>) -> (r: bool)
    requires
        i < totals@.len(),
        j < totals@.len(),
        affected@.len() == totals@.len(),
        forall|m: int| 0 <= m < totals@.len() ==> affected@[m] == #[trigger] field(totals@[m].1, f),
    ensures
        r == ranks_ahead(totals@, f, i as int, j as int),
{
    assert(affected@[i as int] == field(totals@[i as int].1, f));
    assert(affected@[j as int] == field(totals@[j as int].1, f));
    let (ci, cj) = (affected[i], affected[j]);
    let ni = totals[i].0.as_str();
    let nj = totals[j].0.as_str();
    ci > cj || (ci == cj && (str_lt(ni, nj) || (str_eq(ni, nj) && i < j)))
}

/// Worst source first: variation is usually one broken extractor, not a diffuse issue. Ties break
/// on source name, so a report stays the same between runs.
fn evidence(totals: &Totals, affected: &Vec<u64>, Ghost(f): Ghost<Field>) -> (r: Vec<String>)
    requires
        affected@.len() == totals@.len(),
        forall|m: int| 0 <= m < totals@.len() ==> affected@[m] == #[trigger] field(totals@[m].1, f),
    ensures
        ranked_evidence(r@, totals@, f),
        r@.len() <= MAX_EVIDENCE,
{
    let ghost ts = totals@;
    let mut ranked: Vec<usize> = Vec::new();
    let mut i: usize = 0;
    while i < totals.len()
        invariant
            0 <= i <= ts.len(),
            ts == totals@,
            affected@.len() == ts.len(),
            forall|m: int| 0 <= m < ts.len() ==> affected@[m] == #[trigger] field(ts[m].1, f),
            forall|a: int, b: int| 0 <= a < b < ranked@.len() ==> #[trigger] ranks_ahead(ts, f, ranked@[a] as int, ranked@[b] as int),
            forall|m: int| 0 <= m < ranked@.len() ==> (#[trigger] ranked@[m] as int) < i && field(ts[ranked@[m] as int].1, f) > 0,
            forall|j: int| 0 <= j < i && #[trigger] field(ts[j].1, f) > 0 ==> exists|m: int| 0 <= m < ranked@.len() && ranked@[m] as int == j,
        decreases ts.len() - i,
    {
        if affected[i] > 0 {
            let mut p: usize = 0;
            while p < ranked.len() && !ahead(totals, affected, i, ranked[p], Ghost(f))
                invariant
                    0 <= p <= ranked@.len(),
                    i < ts.len(),
                    ts == totals@,
                    affected@.len() == ts.len(),
                    forall|m: int| 0 <= m < ts.len() ==> affected@[m] == #[trigger] field(ts[m].1, f),
                    forall|m: int| 0 <= m < ranked@.len() ==> (#[trigger] ranked@[m] as int) < i,
                    forall|m: int| 0 <= m < p ==> ranks_ahead(ts, f, #[trigger] ranked@[m] as int, i as int),
                decreases ranked.len() - p,
            {
                proof {
                    lemma_ranks_order(ts, f, i as int, ranked@[p as int] as int, 0);
                }
                p = p + 1;
            }
            let ghost old_ranked = ranked@;
            ranked.insert(p, i);
            proof {
                assert(affected@[i as int] == field(ts[i as int].1, f));
                let nr = ranked@;
                assert(nr == old_ranked.insert(p as int, i));
                assert forall|a: int, b: int| 0 <= a < b < nr.len() implies #[trigger] ranks_ahead(ts, f, nr[a] as int, nr[b] as int) by {
                    if b < p {
                        assert(nr[a] == old_ranked[a] && nr[b] == old_ranked[b]);
                    } else if a > p {
                        assert(nr[a] == old_ranked[a - 1] && nr[b] == old_ranked[b - 1]);
                    } else if a < p && b == p {
                        assert(nr[a] == old_ranked[a]);
                    } else if a == p {
                        assert(nr[b] == old_ranked[b - 1]);
                        assert(ranks_ahead(ts, f, i as int, old_ranked[p as int] as int));
                        if b - 1 > p {
                            assert(ranks_ahead(ts, f, old_ranked[p as int] as int, old_ranked[b - 1] as int));
                            lemma_ranks_order(ts, f, i as int, old_ranked[p as int] as int, old_ranked[b - 1] as int);
                        }
                    } else {
                        assert(nr[a] == old_ranked[a] && nr[b] == old_ranked[b - 1]);
                        assert(ranks_ahead(ts, f, old_ranked[a] as int, i as int));
                        assert(ranks_ahead(ts, f, i as int, old_ranked[p as int] as int));
                        lemma_ranks_order(ts, f, old_ranked[a] as int, i as int, old_ranked[p as int] as int);
                        if b - 1 > p {
                            lemma_ranks_order(ts, f, old_ranked[a] as int, old_ranked[p as int] as int, old_ranked[b - 1] as int);
                        }
                    }
                }
                assert forall|m: int| 0 <= m < nr.len() implies (#[trigger] nr[m] as int) < i + 1 && field(ts[nr[m] as int].1, f) > 0 by {
                    if m < p {
                        assert(nr[m] == old_ranked[m]);
                    } else if m > p {
                        assert(nr[m] == old_ranked[m - 1]);
                    }
                }
                assert forall|j: int| 0 <= j < i + 1 && #[trigger] field(ts[j].1, f) > 0 implies exists|m: int| 0 <= m < nr.len() && nr[m] as int == j by {
                    if j == i {
                        assert(nr[p as int] as int == j);
                    } else {
                        let m = choose|m: int| 0 <= m < old_ranked.len() && old_ranked[m] as int == j;
                        if m < p {
                            assert(nr[m] == old_ranked[m]);
                        } else {
                            assert(nr[m + 1] == old_ranked[m]);
                        }
                    }
                }
            }
        } else {
            proof {
                assert(affected@[i as int] == field(ts[i as int].1, f));
            }
        }
        i = i + 1;
    }
    let ghost idx = ranked@.map_values(|u: usize| u as int);
    proof {
        assert forall|a: int, b: int| 0 <= a < b < idx.len() implies #[trigger] ranks_ahead(ts, f, idx[a], idx[b]) by {
            assert(ranks_ahead(ts, f, ranked@[a] as int, ranked@[b] as int));
        }
        assert forall|j: int| idx.contains(j) <==> 0 <= j < ts.len() && field(ts[j].1, f) > 0 by {
            if idx.contains(j) {
                let m = choose|m: int| 0 <= m < idx.len() && idx[m] == j;
                assert(ranked@[m] as int == j);
            }
            if 0 <= j < ts.len() && field(ts[j].1, f) > 0 {
                let m = choose|m: int| 0 <= m < ranked@.len() && ranked@[m] as int == j;
                assert(idx[m] == j);
            }
        }
        assert(is_source_ranking(ts, f, idx));
    }
    let shown: usize = if ranked.len() < MAX_EVIDENCE { ranked.len() } else { MAX_EVIDENCE };
    let mut lines: Vec<String> = Vec::new();
    let mut k: usize = 0;
    while k < shown
        invariant
            0 <= k <= shown,
            shown <= ranked@.len(),
            shown == if idx.len() < MAX_EVIDENCE { idx.len() } else { MAX_EVIDENCE as nat },
            idx == ranked@.map_values(|u: usize| u as int),
            is_source_ranking(ts, f, idx),
            ts == totals@,
            affected@.len() == ts.len(),
            forall|m: int| 0 <= m < ts.len() ==> affected@[m] == #[trigger] field(ts[m].1, f),
            lines@.len() == k,
            forall|q: int| 0 <= q < k ==> #[trigger] lines@[q]@ == evidence_line(ts, f, idx[q]),
        decreases shown - k,
    {
        let j = ranked[k];
        proof {
            assert(idx[k as int] == j as int);
            assert(idx.contains(j as int));
        }
        assert(affected@[j as int] == field(ts[j as int].1, f));
        let mut line = owned(totals[j].0.as_str());
        push_str(&mut line, ": ");
        push_str(&mut line, ratio(affected[j], totals[j].1.lines).as_str());
        push_str(&mut line, " lines");
        lines.push(line);
        k = k + 1;
    }
    proof {
        assert(lines@.len() == if idx.len() < MAX_EVIDENCE { idx.len() } else { MAX_EVIDENCE as nat });
    }
    lines
}


/// The severity a failing axis of this action is graded at; `Preserve` never fails.
pub open spec fn axis_severity(action: Action) -> Severity {
    match action {
        Action::Collapse => Severity::Blocker,
        Action::Decide => Severity::High,
        Action::Preserve => Severity::Info,
    }
}

/// `x` is the invalid-UTF-8 finding for these totals.
pub open spec fn invalid_utf8_finding_is(x: Finding, ts: Seq<(String, Counts)>) -> bool {
    let affected = total(ts, Field::InvalidUtf8);
    let scanned = total(ts, Field::Lines);
    if affected == 0 {
        shows_pass(x, "invalid_utf8"@, "every one of "@ + decimal(scanned) + " lines decoded as valid UTF-8"@)
    } else {
        &&& x.check@ == "invalid_utf8"@
        &&& x.status == Status::Failed
        &&& x.summary@ == decimal(affected) + " of "@ + decimal(scanned)
            + " lines contain bytes that are not valid UTF-8 \u{2014} fix the extractor; these bytes cannot be recovered by normalizing"@
        &&& ranked_evidence(x.evidence@, ts, Field::InvalidUtf8)
        &&& x.severity == Severity::Blocker
        &&& x.remedy == Remedy::FixCorpus
        &&& x.failure_mode is None
    }
}

/// `x` is the finding for `axis` over these totals.
pub open spec fn axis_finding_is(x: Finding, axis: Axis, ts: Seq<(String, Counts)>) -> bool {
    let affected = total(ts, Field::Axis(axis.name@));
    let scanned = total(ts, Field::Lines);
    let measured = ratio_text(affected, scanned) + " lines \u{2014} "@ + axis.rationale@;
    &&& x.check@ == "axis["@ + axis.name@ + "]"@
    &&& x.failure_mode == Some(FailureMode(axis_failure_mode(axis.name@)))
    &&& if affected == 0 {
        &&& x.status == Status::Passed
        &&& x.summary@ == "no variation across "@ + count_text(scanned) + " lines"@
        &&& x.evidence@.len() == 0
        &&& x.severity == Severity::Info
        &&& x.remedy == Remedy::NotApplicable
    } else if axis.action == Action::Preserve {
        &&& x.status == Status::Passed
        &&& x.summary@ == measured + " (expected \u{2014} preserve, do not fold)"@
        &&& x.evidence@.len() == 0
        &&& x.severity == Severity::Info
        &&& x.remedy == Remedy::NotApplicable
    } else {
        &&& x.status == Status::Failed
        &&& x.summary@ == measured
        &&& ranked_evidence(x.evidence@, ts, Field::Axis(axis.name@))
        &&& x.severity == axis_severity(axis.action)
        &&& x.remedy == Remedy::FixCorpus
    }
}

/// How an axis is graded once it has changed at least one scanned line: a `Collapse` axis
/// fails as a blocker and a `Decide` axis fails at high severity, both to be fixed in the
/// corpus; only a `Preserve` axis passes, with nothing to fix. An axis that changed no line
/// passes.
pub proof fn law_axis_verdict_follows_its_action(x: Finding, axis: Axis, ts: Seq<(String, Counts)>)
    requires
        axis_finding_is(x, axis, ts),
    ensures
        total(ts, Field::Axis(axis.name@)) == 0 ==> x.status == Status::Passed && x.severity == Severity::Info,
        total(ts, Field::Axis(axis.name@)) > 0 && axis.action == Action::Collapse ==> x.status == Status::Failed
            && x.severity == Severity::Blocker && x.remedy == Remedy::FixCorpus,
        total(ts, Field::Axis(axis.name@)) > 0 && axis.action == Action::Decide ==> x.status == Status::Failed
            && x.severity == Severity::High && x.remedy == Remedy::FixCorpus,
        total(ts, Field::Axis(axis.name@)) > 0 && axis.action == Action::Preserve ==> x.status == Status::Passed
            && x.severity == Severity::Info && x.remedy == Remedy::NotApplicable,
        x.status == Status::Passed <==> (total(ts, Field::Axis(axis.name@)) == 0 || axis.action == Action::Preserve),
{
}

/// Lines scanned over all sources.
fn lines_total(totals: &Totals) -> (r: u64)
    requires
        totals_fit(totals@),
    ensures
        r == total(totals@, Field::Lines),
{
    let mut sum: u64 = 0;
    let mut i: usize = 0;
    proof {
        assert(totals@.take(0) =~= Seq::<(String, Counts)>::empty());
    }
    while i < totals.len()
        invariant
            0 <= i <= totals@.len(),
            totals_fit(totals@),
            sum == total(totals@.take(i as int), Field::Lines),
        decreases totals.len() - i,
    {
        proof {
            assert(totals@.take(i + 1).drop_last() == totals@.take(i as int));
            assert(totals@.take(i + 1).last() == totals@[i as int]);
            lemma_total_prefix(totals@, i + 1, Field::Lines);
            assert(total(totals@, Field::Lines) <= u64::MAX);
        }
        sum = sum + totals[i].1.lines;
        i = i + 1;
    }
    assert(totals@.take(i as int) == totals@);
    sum
}

/// What an axis, or the decoder when `axis` is `None`, counted in each source, and the sum.
fn per_source(totals: &Totals, axis: Option<&str>, Ghost(f): Ghost<Field>) -> (r: (Vec<u64>, u64))
    requires
        totals_wf(totals@),
        totals_fit(totals@),
        f == (match axis {
            Some(n) => Field::Axis(n@),
            None => Field::InvalidUtf8,
        }),
    ensures
        r.0@.len() == totals@.len(),
        forall|m: int| 0 <= m < totals@.len() ==> r.0@[m] == #[trigger] field(totals@[m].1, f),
        r.1 == total(totals@, f),
{
    let mut each: Vec<u64> = Vec::new();
    let mut sum: u64 = 0;
    let mut i: usize = 0;
    proof {
        assert(totals@.take(0) =~= Seq::<(String, Counts)>::empty());
    }
    while i < totals.len()
        invariant
            0 <= i <= totals@.len(),
            totals_wf(totals@),
            totals_fit(totals@),
            f == (match axis {
                Some(n) => Field::Axis(n@),
                None => Field::InvalidUtf8,
            }),
            each@.len() == i,
            forall|m: int| 0 <= m < i ==> each@[m] == #[trigger] field(totals@[m].1, f),
            sum == total(totals@.take(i as int), f),
        decreases totals.len() - i,
    {
        let c = &totals[i].1;
        proof {
            assert(counts_wf(totals@[i as int].1));
        }
        let n: u64 = match axis {
            Some(name) => count_in(&c.per_axis, name),
            None => c.invalid_utf8,
        };
        proof {
            assert(totals@.take(i + 1).drop_last() == totals@.take(i as int));
            assert(totals@.take(i + 1).last() == totals@[i as int]);
            lemma_total_prefix(totals@, i + 1, f);
            assert(total(totals@, f) <= u64::MAX);
        }
        sum = sum + n;
        each.push(n);
        i = i + 1;
    }
    assert(totals@.take(i as int) == totals@);
    (each, sum)
}

fn invalid_utf8_finding(totals: &Totals, scanned: u64) -> (r: Finding)
    requires
        totals_wf(totals@),
        totals_fit(totals@),
        scanned == total(totals@, Field::Lines),
    ensures
        invalid_utf8_finding_is(r, totals@),
{
    let (each, affected) = per_source(totals, None, Ghost(Field::InvalidUtf8));
    if affected == 0 {
        let mut summary = owned("every one of ");
        push_str(&mut summary, decimal_string(scanned).as_str());
        push_str(&mut summary, " lines decoded as valid UTF-8");
        return Finding::passed("invalid_utf8", summary.as_str());
    }
    let mut summary = decimal_string(affected);
    push_str(&mut summary, " of ");
    push_str(&mut summary, decimal_string(scanned).as_str());
    push_str(
        &mut summary,
        " lines contain bytes that are not valid UTF-8 \u{2014} fix the extractor; these bytes cannot be recovered by normalizing",
    );
    let shown = evidence(totals, &each, Ghost(Field::InvalidUtf8));
    Finding::failed("invalid_utf8", summary.as_str()).with_evidence(shown).graded(Severity::Blocker, Remedy::FixCorpus)
}

fn axis_finding(axis: &Axis, totals: &Totals, scanned: u64) -> (r: Finding)
    requires
        totals_wf(totals@),
        totals_fit(totals@),
        scanned == total(totals@, Field::Lines),
    ensures
        axis_finding_is(r, *axis, totals@),
{
    let ghost f = Field::Axis(axis.name@);
    let (each, affected) = per_source(totals, Some(axis.name), Ghost(f));
    let mut check = owned("axis[");
    push_str(&mut check, axis.name);
    push_str(&mut check, "]");
    let mode = axis.failure_mode();
    if affected == 0 {
        let mut summary = owned("no variation across ");
        push_str(&mut summary, count(scanned).as_str());
        push_str(&mut summary, " lines");
        return Finding::passed(check.as_str(), summary.as_str()).about(mode);
    }
    let mut summary = ratio(affected, scanned);
    push_str(&mut summary, " lines \u{2014} ");
    push_str(&mut summary, axis.rationale);
    let severity = match axis.action {
        Action::Collapse => Severity::Blocker,
        Action::Decide => Severity::High,
        Action::Preserve => {
            push_str(&mut summary, " (expected \u{2014} preserve, do not fold)");
            return Finding::passed(check.as_str(), summary.as_str()).about(mode);
        },
    };
    let shown = evidence(totals, &each, Ghost(f));
    Finding::failed(check.as_str(), summary.as_str()).about(mode).with_evidence(shown).graded(severity, Remedy::FixCorpus)
}

/// Turn scan totals into the report the checklist renders.
pub fn report(totals: &Totals, axes: &[Axis]) -> (r: Report)
    requires
        totals_wf(totals@),
        totals_fit(totals@),
    ensures
        totals@.len() == 0 ==> r.findings@.len() == 1 && shows(
            r.findings@[0],
            "corpus_scan"@,
            Status::Skipped,
            "no sources supplied"@,
            Seq::empty(),
            Severity::Blocker,
            Remedy::FixCorpus,
        ),
        totals@.len() > 0 ==> {
            &&& r.findings@.len() == axes@.len() + 1
            &&& invalid_utf8_finding_is(r.findings@[0], totals@)
            &&& forall|k: int| 0 <= k < axes@.len() ==> #[trigger] axis_finding_is(r.findings@[k + 1], axes@[k], totals@)
        },
{
    if totals.len() == 0 {
        let skipped = Finding::skipped("corpus_scan", "no sources supplied").graded(Severity::Blocker, Remedy::FixCorpus);
        return Report::new(vec![skipped]);
    }
    let scanned = lines_total(totals);
    let mut findings: Vec<Finding> = Vec::new();
    findings.push(invalid_utf8_finding(totals, scanned));
    let mut k: usize = 0;
    while k < axes.len()
        invariant
            0 <= k <= axes@.len(),
            totals@.len() > 0,
            totals_wf(totals@),
            totals_fit(totals@),
            scanned == total(totals@, Field::Lines),
            findings@.len() == k + 1,
            invalid_utf8_finding_is(findings@[0], totals@),
            forall|q: int| 0 <= q < k ==> #[trigger] axis_finding_is(findings@[q + 1], axes@[q], totals@),
        decreases axes.len() - k,
    {
        findings.push(axis_finding(&axes[k], totals, scanned));
        k = k + 1;
    }
    Report::new(findings)
}


/// Where the first newline of `hay` stands.
///
/// Calls `memchr::memchr`, which returns the index of the first occurrence of the byte, or
/// `None` when the slice has none.
#[verifier::external_body]
fn first_newline(hay: &[u8]) -> (r: Option<usize>)
    ensures
        match r {
            Some(k) => k < hay@.len() && hay@[k as int] == 10u8 && forall|j: int| 0 <= j < k ==> hay@[j] != 10u8,
            None => forall|j: int| 0 <= j < hay@.len() ==> hay@[j] != 10u8,
        },
{
    memchr::memchr(b'\n', hay)
}

/// The first newline at or after `from`, if any.
pub open spec fn newline_from(data: Seq<u8>, from: int) -> Option<int> {
    if exists|k: int| from <= k < data.len() && data[k] == 10u8 {
        Some(choose|k: int| from <= k < data.len() && data[k] == 10u8 && forall|j: int| from <= j < k ==> data[j] != 10u8)
    } else {
        None
    }
}

/// Where the chunk that starts at `start` ends: `CHUNK_BYTES` on, then to the end of that line.
pub open spec fn chunk_end(data: Seq<u8>, start: int) -> int {
    let target = if start + CHUNK_BYTES < data.len() { start + CHUNK_BYTES } else { data.len() as int };
    match newline_from(data, target) {
        Some(k) => k + 1,
        None => data.len() as int,
    }
}

/// Chunks never split a line: the chunk that starts at `start` is not empty, stays within the
/// buffer, runs at least `CHUNK_BYTES` unless it reaches the end, and, unless it reaches the end,
/// ends just after a newline, the first one at or past `CHUNK_BYTES` in.
pub proof fn law_chunks_never_split_a_line(data: Seq<u8>, start: int)
    requires
        0 <= start < data.len(),
    ensures
        start < chunk_end(data, start) <= data.len(),
        chunk_end(data, start) - start >= CHUNK_BYTES || chunk_end(data, start) == data.len(),
        chunk_end(data, start) < data.len() ==> data[chunk_end(data, start) - 1] == 10u8,
        chunk_end(data, start) < data.len() ==> forall|j: int|
            start + CHUNK_BYTES <= j < chunk_end(data, start) - 1 ==> #[trigger] data[j] != 10u8,
{
    let target = if start + CHUNK_BYTES < data.len() { start + CHUNK_BYTES } else { data.len() as int };
    if exists|k: int| target <= k < data.len() && data[k] == 10u8 {
        let k = choose|k: int| target <= k < data.len() && data[k] == 10u8;
        lemma_first_newline(data, target, k);
    }
}

/// A newline at or past `from` means there is a first one.
proof fn lemma_first_newline(data: Seq<u8>, from: int, k: int)
    requires
        from <= k < data.len(),
        data[k] == 10u8,
    ensures
        exists|m: int| from <= m < data.len() && data[m] == 10u8 && forall|j: int| from <= j < m ==> data[j] != 10u8,
    decreases k - from,
{
    if exists|j: int| from <= j < k && data[j] == 10u8 {
        let j = choose|j: int| from <= j < k && data[j] == 10u8;
        lemma_first_newline(data, from, j);
    } else {
        assert(forall|j: int| from <= j < k ==> data[j] != 10u8);
    }
}

/// What the first newline of the tail from `target` says of the whole buffer.
proof fn lemma_newline_from(data: Seq<u8>, target: int, found: Option<usize>)
    requires
        0 <= target <= data.len(),
        match found {
            Some(k) => k < data.len() - target && data.subrange(target, data.len() as int)[k as int] == 10u8
                && forall|j: int| 0 <= j < k ==> data.subrange(target, data.len() as int)[j] != 10u8,
            None => forall|j: int| 0 <= j < data.len() - target ==> data.subrange(target, data.len() as int)[j] != 10u8,
        },
    ensures
        newline_from(data, target) == match found {
            Some(k) => Some(target + k),
            None => None::<int>,
        },
{
    let tail = data.subrange(target, data.len() as int);
    match found {
        Some(offset) => {
            let k = target + offset;
            assert(data[k] == tail[offset as int]);
            assert forall|j: int| target <= j < k implies data[j] != 10u8 by {
                assert(data[j] == tail[j - target]);
            }
            assert(exists|q: int| target <= q < data.len() && data[q] == 10u8);
            let c = choose|q: int| target <= q < data.len() && data[q] == 10u8 && forall|j: int| target <= j < q ==> data[j] != 10u8;
            if c < k {
                assert(data[c] != 10u8);
            }
            if c > k {
                assert(data[k] != 10u8);
            }
        },
        None => {
            assert forall|q: int| target <= q < data.len() implies data[q] != 10u8 by {
                assert(data[q] == tail[q - target]);
            }
        },
    }
}

/// Split a buffer into chunks of at least `CHUNK_BYTES` that each end on a line boundary: each
/// chunk starts where the one before it ended, runs `CHUNK_BYTES` on and then to the end of the
/// line it landed in, and the last one ends with the buffer.
pub fn line_aligned_chunks(data: &[u8]) -> (r: Vec<std::ops::Range<usize>>)
    ensures
        forall|k: int| 0 <= k < r@.len() ==> #[trigger] r@[k].start == if k == 0 { 0 } else { r@[k - 1].end as int },
        forall|k: int| 0 <= k < r@.len() ==> #[trigger] r@[k].end == chunk_end(data@, r@[k].start as int),
        r@.len() == 0 <==> data@.len() == 0,
        r@.len() > 0 ==> r@.last().end == data@.len(),
{
    let mut chunks: Vec<std::ops::Range<usize>> = Vec::new();
    let mut start: usize = 0;
    while start < data.len()
        invariant
            start <= data@.len(),
            forall|k: int| 0 <= k < chunks@.len() ==> #[trigger] chunks@[k].start == if k == 0 { 0 } else { chunks@[k - 1].end as int },
            forall|k: int| 0 <= k < chunks@.len() ==> #[trigger] chunks@[k].end == chunk_end(data@, chunks@[k].start as int),
            chunks@.len() == 0 <==> start == 0,
            chunks@.len() > 0 ==> chunks@.last().end == start,
        decreases data@.len() - start,
    {
        let target: usize = if data.len() >= CHUNK_BYTES && start < data.len() - CHUNK_BYTES { start + CHUNK_BYTES } else { data.len() };
        let tail = slice_from(data, target);
        let found = first_newline(tail);
        proof {
            lemma_newline_from(data@, target as int, found);
        }
        let end: usize = match found {
            Some(offset) => target + offset + 1,
            None => data.len(),
        };
        assert(end == chunk_end(data@, start as int));
        chunks.push(start..end);
        start = end;
    }
    chunks
}

/// The bytes of `data` from `from` on.
fn slice_from(data: &[u8], from: usize) -> (r: &[u8])
    requires
        from <= data@.len(),
    ensures
        r@ == data@.subrange(from as int, data@.len() as int),
{
    let (_, tail) = data.split_at(from);
    tail
}

} // verus!
