//! The model checklist: every failure mode the guide can detect from the artifact alone.
//!
//! Two checks from the guide are absent by necessity rather than by oversight, and say so in the
//! report. `fertility` and the byte-fallback rate measure the tokenizer against real text, so
//! both need to encode it, and encoding needs a SentencePiece runtime, which reading the model
//! file does not give us. They are skipped with the reason attached and keep their severity,
//! because a check that could not run must never read as one that passed.

use vstd::prelude::*;

use crate::model::artifact::{Artifact, Normalizer, Trainer, Vocabulary};
use crate::model::config::{
    algorithm, algorithm_is, no_phantom_prefix, no_phantom_prefix_is, no_unknown, no_unknown_is,
    normalization_rule, normalization_rule_is, script_splitting, script_splitting_is, split_digits,
    split_digits_is, trainer_settings, trainer_settings_is, whitespace_preserved,
    whitespace_preserved_is,
};
use crate::model::pieces::{
    cross_script_pieces, cross_script_pieces_is, digit_pieces, digit_pieces_is, nfc_vocabulary,
    nfc_vocabulary_is, protected_symbols, protected_symbols_is, DEFAULT_MAX_DIGIT_PIECE_LENGTH,
};
use crate::report::{shows, Finding, Remedy, Report, Severity, Status};

verus! {

/// The tunables a caller may reasonably disagree with.
#[derive(Debug, Clone, Copy)]
pub struct Options {
    pub max_digit_piece_length: usize,
    /// Whether a digit fusing with a letter counts as a cross-script merge.
    pub digits_are_a_script: bool,
}

impl Default for Options {
    fn default() -> (r: Self)
        ensures
            r.max_digit_piece_length == 1,
            r.digits_are_a_script,
    {
        Options { max_digit_piece_length: DEFAULT_MAX_DIGIT_PIECE_LENGTH, digits_are_a_script: true }
    }
}

/// A check that could not run, keeping the severity of the check it stands in for.
pub open spec fn skip_is(f: Finding, check: Seq<char>, reason: Seq<char>, severity: Severity) -> bool {
    shows(f, check, Status::Skipped, reason, Seq::empty(), severity, Remedy::RetrainConfig)
}

/// One skip per named check, in order.
pub open spec fn skips_are(fs: Seq<Finding>, checks: Seq<(Seq<char>, Severity)>, reason: Seq<char>) -> bool {
    &&& fs.len() == checks.len()
    &&& forall|i: int| 0 <= i < checks.len() ==> #[trigger] skip_is(fs[i], checks[i].0, reason, checks[i].1)
}

pub open spec fn vocabulary_checks() -> Seq<(Seq<char>, Severity)> {
    seq![("digit_pieces"@, Severity::High), ("cross_script_pieces"@, Severity::High), ("nfc_vocabulary"@, Severity::Blocker)]
}

pub open spec fn trainer_checks() -> Seq<(Seq<char>, Severity)> {
    seq![
        ("no_unknown"@, Severity::Blocker),
        ("protected_symbols"@, Severity::High),
        ("algorithm"@, Severity::Medium),
        ("split_digits"@, Severity::High),
        ("script_splitting"@, Severity::Medium),
    ]
}

pub open spec fn normalizer_checks() -> Seq<(Seq<char>, Severity)> {
    seq![("no_phantom_prefix"@, Severity::High), ("whitespace_preserved"@, Severity::High)]
}

/// The checks that need to encode text.
pub open spec fn encoding_checks() -> Seq<(Seq<char>, Severity)> {
    seq![("fertility"@, Severity::Medium), ("byte_fallback_rate"@, Severity::High)]
}

pub open spec fn encoding_reason() -> Seq<char> {
    "measuring this requires encoding text, which reading the model file does not provide"@
}

/// The vocabulary checks, or their skips when there are no pieces.
pub open spec fn vocabulary_part_is(fs: Seq<Finding>, vocabulary: Vocabulary, options: Options) -> bool {
    if vocabulary.entries().len() == 0 {
        skips_are(fs, vocabulary_checks(), "the model carries no pieces"@)
    } else {
        &&& fs.len() == 3
        &&& digit_pieces_is(fs[0], vocabulary, options.max_digit_piece_length)
        &&& cross_script_pieces_is(fs[1], vocabulary, options.digits_are_a_script)
        &&& nfc_vocabulary_is(fs[2], vocabulary)
    }
}

/// The trainer checks, or their skips when the model records no trainer spec.
pub open spec fn trainer_part_is(fs: Seq<Finding>, vocabulary: Vocabulary, trainer: Option<Trainer>) -> bool {
    match trainer {
        None => skips_are(fs, trainer_checks(), "the model records no trainer spec"@),
        Some(t) => {
            &&& fs.len() == 6
            &&& no_unknown_is(fs[0], vocabulary, t)
            &&& protected_symbols_is(fs[1], vocabulary, t)
            &&& algorithm_is(fs[2], t)
            &&& split_digits_is(fs[3], t)
            &&& script_splitting_is(fs[4], t)
            &&& trainer_settings_is(fs[5], t)
        },
    }
}

/// The normalizer checks, or their skips when the model records no normalizer spec.
pub open spec fn normalizer_part_is(fs: Seq<Finding>, normalizer: Option<Normalizer>) -> bool {
    match normalizer {
        None => skips_are(fs, normalizer_checks(), "the model records no normalizer spec"@),
        Some(n) => {
            &&& fs.len() == 3
            &&& no_phantom_prefix_is(fs[0], n)
            &&& whitespace_preserved_is(fs[1], n)
            &&& normalization_rule_is(fs[2], n)
        },
    }
}

/// The standard suite over a model: vocabulary, trainer and normalizer checks, then the skips
/// for the checks that need to encode text.
pub open spec fn suite_is(fs: Seq<Finding>, artifact: Artifact, options: Options) -> bool {
    let t = if artifact.trainer is Some { 6int } else { 5int };
    let n = if artifact.normalizer is Some { 3int } else { 2int };
    &&& fs.len() == 3 + t + n + 2
    &&& vocabulary_part_is(fs.subrange(0, 3), artifact.vocabulary, options)
    &&& trainer_part_is(fs.subrange(3, 3 + t), artifact.vocabulary, artifact.trainer)
    &&& normalizer_part_is(fs.subrange(3 + t, 3 + t + n), artifact.normalizer)
    &&& skips_are(fs.subrange(3 + t + n, fs.len() as int), encoding_checks(), encoding_reason())
}

/// Run the standard suite over a parsed model.
pub fn check(artifact: &Artifact, options: &Options) -> (r: Report)
    ensures
        suite_is(r.findings@, *artifact, *options),
{
    let mut findings = vocabulary_findings(&artifact.vocabulary, options);
    let ghost v = findings@;
    let mut more = match &artifact.trainer {
        Some(trainer) => trainer_findings(&artifact.vocabulary, trainer),
        None => unavailable(trainer_check_list(), "the model records no trainer spec"),
    };
    let ghost t = more@;
    findings.append(&mut more);
    let mut more = match &artifact.normalizer {
        Some(normalizer) => normalizer_findings(normalizer),
        None => unavailable(normalizer_check_list(), "the model records no normalizer spec"),
    };
    let ghost n = more@;
    findings.append(&mut more);
    let mut more = needs_a_tokenizer_runtime();
    let ghost e = more@;
    findings.append(&mut more);
    proof {
        let fs = findings@;
        let tl = t.len() as int;
        let nl = n.len() as int;
        assert(fs == v + t + n + e);
        assert(fs.subrange(0, 3) =~= v);
        assert(fs.subrange(3, 3 + tl) =~= t);
        assert(fs.subrange(3 + tl, 3 + tl + nl) =~= n);
        assert(fs.subrange(3 + tl + nl, fs.len() as int) =~= e);
    }
    Report::new(findings)
}

fn vocabulary_findings(vocabulary: &Vocabulary, options: &Options) -> (r: Vec<Finding>)
    ensures
        vocabulary_part_is(r@, *vocabulary, *options),
        r@.len() == 3,
{
    if vocabulary.is_empty() {
        return unavailable(vocabulary_check_list(), "the model carries no pieces");
    }
    let mut r: Vec<Finding> = Vec::new();
    r.push(digit_pieces(vocabulary, options.max_digit_piece_length));
    r.push(cross_script_pieces(vocabulary, options.digits_are_a_script));
    r.push(nfc_vocabulary(vocabulary));
    r
}

fn trainer_findings(vocabulary: &Vocabulary, trainer: &Trainer) -> (r: Vec<Finding>)
    ensures
        trainer_part_is(r@, *vocabulary, Some(*trainer)),
{
    let mut r: Vec<Finding> = Vec::new();
    r.push(no_unknown(vocabulary, trainer));
    r.push(protected_symbols(vocabulary, trainer));
    r.push(algorithm(trainer));
    r.push(split_digits(trainer));
    r.push(script_splitting(trainer));
    r.push(trainer_settings(trainer));
    r
}

fn normalizer_findings(normalizer: &Normalizer) -> (r: Vec<Finding>)
    ensures
        normalizer_part_is(r@, Some(*normalizer)),
{
    let mut r: Vec<Finding> = Vec::new();
    r.push(no_phantom_prefix(normalizer));
    r.push(whitespace_preserved(normalizer));
    r.push(normalization_rule(normalizer));
    r
}

/// The names of a list of checks, with their severities.
pub open spec fn check_views(checks: Seq<(&'static str, Severity)>) -> Seq<(Seq<char>, Severity)> {
    checks.map_values(|c: (&'static str, Severity)| (c.0@, c.1))
}

fn vocabulary_check_list() -> (r: Vec<(&'static str, Severity)>)
    ensures
        check_views(r@) == vocabulary_checks(),
{
    let r = vec![("digit_pieces", Severity::High), ("cross_script_pieces", Severity::High), ("nfc_vocabulary", Severity::Blocker)];
    assert(check_views(r@) =~= vocabulary_checks());
    r
}

fn trainer_check_list() -> (r: Vec<(&'static str, Severity)>)
    ensures
        check_views(r@) == trainer_checks(),
{
    let r = vec![
        ("no_unknown", Severity::Blocker),
        ("protected_symbols", Severity::High),
        ("algorithm", Severity::Medium),
        ("split_digits", Severity::High),
        ("script_splitting", Severity::Medium),
    ];
    assert(check_views(r@) =~= trainer_checks());
    r
}

fn normalizer_check_list() -> (r: Vec<(&'static str, Severity)>)
    ensures
        check_views(r@) == normalizer_checks(),
{
    let r = vec![("no_phantom_prefix", Severity::High), ("whitespace_preserved", Severity::High)];
    assert(check_views(r@) =~= normalizer_checks());
    r
}

/// Skips for the checks that need to encode text, which reading the model file does not enable.
fn needs_a_tokenizer_runtime() -> (r: Vec<Finding>)
    ensures
        skips_are(r@, encoding_checks(), encoding_reason()),
{
    let checks = vec![("fertility", Severity::Medium), ("byte_fallback_rate", Severity::High)];
    assert(check_views(checks@) =~= encoding_checks());
    unavailable(
        checks,
        "measuring this requires encoding text, which reading the model file does not provide",
    )
}

/// Skips that keep the severity of the check they stand in for.
fn unavailable(checks: Vec<(&'static str, Severity)>, reason: &str) -> (r: Vec<Finding>)
    ensures
        skips_are(r@, check_views(checks@), reason@),
{
    let mut r: Vec<Finding> = Vec::new();
    let mut i: usize = 0;
    while i < checks.len()
        invariant
            0 <= i <= checks@.len(),
            r@.len() == i,
            forall|j: int| 0 <= j < i ==> #[trigger] skip_is(r@[j], check_views(checks@)[j].0, reason@, check_views(checks@)[j].1),
        decreases checks.len() - i,
    {
        let (name, severity) = checks[i];
        r.push(Finding::skipped(name, reason).graded(severity, Remedy::RetrainConfig));
        i = i + 1;
    }
    r
}

} // verus!
