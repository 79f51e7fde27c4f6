//! Checks that read the settings the model was trained with.
//!
//! The flags are recorded in the artifact, so reading one is both exact and a statement about
//! every possible input rather than about the samples on hand. Where the right answer depends on
//! something the tool cannot see (the normalization of your ground truth, your vocabulary
//! budget) the setting is reported rather than judged.

use vstd::prelude::*;

use crate::model::artifact::{count_kind, Kind, ModelType, Normalizer, Trainer, Vocabulary};
use crate::report::{shows, shows_pass, Finding, Remedy, Severity, Status};
use crate::text::{debug_quoted, debug_text, decimal, decimal_string, owned, push_str, signed_decimal, signed_string};

verus! {

/// Byte fallback needs one piece per possible byte to be total.
pub const BYTE_PIECES: usize = 256;

/// The summary when byte fallback is on but pieces are missing.
pub open spec fn incomplete_fallback(byte_pieces: nat) -> Seq<char> {
    "byte_fallback is on but the vocabulary carries "@ + decimal(byte_pieces) + " byte pieces, not 256"@
}

/// What `no_unknown` reports.
pub open spec fn no_unknown_is(f: Finding, vocabulary: Vocabulary, trainer: Trainer) -> bool {
    &&& (!trainer.byte_fallback ==> shows(f, "no_unknown"@, Status::Failed,
            "byte_fallback is off \u{2014} any character outside the vocabulary encodes to <unk>"@,
            Seq::empty(), Severity::Blocker, Remedy::RetrainConfig))
    &&& (trainer.byte_fallback && count_kind(vocabulary.entries(), Kind::Byte) != 256 ==> shows(f, "no_unknown"@, Status::Failed,
            incomplete_fallback(count_kind(vocabulary.entries(), Kind::Byte)),
            seq!["the fallback is incomplete, so some bytes still have no representation"@],
            Severity::Blocker, Remedy::RetrainConfig))
    &&& (trainer.byte_fallback && count_kind(vocabulary.entries(), Kind::Byte) == 256 ==> shows_pass(f, "no_unknown"@,
            "byte_fallback is on with all 256 byte pieces \u{2014} <unk> is unreachable"@))
}

/// `<unk>` must be unreachable for every possible input.
///
/// With byte fallback complete, no input can produce an unknown token; without it, some input
/// can, whether or not any sample happened to find it.
pub fn no_unknown(vocabulary: &Vocabulary, trainer: &Trainer) -> (f: Finding)
    ensures
        no_unknown_is(f, *vocabulary, *trainer),
{
    let byte_pieces = vocabulary.count_of(Kind::Byte);
    if !trainer.byte_fallback {
        return Finding::failed(
            "no_unknown",
            "byte_fallback is off \u{2014} any character outside the vocabulary encodes to <unk>",
        ).graded(Severity::Blocker, Remedy::RetrainConfig);
    }
    if byte_pieces != BYTE_PIECES {
        let mut summary = owned("byte_fallback is on but the vocabulary carries ");
        push_str(&mut summary, decimal_string(byte_pieces as u64).as_str());
        push_str(&mut summary, " byte pieces, not 256");
        let mut evidence: Vec<String> = Vec::new();
        evidence.push(owned("the fallback is incomplete, so some bytes still have no representation"));
        let f = Finding::failed("no_unknown", summary.as_str()).with_evidence(evidence).graded(
            Severity::Blocker,
            Remedy::RetrainConfig,
        );
        return f;
    }
    Finding::passed(
        "no_unknown",
        "byte_fallback is on with all 256 byte pieces \u{2014} <unk> is unreachable",
    )
}

/// What `no_phantom_prefix` reports.
pub open spec fn no_phantom_prefix_is(f: Finding, normalizer: Normalizer) -> bool {
    &&& (normalizer.add_dummy_prefix ==> shows(f, "no_phantom_prefix"@, Status::Failed,
            "add_dummy_prefix is on \u{2014} every label gains a leading space marker it did not have"@,
            Seq::empty(), Severity::High, Remedy::RetrainConfig))
    &&& (!normalizer.add_dummy_prefix ==> shows_pass(f, "no_phantom_prefix"@,
            "add_dummy_prefix is off \u{2014} no phantom leading space"@))
}

/// No phantom leading space on text that did not begin with one.
///
/// `add_dummy_prefix` prepends a space marker to every line. A round-trip still passes, because
/// decoding strips it again, so this corruption needs its own check.
pub fn no_phantom_prefix(normalizer: &Normalizer) -> (f: Finding)
    ensures
        no_phantom_prefix_is(f, *normalizer),
{
    if normalizer.add_dummy_prefix {
        return Finding::failed(
            "no_phantom_prefix",
            "add_dummy_prefix is on \u{2014} every label gains a leading space marker it did not have",
        ).graded(Severity::High, Remedy::RetrainConfig);
    }
    Finding::passed("no_phantom_prefix", "add_dummy_prefix is off \u{2014} no phantom leading space")
}

/// What `whitespace_preserved` reports.
pub open spec fn whitespace_preserved_is(f: Finding, normalizer: Normalizer) -> bool {
    &&& (normalizer.remove_extra_whitespaces ==> shows(f, "whitespace_preserved"@, Status::Failed,
            "remove_extra_whitespaces is on \u{2014} runs of spaces are folded and edges stripped"@,
            Seq::empty(), Severity::High, Remedy::RetrainConfig))
    &&& (!normalizer.remove_extra_whitespaces ==> shows_pass(f, "whitespace_preserved"@,
            "remove_extra_whitespaces is off \u{2014} whitespace reaches the tokenizer intact"@))
}

/// Whitespace in the ground truth must survive tokenization.
///
/// For OCR the whitespace is part of the label, and folding it makes the tokenizer unable to
/// reproduce the line it was asked to read.
pub fn whitespace_preserved(normalizer: &Normalizer) -> (f: Finding)
    ensures
        whitespace_preserved_is(f, *normalizer),
{
    if normalizer.remove_extra_whitespaces {
        return Finding::failed(
            "whitespace_preserved",
            "remove_extra_whitespaces is on \u{2014} runs of spaces are folded and edges stripped",
        ).graded(Severity::High, Remedy::RetrainConfig);
    }
    Finding::passed(
        "whitespace_preserved",
        "remove_extra_whitespaces is off \u{2014} whitespace reaches the tokenizer intact",
    )
}

/// The summary reporting a normalizer.
pub open spec fn normalization_summary(n: Normalizer) -> Seq<char> {
    "normalization is "@ + debug_text(if n.rule_name@.len() == 0 { "unnamed"@ } else { n.rule_name@ })
        + " \u{2014} "@ + (if n.has_charsmap {
        "folds characters before tokenizing"@
    } else {
        "no character folding"@
    }) + " (verify this matches your ground truth)"@
}

/// What `normalization_rule` reports.
pub open spec fn normalization_rule_is(f: Finding, normalizer: Normalizer) -> bool {
    &&& (shows_pass(f, "normalization_rule"@, normalization_summary(normalizer)))
}

/// What normalization the tokenizer applies, reported rather than judged: the tokenizer's
/// normalization must match the ground truth's, and the tool cannot see the ground truth.
pub fn normalization_rule(normalizer: &Normalizer) -> (f: Finding)
    ensures
        normalization_rule_is(f, *normalizer),
{
    let rule = if normalizer.rule_name.as_str().is_empty() {
        "unnamed"
    } else {
        normalizer.rule_name.as_str()
    };
    let effect = if normalizer.has_charsmap {
        "folds characters before tokenizing"
    } else {
        "no character folding"
    };
    proof {
        vstd::string::axiom_str_literal_len("unnamed");
    }
    let mut summary = owned("normalization is ");
    push_str(&mut summary, debug_quoted(rule).as_str());
    push_str(&mut summary, " \u{2014} ");
    push_str(&mut summary, effect);
    push_str(&mut summary, " (verify this matches your ground truth)");
    Finding::passed("normalization_rule", summary.as_str())
}

/// How a model type is named in a summary.
pub open spec fn model_type_text(m: ModelType) -> Seq<char> {
    match m {
        ModelType::Bpe => "BPE"@,
        ModelType::Unigram => "Unigram"@,
        ModelType::Word => "word"@,
        ModelType::Char => "char"@,
    }
}

/// What `algorithm` reports.
pub open spec fn algorithm_is(f: Finding, trainer: Trainer) -> bool {
    &&& (trainer.model_type == ModelType::Bpe ==> shows_pass(f, "algorithm"@, "model_type is BPE"@))
    &&& (trainer.model_type != ModelType::Bpe ==> shows(f, "algorithm"@, Status::Failed,
            "model_type is "@ + model_type_text(trainer.model_type) + " \u{2014} the guide recommends BPE for an OCR decoder"@,
            seq!["subword regularization is inert against one canonical segmentation, and costs determinism"@],
            Severity::Medium, Remedy::RetrainConfig))
}

/// BPE rather than Unigram.
///
/// Unigram's subword regularization is inert when the decoder trains against one canonical
/// ground-truth segmentation, and it costs determinism. A Unigram model is not broken, which is
/// why this is not a blocker.
pub fn algorithm(trainer: &Trainer) -> (f: Finding)
    ensures
        algorithm_is(f, *trainer),
{
    if trainer.model_type == ModelType::Bpe {
        return Finding::passed("algorithm", "model_type is BPE");
    }
    let mut summary = owned("model_type is ");
    push_str(&mut summary, display_model_type(trainer.model_type));
    push_str(&mut summary, " \u{2014} the guide recommends BPE for an OCR decoder");
    let mut evidence: Vec<String> = Vec::new();
    evidence.push(owned("subword regularization is inert against one canonical segmentation, and costs determinism"));
    let f = Finding::failed("algorithm", summary.as_str()).with_evidence(evidence).graded(
        Severity::Medium,
        Remedy::RetrainConfig,
    );
    f
}

/// What `split_digits` reports.
pub open spec fn split_digits_is(f: Finding, trainer: Trainer) -> bool {
    &&& (trainer.split_digits ==> shows_pass(f, "split_digits"@, "split_digits is on"@))
    &&& (!trainer.split_digits ==> shows(f, "split_digits"@, Status::Failed,
            "split_digits is off \u{2014} multi-digit tokens will form from corpus frequency"@,
            Seq::empty(), Severity::High, Remedy::RetrainConfig))
}

/// Digits split into individual tokens. Off by default, and ordinary corpus frequency is enough
/// to merge `100` into one token.
pub fn split_digits(trainer: &Trainer) -> (f: Finding)
    ensures
        split_digits_is(f, *trainer),
{
    if trainer.split_digits {
        return Finding::passed("split_digits", "split_digits is on");
    }
    Finding::failed(
        "split_digits",
        "split_digits is off \u{2014} multi-digit tokens will form from corpus frequency",
    ).graded(Severity::High, Remedy::RetrainConfig)
}

/// What `script_splitting` reports.
pub open spec fn script_splitting_is(f: Finding, trainer: Trainer) -> bool {
    &&& (trainer.split_by_unicode_script ==> shows_pass(f, "script_splitting"@, "split_by_unicode_script is on"@))
    &&& (!trainer.split_by_unicode_script ==> shows(f, "script_splitting"@, Status::Failed,
            "split_by_unicode_script is off \u{2014} pieces may merge across writing systems"@,
            Seq::empty(), Severity::Medium, Remedy::RetrainConfig))
}

/// Pieces may not form across script boundaries.
pub fn script_splitting(trainer: &Trainer) -> (f: Finding)
    ensures
        script_splitting_is(f, *trainer),
{
    if trainer.split_by_unicode_script {
        return Finding::passed("script_splitting", "split_by_unicode_script is on");
    }
    Finding::failed(
        "script_splitting",
        "split_by_unicode_script is off \u{2014} pieces may merge across writing systems",
    ).graded(Severity::Medium, Remedy::RetrainConfig)
}

/// What `trainer_settings` reports.
pub open spec fn trainer_settings_is(f: Finding, trainer: Trainer) -> bool {
    &&& (shows_pass(f, "trainer_settings"@, "vocab_size="@ + signed_decimal(trainer.vocab_size as int)
            + ", character_coverage="@ + trainer.character_coverage@ + ", max_sentencepiece_length="@
            + signed_decimal(trainer.max_piece_length as int)))
}

/// The tunables, reported for the record.
///
/// Vocabulary size, character coverage and maximum piece length are trade-offs against your
/// script mix and decoder budget. None has a threshold this tool can defend on its own, so they
/// are stated rather than graded.
pub fn trainer_settings(trainer: &Trainer) -> (f: Finding)
    ensures
        trainer_settings_is(f, *trainer),
{
    let mut summary = owned("vocab_size=");
    push_str(&mut summary, signed_string(trainer.vocab_size).as_str());
    push_str(&mut summary, ", character_coverage=");
    push_str(&mut summary, trainer.character_coverage.as_str());
    push_str(&mut summary, ", max_sentencepiece_length=");
    push_str(&mut summary, signed_string(trainer.max_piece_length).as_str());
    Finding::passed("trainer_settings", summary.as_str())
}

fn display_model_type(model_type: ModelType) -> (r: &'static str)
    ensures
        r@ == model_type_text(model_type),
{
    match model_type {
        ModelType::Bpe => "BPE",
        ModelType::Unigram => "Unigram",
        ModelType::Word => "word",
        ModelType::Char => "char",
    }
}

} // verus!
