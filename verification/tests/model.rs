use spm_ocr::model::artifact::{artifact_from_model_bytes, decode_model, surface, Artifact, Kind, ModelType, Normalizer, Piece, Trainer, Vocabulary};
use spm_ocr::model::budget::pieces_per_script;
use spm_ocr::model::config::{
    algorithm, no_phantom_prefix, no_unknown, normalization_rule, script_splitting, split_digits,
    trainer_settings, whitespace_preserved, BYTE_PIECES,
};
use spm_ocr::model::pieces::{
    cross_script_pieces, digit_pieces, nfc_vocabulary, protected_symbols, DEFAULT_MAX_DIGIT_PIECE_LENGTH,
};
use spm_ocr::model::suite::{check, Options};
use spm_ocr::report::{Finding, Remedy, Report, Severity, Status};
use spm_ocr::writing::{is_all_digits, writing_systems_in};

fn trainer() -> Trainer {
    Trainer {
        model_type: ModelType::Bpe,
        vocab_size: 40000,
        byte_fallback: true,
        split_digits: true,
        split_by_unicode_script: true,
        max_piece_length: 8,
        max_line_bytes: 4192,
        character_coverage: "0.9998".to_string(),
        user_defined_symbols: Vec::new(),
    }
}

fn trainer_with(symbols: &[&str]) -> Trainer {
    let mut t = trainer();
    t.user_defined_symbols = symbols.iter().map(|s| (*s).to_string()).collect();
    t
}

fn normalizer() -> Normalizer {
    Normalizer {
        rule_name: "identity".to_string(),
        has_charsmap: false,
        add_dummy_prefix: false,
        remove_extra_whitespaces: false,
    }
}

fn vocabulary(pieces: &[(&str, Kind)]) -> Vocabulary {
    Vocabulary::new(pieces.iter().map(|(text, kind)| Piece::new(text, *kind)).collect())
}

fn all_byte_pieces() -> Vocabulary {
    Vocabulary::new(
        (0..BYTE_PIECES)
            .map(|byte| Piece::new(&format!("<0x{byte:02X}>"), Kind::Byte))
            .collect(),
    )
}

fn names(text: &str) -> Vec<&'static str> {
    writing_systems_in(text).into_iter().map(|w| w.name()).collect()
}

fn lookup(counted: &[(&'static str, u64)], name: &str) -> Option<u64> {
    counted.iter().find(|(n, _)| *n == name).map(|(_, c)| *c)
}

#[test]
fn the_space_marker_reads_back_as_a_space() {
    assert_eq!(surface("▁hello"), " hello");
    assert_eq!(surface("plain"), "plain");
}

#[test]
fn machinery_pieces_are_not_inspectable() {
    let vocabulary = vocabulary(&[
        ("word", Kind::Normal),
        ("\\frac", Kind::UserDefined),
        ("<0x30>", Kind::Byte),
        ("<s>", Kind::Control),
        ("<unk>", Kind::Unknown),
        ("stale", Kind::Unused),
    ]);
    let inspected: Vec<&str> = vocabulary.inspectable().iter().map(|p| p.text.as_str()).collect();
    assert_eq!(inspected, vec!["word", "\\frac"]);
    assert_eq!(vocabulary.len(), 6);
    assert!(!vocabulary.is_empty());
}

#[test]
fn user_defined_symbols_are_found_by_kind_not_by_text() {
    let vocabulary = vocabulary(&[("\\frac", Kind::UserDefined), ("\\sum", Kind::Normal)]);
    assert!(vocabulary.has_user_defined("\\frac"));
    assert!(!vocabulary.has_user_defined("\\sum"));
}

#[test]
fn byte_pieces_are_counted_by_kind() {
    let vocabulary = vocabulary(&[("<0x00>", Kind::Byte), ("<0x01>", Kind::Byte), ("word", Kind::Normal)]);
    assert_eq!(vocabulary.count_of(Kind::Byte), 2);
}

#[test]
fn complete_byte_fallback_makes_unknown_unreachable() {
    let finding = no_unknown(&all_byte_pieces(), &trainer());
    assert_eq!(finding.status, Status::Passed);
}

#[test]
fn byte_fallback_off_is_a_blocker() {
    let mut trainer = trainer();
    trainer.byte_fallback = false;
    let finding = no_unknown(&all_byte_pieces(), &trainer);
    assert_eq!(finding.status, Status::Failed);
    assert_eq!(finding.severity, Severity::Blocker);
}

#[test]
fn byte_fallback_on_but_incomplete_is_still_a_blocker() {
    let partial = vocabulary(&[("<0x00>", Kind::Byte)]);
    let finding = no_unknown(&partial, &trainer());
    assert_eq!(finding.status, Status::Failed);
    assert!(finding.summary.contains("1 byte pieces"));
}

#[test]
fn add_dummy_prefix_on_fails() {
    let mut normalizer = normalizer();
    normalizer.add_dummy_prefix = true;
    let finding = no_phantom_prefix(&normalizer);
    assert_eq!(finding.status, Status::Failed);
    assert_eq!(finding.severity, Severity::High);
}

#[test]
fn folding_whitespace_fails_for_ocr() {
    let mut normalizer = normalizer();
    normalizer.remove_extra_whitespaces = true;
    assert_eq!(whitespace_preserved(&normalizer).status, Status::Failed);
}

#[test]
fn a_folding_normalizer_is_reported_not_failed() {
    let mut normalizer = normalizer();
    normalizer.rule_name = "nfkc".to_string();
    normalizer.has_charsmap = true;
    let finding = normalization_rule(&normalizer);
    assert_eq!(finding.status, Status::Passed);
    assert!(finding.summary.contains("folds characters"));
    assert!(finding.summary.contains("verify"));
}

#[test]
fn an_unnamed_normalizer_is_called_unnamed() {
    let mut normalizer = normalizer();
    normalizer.rule_name = String::new();
    assert_eq!(
        normalization_rule(&normalizer).summary,
        "normalization is \"unnamed\" \u{2014} no character folding (verify this matches your ground truth)"
    );
}

#[test]
fn unigram_is_flagged_but_is_not_a_blocker() {
    let mut trainer = trainer();
    trainer.model_type = ModelType::Unigram;
    let finding = algorithm(&trainer);
    assert_eq!(finding.status, Status::Failed);
    assert_eq!(finding.severity, Severity::Medium);
    assert!(finding.summary.contains("Unigram"));
}

#[test]
fn split_digits_off_fails() {
    let mut trainer = trainer();
    trainer.split_digits = false;
    assert_eq!(split_digits(&trainer).status, Status::Failed);
}

#[test]
fn script_splitting_off_fails() {
    let mut trainer = trainer();
    trainer.split_by_unicode_script = false;
    assert_eq!(script_splitting(&trainer).status, Status::Failed);
}

#[test]
fn tunables_are_reported_never_graded() {
    let finding = trainer_settings(&trainer());
    assert_eq!(finding.status, Status::Passed);
    assert!(finding.summary.contains("40000"));
    assert_eq!(
        finding.summary,
        "vocab_size=40000, character_coverage=0.9998, max_sentencepiece_length=8"
    );
}

#[test]
fn a_merged_multi_digit_piece_fails() {
    let vocabulary = vocabulary(&[("100", Kind::Normal), ("7", Kind::Normal)]);
    let finding = digit_pieces(&vocabulary, DEFAULT_MAX_DIGIT_PIECE_LENGTH);
    assert_eq!(finding.status, Status::Failed);
    assert_eq!(finding.severity, Severity::High);
    assert_eq!(finding.evidence, vec!["\"100\""]);
}

#[test]
fn a_digit_piece_is_reported_with_its_space_marker_intact() {
    let vocabulary = vocabulary(&[("▁250", Kind::Normal)]);
    let finding = digit_pieces(&vocabulary, 1);
    assert_eq!(finding.evidence, vec!["\"▁250\""]);
}

#[test]
fn byte_pieces_never_count_as_digit_pieces() {
    let vocabulary = vocabulary(&[("<0x30>", Kind::Byte)]);
    assert_eq!(digit_pieces(&vocabulary, 1).status, Status::Passed);
}

#[test]
fn a_piece_spanning_two_scripts_fails() {
    let vocabulary = vocabulary(&[("a漢", Kind::Normal), ("hello", Kind::Normal)]);
    let finding = cross_script_pieces(&vocabulary, true);
    assert_eq!(finding.status, Status::Failed);
    assert!(finding.evidence[0].contains("Han+Latin"));
}

#[test]
fn digit_letter_merges_are_optional() {
    let vocabulary = vocabulary(&[("3D", Kind::Normal)]);
    assert_eq!(cross_script_pieces(&vocabulary, true).status, Status::Failed);
    assert_eq!(
        cross_script_pieces(&vocabulary, false).status,
        Status::Passed,
        "opted out, so a digit fusing with a letter is allowed"
    );
}

#[test]
fn a_decomposed_piece_fails_as_a_corpus_defect() {
    let vocabulary = vocabulary(&[("cafe\u{0301}", Kind::Normal)]);
    let finding = nfc_vocabulary(&vocabulary);
    assert_eq!(finding.status, Status::Failed);
    assert_eq!(finding.severity, Severity::Blocker);
    assert_eq!(finding.remedy, Remedy::FixCorpus, "retraining alone reproduces it exactly");
}

#[test]
fn composed_pieces_pass() {
    let vocabulary = vocabulary(&[("café", Kind::Normal), ("漢字", Kind::Normal)]);
    assert_eq!(nfc_vocabulary(&vocabulary).status, Status::Passed);
}

#[test]
fn a_declared_symbol_that_did_not_survive_fails() {
    let vocabulary = vocabulary(&[("\\frac", Kind::UserDefined)]);
    let finding = protected_symbols(&vocabulary, &trainer_with(&["\\frac", "\\sum"]));
    assert_eq!(finding.status, Status::Failed);
    assert!(finding.evidence[0].contains("\\\\sum"));
    assert_eq!(finding.summary, "1 of 2 protected symbols did not survive training");
}

#[test]
fn declared_symbols_all_present_pass() {
    let vocabulary = vocabulary(&[("\\frac", Kind::UserDefined)]);
    let finding = protected_symbols(&vocabulary, &trainer_with(&["\\frac"]));
    assert_eq!(finding.status, Status::Passed);
}

#[test]
fn a_skipped_symbol_check_keeps_its_severity() {
    let finding = protected_symbols(&vocabulary(&[]), &trainer_with(&[]));
    assert_eq!(finding.status, Status::Skipped);
    assert_eq!(finding.severity, Severity::High);
}

#[test]
fn pieces_are_attributed_to_their_script() {
    let counted = pieces_per_script(&vocabulary(&[
        ("hello", Kind::Normal),
        ("world", Kind::Normal),
        ("漢字", Kind::Normal),
    ]));
    assert_eq!(lookup(&counted, "Latin"), Some(2));
    assert_eq!(lookup(&counted, "Han"), Some(1));
}

#[test]
fn a_piece_counts_once_per_script_not_once_per_character() {
    let counted = pieces_per_script(&vocabulary(&[("hello", Kind::Normal)]));
    assert_eq!(lookup(&counted, "Latin"), Some(1), "one piece, not five chars");
}

#[test]
fn a_cross_script_piece_counts_under_both() {
    let counted = pieces_per_script(&vocabulary(&[("a漢", Kind::Normal)]));
    assert_eq!(lookup(&counted, "Latin"), Some(1));
    assert_eq!(lookup(&counted, "Han"), Some(1));
}

#[test]
fn machinery_pieces_are_excluded() {
    let counted = pieces_per_script(&vocabulary(&[("<0x41>", Kind::Byte), ("<s>", Kind::Control)]));
    assert!(counted.is_empty(), "byte and control pieces are not text");
}

#[test]
fn the_tally_is_listed_by_name() {
    let counted = pieces_per_script(&vocabulary(&[("漢", Kind::Normal), ("a", Kind::Normal), ("1", Kind::Normal)]));
    let listed: Vec<&str> = counted.iter().map(|(n, _)| *n).collect();
    assert_eq!(listed, vec!["Digit", "Han", "Latin"]);
}

#[test]
fn a_single_script_piece_reports_one_system() {
    assert_eq!(names("hello"), vec!["Latin"]);
    assert_eq!(names("漢字"), vec!["Han"]);
}

#[test]
fn punctuation_and_marks_belong_to_no_writing_system() {
    assert_eq!(names("-.,!"), Vec::<&str>::new());
    assert_eq!(names("cafe\u{301}"), vec!["Latin"], "a combining mark is Inherited");
}

#[test]
fn a_piece_spanning_two_scripts_reports_both() {
    assert_eq!(names("aあ"), vec!["Hiragana", "Latin"]);
}

#[test]
fn script_neutral_digits_are_their_own_system() {
    assert_eq!(names("123"), vec!["Digit"]);
    assert_eq!(names("３"), vec!["Digit"], "fullwidth digits too");
    assert_eq!(names("3D"), vec!["Digit", "Latin"], "the documented merge");
}

#[test]
fn a_digit_belonging_to_a_script_stays_with_it() {
    assert_eq!(names("\u{0966}"), vec!["Devanagari"]);
}

#[test]
fn ordering_is_stable_regardless_of_character_order() {
    assert_eq!(names("aあ"), names("あa"));
}

#[test]
fn digits_are_recognised_beyond_ascii() {
    assert!(is_all_digits("100"));
    assert!(is_all_digits("１００"), "fullwidth");
    assert!(!is_all_digits("10a"));
    assert!(!is_all_digits(""), "no digits is not all digits");
}

fn healthy_vocabulary() -> Vocabulary {
    let mut pieces: Vec<Piece> = (0..256)
        .map(|byte| Piece::new(&format!("<0x{byte:02X}>"), Kind::Byte))
        .collect();
    pieces.push(Piece::new("hello", Kind::Normal));
    pieces.push(Piece::new("漢字", Kind::Normal));
    Vocabulary::new(pieces)
}

fn healthy() -> Artifact {
    Artifact {
        vocabulary: healthy_vocabulary(),
        trainer: Some(trainer()),
        normalizer: Some(normalizer()),
    }
}

fn finding<'a>(report: &'a Report, name: &str) -> &'a Finding {
    report
        .findings
        .iter()
        .find(|f| f.check == name)
        .unwrap_or_else(|| panic!("no finding named {name}"))
}

#[test]
fn a_model_following_the_guide_has_no_failures() {
    let report = check(&healthy(), &Options::default());
    assert!(report.ok(), "unexpected failures: {:?}", report.findings);
}

#[test]
fn the_two_encode_dependent_checks_are_skipped_with_a_reason() {
    let report = check(&healthy(), &Options::default());
    for name in ["fertility", "byte_fallback_rate"] {
        let skipped = finding(&report, name);
        assert_eq!(skipped.status, Status::Skipped);
        assert!(skipped.summary.contains("encoding text"));
    }
}

#[test]
fn a_skipped_check_keeps_the_severity_it_stands_in_for() {
    let report = check(&healthy(), &Options::default());
    assert_eq!(finding(&report, "byte_fallback_rate").severity, Severity::High);
}

#[test]
fn a_model_missing_its_trainer_spec_skips_rather_than_assumes() {
    let artifact = Artifact { trainer: None, ..healthy() };
    let report = check(&artifact, &Options::default());
    let skipped = finding(&report, "no_unknown");
    assert_eq!(skipped.status, Status::Skipped);
    assert_eq!(skipped.severity, Severity::Blocker);
    assert!(report.ok(), "a skip is not a failure");
}

#[test]
fn defects_surface_as_failures() {
    let mut trainer = trainer();
    trainer.byte_fallback = false;
    trainer.split_digits = false;
    let mut normalizer = normalizer();
    normalizer.add_dummy_prefix = true;
    let artifact = Artifact {
        vocabulary: healthy_vocabulary(),
        trainer: Some(trainer),
        normalizer: Some(normalizer),
    };
    let report = check(&artifact, &Options::default());
    assert!(!report.ok());
    assert_eq!(report.worst_severity(), Severity::Blocker);
    assert_eq!(finding(&report, "no_unknown").status, Status::Failed);
    assert_eq!(finding(&report, "split_digits").status, Status::Failed);
    assert_eq!(finding(&report, "no_phantom_prefix").status, Status::Failed);
}

#[test]
fn an_empty_vocabulary_skips_the_piece_checks() {
    let artifact = Artifact { vocabulary: Vocabulary::new(Vec::new()), ..healthy() };
    let report = check(&artifact, &Options::default());
    assert_eq!(finding(&report, "nfc_vocabulary").status, Status::Skipped);
}

#[test]
fn the_suite_runs_every_check_in_order() {
    let report = check(&healthy(), &Options::default());
    let order: Vec<&str> = report.findings.iter().map(|f| f.check.as_str()).collect();
    assert_eq!(
        order,
        vec![
            "digit_pieces",
            "cross_script_pieces",
            "nfc_vocabulary",
            "no_unknown",
            "protected_symbols",
            "algorithm",
            "split_digits",
            "script_splitting",
            "trainer_settings",
            "no_phantom_prefix",
            "whitespace_preserved",
            "normalization_rule",
            "fertility",
            "byte_fallback_rate",
        ]
    );
}

#[test]
fn model_bytes_decode_into_the_artifact_the_checks_read() {
    let empty = decode_model(&[]).expect("an empty protobuf is a model with nothing recorded");
    assert!(empty.pieces.is_empty());
    assert!(empty.trainer.is_none());
    assert!(empty.normalizer.is_none());
    let artifact = artifact_from_model_bytes(&[], &[], "").expect("decodes");
    assert_eq!(artifact.vocabulary.len(), 0);
    assert!(artifact.trainer.is_none());
    assert!(decode_model(&[0xFF, 0xFF, 0xFF]).is_none());
    assert!(artifact_from_model_bytes(&[0xFF, 0xFF, 0xFF], &[], "").is_none());
    assert!(artifact_from_model_bytes(&[], &[1], "").is_none());
}
