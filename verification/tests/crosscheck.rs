use spm_ocr::corpus::scan::{Counts, Forms};
use spm_ocr::crosscheck::{check, line_limit, script_coverage};
use spm_ocr::model::artifact::{Artifact, Kind, ModelType, Piece, Trainer, Vocabulary};
use spm_ocr::report::{FailureMode, Remedy, Severity, Status};

fn corpus(scripts: &[(&'static str, u64)]) -> Counts {
    let mut per_script = scripts.to_vec();
    per_script.sort();
    Counts {
        lines: 100,
        invalid_utf8: 0,
        long_lines: 0,
        per_script,
        per_axis: Vec::new(),
        forms: Forms::default(),
    }
}

fn model(pieces: &[(&str, u32)]) -> Artifact {
    let mut inventory = Vec::new();
    for (text, count) in pieces {
        for index in 0..*count {
            inventory.push(Piece::new(&format!("{text}{index}"), Kind::Normal));
        }
    }
    Artifact {
        vocabulary: Vocabulary::new(inventory),
        trainer: Some(Trainer {
            model_type: ModelType::Bpe,
            vocab_size: 400,
            byte_fallback: true,
            split_digits: true,
            split_by_unicode_script: true,
            max_piece_length: 8,
            max_line_bytes: 4192,
            character_coverage: "0.9998".to_string(),
            user_defined_symbols: Vec::new(),
        }),
        normalizer: None,
    }
}

#[test]
fn a_starved_script_is_caught_without_encoding_anything() {
    let report = script_coverage(&corpus(&[("Latin", 800), ("Devanagari", 200)]), &model(&[("word", 99), ("क", 1)]));

    assert_eq!(report.status, Status::Failed);
    assert_eq!(report.severity, Severity::Medium);
    assert_eq!(report.remedy, Remedy::FixCorpus);
    assert!(report.evidence[0].contains("Devanagari"));
}

#[test]
fn a_proportionate_split_passes() {
    let report = script_coverage(&corpus(&[("Latin", 500), ("Han", 500)]), &model(&[("word", 50), ("漢", 50)]));
    assert_eq!(report.status, Status::Passed);
}

#[test]
fn a_trace_script_is_not_judged() {
    let report = script_coverage(&corpus(&[("Latin", 1000), ("Han", 5)]), &model(&[("word", 100)]));
    assert_eq!(report.status, Status::Passed);
}

#[test]
fn the_worst_starved_script_is_reported_first() {
    let report = script_coverage(
        &corpus(&[("Latin", 500), ("Han", 300), ("Devanagari", 200)]),
        &model(&[("word", 199), ("漢", 1)]),
    );

    assert_eq!(report.status, Status::Failed);
    assert!(report.evidence[0].contains("Devanagari"), "zero pieces beats one piece: {:?}", report.evidence);
}

#[test]
fn an_empty_side_skips_rather_than_dividing_by_zero() {
    let report = script_coverage(&corpus(&[]), &model(&[("word", 10)]));
    assert_eq!(report.status, Status::Skipped);
    assert_eq!(report.severity, Severity::Medium);
}

#[test]
fn the_line_limit_comes_from_the_model() {
    assert_eq!(line_limit(&model(&[("word", 1)])), Some(4192));
}

#[test]
fn starved_scripts_are_counted_and_printed_with_both_shares() {
    let report = script_coverage(
        &corpus(&[("Latin", 500), ("Han", 300), ("Devanagari", 200)]),
        &model(&[("word", 199), ("漢", 1)]),
    );
    assert_eq!(report.summary, "2 scripts received far less vocabulary than its share of the corpus");
    assert_eq!(
        report.evidence,
        vec![
            "Devanagari: 20.0% of corpus characters, 0.0% of the vocabulary (0 pieces)".to_string(),
            "Han: 30.0% of corpus characters, 0.2% of the vocabulary (1 pieces)".to_string(),
        ]
    );
}

#[test]
fn the_cross_check_cites_its_failure_modes() {
    let mut counts = corpus(&[("Latin", 500)]);
    counts.long_lines = 3;
    let artifact = model(&[("word", 10)]);
    let report = check(&counts, &artifact, 4192);
    assert_eq!(report.findings.len(), 2);
    assert_eq!(report.findings[0].check, "long_lines");
    assert_eq!(report.findings[0].failure_mode, Some(FailureMode(15)));
    assert_eq!(report.findings[0].summary, "3 of 100 lines (3.00%) exceed 4192 bytes and will be dropped by the trainer");
    assert_eq!(report.findings[0].evidence[0], "the limit is the model's max_sentence_length (4192 bytes)");
    assert_eq!(report.findings[1].failure_mode, Some(FailureMode(13)));
    assert_eq!(report.findings[1].status, Status::Passed);
}
