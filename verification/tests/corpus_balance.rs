use spm_ocr::corpus::balance::{default_limit, long_lines, normalization_forms, script_balance, LimitSource};
use spm_ocr::corpus::scan::{Counts, Forms, DEFAULT_MAX_LINE_BYTES};
use spm_ocr::report::{Severity, Status};

fn counts(lines: u64, long: u64, scripts: &[(&'static str, u64)]) -> Counts {
    let mut per_script = scripts.to_vec();
    per_script.sort();
    Counts {
        lines,
        invalid_utf8: 0,
        long_lines: long,
        per_script,
        per_axis: Vec::new(),
        forms: Forms::default(),
    }
}

fn with_forms(name: &str, composed: u64, decomposed: u64, mixed: u64) -> (String, Counts) {
    let mut c = counts(composed + decomposed + mixed, 0, &[]);
    c.forms = Forms { undecidable: 0, composed, decomposed, mixed };
    (name.to_string(), c)
}

#[test]
fn shares_are_taken_over_the_lines_that_carry_the_distinction() {
    let mut ascii_heavy = counts(1000, 0, &[]);
    ascii_heavy.forms = Forms { undecidable: 900, composed: 50, decomposed: 50, mixed: 0 };

    let finding = normalization_forms(&vec![("shard.txt".to_string(), ascii_heavy)]);
    assert!(finding.summary.contains("of 100 lines that carry the distinction"), "{}", finding.summary);
    assert!(finding.summary.contains("50.0% composed"));
    assert!(finding.summary.contains("50.0% decomposed"));
}

#[test]
fn a_corpus_with_nothing_composable_skips_rather_than_dividing_by_zero() {
    let finding = normalization_forms(&vec![("shard.txt".to_string(), counts(500, 0, &[]))]);
    assert_eq!(finding.status, Status::Skipped);
    assert_eq!(finding.severity, Severity::Blocker, "a skip keeps its grade");
}

#[test]
fn the_source_needing_attention_is_named_first() {
    let totals = vec![
        with_forms("clean.txt", 100, 0, 0),
        with_forms("uniformly_nfd.txt", 0, 100, 0),
        with_forms("internally_split.txt", 50, 30, 20),
    ];

    let finding = normalization_forms(&totals);
    assert!(finding.evidence[0].starts_with("internally_split.txt"), "{:?}", finding.evidence);
    assert!(finding.evidence[2].starts_with("clean.txt"));
}

#[test]
fn a_uniformly_decomposed_source_reads_as_one_decision() {
    let finding = normalization_forms(&vec![with_forms("vendor_a.txt", 0, 12000, 0)]);
    assert!(finding.evidence[0].contains("100.0% decomposed"), "{:?}", finding.evidence);
}

#[test]
fn balance_reports_shares_worst_first() {
    let finding = script_balance(&counts(10, 0, &[("Latin", 900), ("Han", 100)]));

    assert_eq!(finding.status, Status::Passed);
    assert!(finding.evidence[0].starts_with("Latin: 90.0%"));
    assert!(finding.evidence[1].starts_with("Han: 10.0%"));
}

#[test]
fn balance_is_never_a_failure() {
    let finding = script_balance(&counts(10, 0, &[("Latin", 9900), ("Han", 100)]));
    assert_eq!(finding.status, Status::Passed);
}

#[test]
fn a_corpus_with_no_classified_characters_skips() {
    let finding = script_balance(&counts(10, 0, &[]));
    assert_eq!(finding.status, Status::Skipped);
    assert_eq!(finding.severity, Severity::Medium, "a skip keeps its grade");
}

#[test]
fn long_lines_fail_and_name_where_the_limit_came_from() {
    let finding = long_lines(&counts(1000, 12, &[]), 4192, LimitSource::Model);

    assert_eq!(finding.status, Status::Failed);
    assert_eq!(finding.severity, Severity::High);
    assert!(finding.summary.contains("12 of 1000"));
    assert!(finding.evidence[0].contains("max_sentence_length"));
}

#[test]
fn no_long_lines_passes() {
    let finding = long_lines(&counts(1000, 0, &[]), 4192, LimitSource::SentencePieceDefault);
    assert_eq!(finding.status, Status::Passed);
    assert!(finding.summary.contains("SentencePiece's default"));
}

#[test]
fn balance_lines_carry_share_and_count() {
    let finding = script_balance(&counts(10, 0, &[("Latin", 900), ("Han", 100), ("Greek", 100)]));
    assert_eq!(finding.summary, "3 writing systems across 1100 classified characters");
    assert_eq!(
        finding.evidence,
        vec!["Latin: 81.8% (900 chars)".to_string(), "Greek: 9.1% (100 chars)".to_string(), "Han: 9.1% (100 chars)".to_string()]
    );
}

#[test]
fn long_line_share_has_two_decimals() {
    let finding = long_lines(&counts(3, 1, &[]), 10, LimitSource::SentencePieceDefault);
    assert_eq!(finding.summary, "1 of 3 lines (33.33%) exceed 10 bytes and will be dropped by the trainer");
    assert_eq!(finding.evidence[1], "raise max_sentence_length, or split these lines before training");
}

#[test]
fn the_default_limit_is_sentencepieces_own() {
    assert_eq!(default_limit(), (DEFAULT_MAX_LINE_BYTES, LimitSource::SentencePieceDefault));
    assert_eq!(DEFAULT_MAX_LINE_BYTES, 4192);
}

#[test]
fn per_source_lines_read_as_shares_of_the_decidable_lines() {
    let finding = normalization_forms(&vec![with_forms("a.txt", 50, 30, 20), with_forms("b.txt", 0, 0, 0)]);
    assert_eq!(finding.summary, "of 100 lines that carry the distinction: 50.0% composed, 30.0% decomposed, 20.0% mixed");
    assert_eq!(finding.evidence, vec!["a.txt: 50.0% composed, 30.0% decomposed, 20.0% mixed of 100 lines".to_string()]);
}
