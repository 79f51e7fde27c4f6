use spm_ocr::render::{as_text, format_finding, next_steps, severity_word};
use spm_ocr::report::{Finding, Remedy, Report, Severity};

#[test]
fn text_output_leads_with_failures_and_names_severity() {
    let report = Report::new(vec![
        Finding::passed("clean", "fine"),
        Finding::failed("broken", "bad").graded(Severity::Blocker, Remedy::FixCorpus),
    ]);
    let text = as_text(&report);

    assert!(text.starts_with("FAIL [blocker]  broken: bad"), "got:\n{text}");
    assert!(text.contains("1 passed, 1 failed, 0 skipped"));
}

#[test]
fn corpus_fixes_are_ordered_before_retrains() {
    let report = Report::new(vec![
        Finding::failed("cfg", "x").graded(Severity::High, Remedy::RetrainConfig),
        Finding::failed("data", "y").graded(Severity::Blocker, Remedy::FixCorpus),
    ]);
    let text = as_text(&report);
    let corpus = text.find("canonicalize the corpus").unwrap();
    let retrain = text.find("change the trainer flags").unwrap();

    assert!(corpus < retrain);
    assert!(text.contains("survives any number of retrains"));
}

#[test]
fn a_clean_report_suggests_nothing() {
    let report = Report::new(vec![Finding::passed("a", "fine")]);
    assert!(!as_text(&report).contains("Next:"));
}

#[test]
fn a_whole_report_renders_exactly() {
    let report = Report::new(vec![
        Finding::passed("clean", "fine"),
        Finding::failed("broken", "bad")
            .with_evidence(vec!["first".to_string(), "second".to_string()])
            .graded(Severity::High, Remedy::RetrainConfig),
    ]);
    assert_eq!(
        as_text(&report),
        "FAIL [high]  broken: bad\n        first\n        second\nPASS  clean: fine\n\n1 passed, 1 failed, 0 skipped\n\nNext:\n  1. change the trainer flags and retrain"
    );
}

#[test]
fn a_skip_shows_its_severity() {
    let skipped = Finding::skipped("fertility", "needs encoding").graded(Severity::Medium, Remedy::RetrainConfig);
    assert_eq!(format_finding(&skipped), "SKIP [medium]  fertility: needs encoding");
}

#[test]
fn severities_have_lowercase_words() {
    assert_eq!(severity_word(Severity::Blocker), "blocker");
    assert_eq!(severity_word(Severity::Info), "info");
}

#[test]
fn a_remedy_of_nothing_is_never_a_step() {
    let report = Report::new(vec![
        Finding::failed("odd", "x").graded(Severity::High, Remedy::NotApplicable),
    ]);
    assert!(next_steps(&report).is_empty());
}
