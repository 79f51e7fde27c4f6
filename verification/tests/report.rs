use spm_ocr::report::{Finding, FailureMode, Remedy, Report, Severity, Status, MAX_EVIDENCE};

fn failure(severity: Severity, remedy: Remedy) -> Finding {
    Finding::failed("c", "s").graded(severity, remedy)
}

#[test]
fn severity_orders_worst_first() {
    assert!(Severity::Blocker < Severity::High);
    assert!(Severity::High < Severity::Medium);
    assert!(Severity::Medium < Severity::Info);
}

#[test]
fn worst_severity_ignores_passes() {
    let report = Report::new(vec![
        Finding::passed("a", "fine"),
        failure(Severity::Medium, Remedy::RetrainConfig),
        failure(Severity::Blocker, Remedy::FixCorpus),
    ]);
    assert_eq!(report.worst_severity(), Severity::Blocker);
}

#[test]
fn a_clean_run_reports_info_and_exits_zero() {
    let report = Report::new(vec![Finding::passed("a", "fine")]);
    assert_eq!(report.worst_severity(), Severity::Info);
    assert_eq!(report.exit_code(Severity::Info), 0);
}

#[test]
fn exit_code_respects_the_threshold() {
    let report = Report::new(vec![failure(Severity::Medium, Remedy::RetrainConfig)]);
    assert_eq!(report.exit_code(Severity::High), 0, "medium is below high");
    assert_eq!(report.exit_code(Severity::Medium), 1);
    assert_eq!(report.exit_code(Severity::Info), 1);
}

#[test]
fn remedies_come_back_in_application_order() {
    let report = Report::new(vec![
        failure(Severity::High, Remedy::RetrainConfig),
        failure(Severity::Blocker, Remedy::FixCorpus),
        failure(Severity::High, Remedy::RetrainConfig),
    ]);
    assert_eq!(
        report.remedies(),
        vec![Remedy::FixCorpus, Remedy::RetrainConfig],
        "a corpus defect survives any number of retrains, so it is fixed first"
    );
}

#[test]
fn ranking_reads_failures_then_skips_then_passes() {
    let report = Report::new(vec![
        Finding::passed("zzz", "fine"),
        Finding::skipped("mmm", "no samples"),
        failure(Severity::High, Remedy::RetrainConfig),
        failure(Severity::Blocker, Remedy::FixCorpus),
    ]);
    let order: Vec<Status> = report.ranked().iter().map(|f| f.status).collect();
    assert_eq!(
        order,
        vec![Status::Failed, Status::Failed, Status::Skipped, Status::Passed]
    );
    assert_eq!(report.ranked()[0].severity, Severity::Blocker);
}

#[test]
fn a_pass_never_carries_a_grade_to_act_on() {
    let passed = Finding::passed("c", "s").graded(Severity::Blocker, Remedy::FixCorpus);
    assert_eq!(passed.severity, Severity::Info);
    assert_eq!(passed.remedy, Remedy::NotApplicable);
}

#[test]
fn a_skip_keeps_the_severity_of_the_check_it_stands_in_for() {
    let skipped = Finding::skipped("c", "no samples").graded(Severity::Blocker, Remedy::FixCorpus);
    assert_eq!(skipped.severity, Severity::Blocker);
    assert_eq!(skipped.remedy, Remedy::FixCorpus);
}

#[test]
fn a_graded_skip_still_does_not_fail_the_run() {
    let report = Report::new(vec![
        Finding::skipped("c", "no samples").graded(Severity::Blocker, Remedy::FixCorpus),
    ]);
    assert!(report.ok(), "a skip is not a failure");
    assert_eq!(report.exit_code(Severity::Blocker), 0);
    assert_eq!(report.worst_severity(), Severity::Info);
}

#[test]
fn evidence_is_truncated_to_what_gets_read() {
    let many: Vec<String> = (0..50).map(|n| n.to_string()).collect();
    assert_eq!(
        Finding::failed("c", "s").with_evidence(many).evidence.len(),
        MAX_EVIDENCE
    );
}

#[test]
fn counts_are_per_status() {
    let report = Report::new(vec![
        Finding::passed("a", "fine"),
        Finding::passed("b", "fine"),
        Finding::skipped("c", "no samples"),
        failure(Severity::High, Remedy::RetrainConfig),
    ]);
    assert_eq!(report.count(Status::Passed), 2);
    assert_eq!(report.count(Status::Skipped), 1);
    assert_eq!(report.count(Status::Failed), 1);
    assert!(!report.ok());
}

#[test]
fn ties_in_rank_read_by_check_name() {
    let report = Report::new(vec![
        Finding::failed("beta", "x").graded(Severity::High, Remedy::RetrainConfig),
        Finding::failed("alpha", "y").graded(Severity::High, Remedy::RetrainConfig),
    ]);
    let names: Vec<&str> = report.ranked().iter().map(|f| f.check.as_str()).collect();
    assert_eq!(names, vec!["alpha", "beta"]);
}

#[test]
fn extending_a_report_appends_its_findings() {
    let mut report = Report::new(vec![Finding::passed("a", "fine")]);
    report.extend(Report::new(vec![failure(Severity::Blocker, Remedy::FixCorpus)]));
    assert_eq!(report.findings.len(), 2);
    assert_eq!(report.findings[1].check, "c");
    assert_eq!(report.exit_code(Severity::Blocker), 1);
}

#[test]
fn a_citation_names_the_mode_and_the_guide() {
    assert_eq!(
        FailureMode(12).citation(),
        "failure mode #12 \u{2014} docs/09-failure-modes.md"
    );
    let cited = Finding::failed("c", "s").about(12);
    assert_eq!(cited.failure_mode, Some(FailureMode(12)));
}

#[test]
fn each_remedy_names_its_next_step() {
    assert_eq!(Remedy::FixCorpus.next_step(), "canonicalize the corpus, then retrain");
    assert_eq!(Remedy::RetrainConfig.next_step(), "change the trainer flags and retrain");
}
