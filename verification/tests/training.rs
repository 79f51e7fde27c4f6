use spm_ocr::report::{Finding, Report, Status};
use spm_ocr::train::{BucketCounts, CorpusPlan, MathPolicy, PrepareError};
use spm_ocr::training::{
    axis_handled_by_training, handled_preflight_finding, preflight_gate, math_policy_summary, prepare_options,
    report_preflight_for_training, sentencepiece_args, sentencepiece_model_path, sentencepiece_output_path,
    sentencepiece_vocab_path, symbols_from_text, trainer_settings, training_file_policy,
    training_handles_preflight_failure, training_report, unresolved_preflight_failures, user_defined_symbols,
    PreflightPolicy, TrainConfig, TrainConfigError, TrainOptions, TrainerBackend,
};

fn policy(drop_invalid: bool, drop_long_lines: bool, decide: &[&str]) -> PreflightPolicy {
    PreflightPolicy { drop_invalid, drop_long_lines, decide: decide.iter().map(|s| s.to_string()).collect() }
}

fn config(paths: &[&str]) -> TrainConfig {
    TrainConfig {
        paths: paths.iter().map(|s| s.to_string()).collect(),
        model_prefix: "runs/ocr".to_owned(),
        lines: 1000,
        alpha_bits: 0.3f64.to_bits(),
        seed: 7,
        vocab_size: 8000,
        character_coverage_bits: 0.9995f64.to_bits(),
        max_sentence_length: 4096,
        max_sentencepiece_length: 16,
        shuffle_buffer_lines: 100,
        memory_budget_gb: 1,
        training_temp_dir: None,
        keep_training_file: false,
        balance_math: true,
        math_max_share_bits: 0.1f64.to_bits(),
        spm_threads: None,
        trainer_backend: TrainerBackend::SpmTrain,
        spm_train: "spm_train".to_owned(),
        decide: vec!["soft_hyphen_line_final".to_owned()],
        drop_invalid: true,
        drop_long_lines: false,
        user_defined_symbols: vec!["\\frac".to_owned()],
        user_defined_symbols_file: None,
    }
}

fn options() -> TrainOptions {
    config(&["corpus"]).into_options().unwrap()
}

#[test]
fn a_config_without_paths_is_refused() {
    let error = config(&[]).into_options().unwrap_err();
    assert_eq!(error, TrainConfigError::NoPaths);
    assert_eq!(error.message(), "train config must include at least one path");
    let options = config(&["a", "b"]).into_options().unwrap();
    assert_eq!(options.paths, vec!["a".to_owned(), "b".to_owned()]);
    assert_eq!(options.user_defined_symbol, vec!["\\frac".to_owned()]);
}

#[test]
fn collapsing_axes_are_always_handled_and_decided_ones_only_when_named() {
    let named = policy(false, false, &["soft_hyphen_line_final"]);
    assert!(axis_handled_by_training("axis[nbsp]", &named));
    assert!(axis_handled_by_training("axis[soft_hyphen_line_final]", &named));
    assert!(!axis_handled_by_training("axis[soft_hyphen_mid_line]", &named));
    assert!(!axis_handled_by_training("axis[ligatures]", &named));
    assert!(!axis_handled_by_training("axis[no_such_axis]", &named));
    assert!(!axis_handled_by_training("nbsp", &named));
    assert!(!axis_handled_by_training("axis[nbsp", &named));
}

#[test]
fn dropping_settles_invalid_and_long_lines() {
    let invalid = Finding::failed("invalid_utf8", "3 lines");
    let long = Finding::failed("long_lines", "2 lines");
    assert!(training_handles_preflight_failure(&invalid, &policy(true, false, &[])));
    assert!(!training_handles_preflight_failure(&invalid, &policy(false, true, &[])));
    assert!(training_handles_preflight_failure(&long, &policy(false, true, &[])));
    assert!(!training_handles_preflight_failure(&Finding::failed("script_balance", "x"), &policy(true, true, &[])));
}

#[test]
fn handled_failures_are_restated_and_the_rest_still_count() {
    let report = Report::new(vec![
        Finding::failed("invalid_utf8", "3 lines are not UTF-8").with_evidence(vec!["line 4".to_owned()]).about(4),
        Finding::failed("axis[ligatures]", "ligatures found"),
        Finding::passed("axis[nbsp]", "clean"),
        Finding::failed("axis[nbsp]", "nbsp found"),
    ]);
    let p = policy(true, false, &[]);
    assert_eq!(unresolved_preflight_failures(&report, &p), 1);

    let shown = report_preflight_for_training(report, &p);
    assert_eq!(shown.findings.len(), 4);
    assert_eq!(shown.findings[0].check, "preflight[invalid_utf8]");
    assert_eq!(shown.findings[0].summary, "3 lines are not UTF-8; handled by the training stream");
    assert_eq!(shown.findings[0].status, Status::Passed);
    assert_eq!(shown.findings[0].evidence, vec!["line 4".to_owned()]);
    assert_eq!(shown.findings[0].failure_mode.map(|m| m.0), Some(4));
    assert_eq!(shown.findings[1].check, "axis[ligatures]");
    assert_eq!(shown.findings[1].status, Status::Failed);
    assert_eq!(shown.findings[2].check, "axis[nbsp]");
    assert_eq!(shown.findings[3].check, "preflight[axis[nbsp]]");

    let handled = handled_preflight_finding(Finding::failed("long_lines", "too long"));
    assert_eq!(handled.check, "preflight[long_lines]");
    assert!(!handled.is_failure());
}

#[test]
fn output_paths_add_the_extension_to_the_prefix() {
    assert_eq!(sentencepiece_model_path("runs/ocr.v2"), "runs/ocr.v2.model");
    assert_eq!(sentencepiece_vocab_path("runs/ocr"), "runs/ocr.vocab");
    assert_eq!(sentencepiece_output_path("tok", "model"), "tok.model");
    assert_eq!(sentencepiece_output_path("runs/..", "model"), "runs/...model");
}

#[test]
fn a_symbols_file_lists_one_symbol_per_line() {
    assert_eq!(symbols_from_text("\\alpha\n  \\beta \r\n\n\t\n∑"), vec!["\\alpha", "\\beta", "∑"]);
    assert!(symbols_from_text("").is_empty());
    let args = options();
    assert_eq!(user_defined_symbols(&args, Some("x\ny\n")), vec!["\\frac", "x", "y"]);
    assert_eq!(user_defined_symbols(&args, None), vec!["\\frac"]);
}

#[test]
fn preparation_options_follow_the_train_options() {
    let args = options();
    let prepared = prepare_options(&args).unwrap();
    assert_eq!(prepared.memory_budget_bytes, 1 << 30);
    assert_eq!(prepared.max_line_bytes, 4096);
    assert_eq!(prepared.math_policy, MathPolicy::Balanced { max_share_bits: 0.1f64.to_bits() });

    let mut huge = options();
    huge.memory_budget_gb = u64::MAX;
    assert_eq!(prepare_options(&huge).unwrap().memory_budget_bytes, u64::MAX);

    let mut none = options();
    none.lines = 0;
    assert!(matches!(prepare_options(&none), Err(PrepareError::ZeroTargetLines)));
}

#[test]
fn the_trainer_runs_with_the_configured_threads_or_a_default() {
    let args = options();
    let prepared = prepare_options(&args).unwrap();
    let symbols = vec!["\\frac".to_owned(), "\\sqrt".to_owned()];
    let settings = trainer_settings("<fifo>", &args, &prepared, &symbols, None);
    assert_eq!(settings.num_threads, 16);
    assert_eq!(trainer_settings("<fifo>", &args, &prepared, &symbols, Some(0)).num_threads, 1);
    assert_eq!(trainer_settings("<fifo>", &args, &prepared, &symbols, Some(6)).num_threads, 6);

    let spm = sentencepiece_args(&settings, "0.9995");
    assert_eq!(spm.len(), 19);
    assert_eq!(spm[0], "--input=<fifo>");
    assert_eq!(spm[1], "--model_prefix=runs/ocr");
    assert_eq!(spm[3], "--vocab_size=8000");
    assert_eq!(spm[4], "--character_coverage=0.9995");
    assert_eq!(spm[14], "--input_sentence_size=1000");
    assert_eq!(spm[17], "--num_threads=16");
    assert_eq!(spm[18], "--user_defined_symbols=\\frac,\\sqrt");
    assert_eq!(sentencepiece_args(&trainer_settings("f", &args, &prepared, &vec![], None), "1").len(), 18);
}

#[test]
fn the_training_report_shows_each_bucket() {
    let plan = CorpusPlan {
        chunks: vec![],
        bucket_counts: BucketCounts { math: 40, text: vec![("cyrillic", 300), ("latin", 1_200)], unclassified: 0 },
        bucket_quotas: BucketCounts { math: 10, text: vec![("cyrillic", 300), ("latin", 600)], unclassified: 0 },
        eligible_lines: 1_540,
        selected_lines: 910,
        invalid_utf8: 0,
        long_lines: 0,
        math_lines: 40,
    };
    let args = options();
    let prepared = prepare_options(&args).unwrap();
    let report = training_report(&plan, &args, &prepared, "0.3", "10.0");
    assert_eq!(
        report.findings[0].summary,
        "1,540 eligible lines across 3 buckets; 910 selected after alpha=0.3; math lines: 40 (balanced with max share 10.0%)"
    );
    assert_eq!(
        report.findings[0].evidence,
        vec!["math: 10 selected of 40 eligible", "text:cyrillic: 300 selected of 300 eligible", "text:latin: 600 selected of 1,200 eligible"]
    );
    assert_eq!(
        report.findings[1].summary,
        "bounded shuffle buffer: 100 lines, max line: 4096 bytes, Rust memory budget: 1073741824 bytes; prepared input file is deleted after training"
    );
    assert_eq!(training_file_policy(true), "kept after training");
    let mut unbalanced = options();
    unbalanced.balance_math = false;
    assert_eq!(math_policy_summary(&unbalanced, "10.0"), "reported, not balanced separately");
}

#[test]
fn preflight_gate_stops_on_a_failure_training_cannot_handle() {
    let report = Report {
        findings: vec![
            Finding::failed("invalid_utf8", "3 lines do not decode"),
            Finding::failed("long_lines", "12 lines exceed the limit"),
        ],
    };
    let (presented, proceed) = preflight_gate(report, &policy(true, false, &[]));
    assert!(!proceed);
    assert_eq!(presented.findings.len(), 3);
    assert_eq!(presented.findings[0].check, "preflight[invalid_utf8]");
    assert_eq!(presented.findings[1].check, "long_lines");
    assert_eq!(presented.findings[2].check, "training_stream");
    assert_eq!(presented.findings[2].status, Status::Skipped);
}

#[test]
fn preflight_gate_goes_on_when_every_failure_is_handled() {
    let report = Report { findings: vec![Finding::failed("invalid_utf8", "3 lines do not decode")] };
    let (presented, proceed) = preflight_gate(report, &policy(true, false, &[]));
    assert!(proceed);
    assert_eq!(presented.findings.len(), 1);
    assert_eq!(presented.findings[0].status, Status::Passed);
}
