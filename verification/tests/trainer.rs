use spm_ocr::config::{
    BalanceAxis, BalancingConfig, BalancingMode, CanonicalizationConfig, CorpusConfig, EffectiveConfig, LinePolicy,
    ModelType, NormalizationRuleName, OutputConfig, PythonTrainerConfig, SentencePieceConfig, SoftHyphenPolicy,
    StripRule, TrainerKind, UnicodeForm, ValidationConfig, ValidationMode,
};
use spm_ocr::trainer::{build_trainer_request, finished_run, TrainerStatus, CapturedOutput, StreamName, TrainSummary, TrainerError, TrainerPaths};

fn config(work_dir: &str) -> EffectiveConfig {
    EffectiveConfig {
        preset: "ocr_multilingual".to_owned(),
        num_threads: 16,
        corpus: CorpusConfig { path: "raw".to_owned() },
        output: OutputConfig { work_dir: work_dir.to_owned(), model_prefix: "ocr_tokenizer".to_owned() },
        canonicalization: CanonicalizationConfig {
            unicode_form: UnicodeForm::Nfc,
            strip: vec![StripRule::Bom, StripRule::ZeroWidthSpace],
            map_nbsp_to_space: true,
            fold_arabic_presentation_forms: true,
            soft_hyphen: SoftHyphenPolicy::LineFinalToHyphenMidlineStrip,
            preserve_zwj_zwnj: true,
            preserve_compatibility_chars: true,
        },
        balancing: BalancingConfig {
            enabled: true,
            mode: BalancingMode::Conservative,
            total_lines: 20_000_000,
            alpha_bits: 0.7f64.to_bits(),
            hierarchy: vec![
                BalanceAxis::Domain,
                BalanceAxis::Script,
                BalanceAxis::LanguageHint,
                BalanceAxis::SourceGroup,
                BalanceAxis::LengthBin,
            ],
            min_keep_fraction_bits: 0.5f64.to_bits(),
            max_downsample_ratio_bits: 4.0f64.to_bits(),
            collapse_buckets_below_lines: 1000,
            max_part_lines: 1_000_000,
            shuffle_seed: 1337,
        },
        sentencepiece: SentencePieceConfig {
            trainer: TrainerKind::PythonSentencepiece,
            python: PythonTrainerConfig {
                runner: "uv".to_owned(),
                args: vec!["run".to_owned(), "python".to_owned()],
                module: "spm_ocr_train_bridge".to_owned(),
            },
            model_type: ModelType::Bpe,
            vocab_size: 40_000,
            character_coverage_bits: 0.9998f64.to_bits(),
            byte_fallback: true,
            normalization_rule_name: NormalizationRuleName::Identity,
            add_dummy_prefix: false,
            remove_extra_whitespaces: false,
            split_by_unicode_script: true,
            split_by_whitespace: true,
            split_digits: true,
            max_sentencepiece_length: 8,
            max_sentence_length: 16_384,
            input_sentence_size: 20_000_000,
            shuffle_input_sentence: true,
            train_extremely_large_corpus: true,
            user_defined_symbols: vec!["\\frac".to_owned()],
        },
        validation: ValidationConfig {
            mode: ValidationMode::Report,
            line_policy: LinePolicy::FixOrSkip,
            issue_log: "reports/corpus_issues.jsonl".to_owned(),
            include_line_text_in_log: false,
            round_trip_sample_per_bucket: 1000,
        },
        repaired_settings: Vec::new(),
    }
}

#[test]
fn builds_replayable_trainer_request() {
    let config = config("runs/demo");
    let paths = TrainerPaths::from_config(&config);

    let corpus_paths = vec![
        "runs/demo/train_corpus/text-latin-en.txt".to_owned(),
        "runs/demo/train_corpus/text-cyrillic-uk.txt".to_owned(),
    ];
    let request = build_trainer_request(&config, &corpus_paths, &paths);

    assert_eq!(request.sentencepiece.input, corpus_paths);
    assert_eq!(request.sentencepiece.model_prefix, "runs/demo/ocr_tokenizer");
    assert_eq!(request.sentencepiece.model_type, "bpe");
    assert_eq!(request.sentencepiece.normalization_rule_name, "identity");
    assert_eq!(request.sentencepiece.num_threads, 16);
    assert_eq!(request.output.model, "runs/demo/ocr_tokenizer.model");
    assert_eq!(request.output.vocab, "runs/demo/ocr_tokenizer.vocab");
}

#[test]
fn trainer_files_sit_in_the_work_directory() {
    let paths = TrainerPaths::from_config(&config("runs/demo"));

    assert_eq!(paths.request, "runs/demo/trainer_request.json");
    assert_eq!(paths.output, "runs/demo/trainer_output.json");
    assert_eq!(paths.model_prefix, "runs/demo/ocr_tokenizer");
}

#[test]
fn the_latest_status_prefers_standard_error() {
    let mut captured = CapturedOutput::default();
    assert_eq!(captured.latest_status(), "");

    captured.push(StreamName::Stdout, "loading".to_owned());
    assert_eq!(captured.latest_status(), " - loading");

    captured.push(StreamName::Stderr, "trainer_interface.cc(409) LOG(INFO) Loaded all".to_owned());
    captured.push(StreamName::Stdout, "still loading".to_owned());
    assert_eq!(captured.latest_status(), " - trainer_interface.cc(409) LOG(INFO) Loaded all");
    assert_eq!(captured.stdout.len(), 2);
    assert_eq!(captured.stderr.len(), 1);
}

#[test]
fn trainer_errors_read_as_the_operator_sees_them() {
    let spawn = TrainerError::Spawn { program: "uv".to_owned(), source: "No such file or directory".to_owned() };
    assert_eq!(spawn.message(), "failed to spawn trainer `uv`: No such file or directory");
    let failed = TrainerError::Failed { status: "exit status: 1".to_owned() };
    assert_eq!(failed.message(), "trainer failed with status exit status: 1");
    assert_eq!(TrainerError::Interrupted.message(), "interrupted");
}

fn summary(source_issues: usize) -> TrainSummary {
    TrainSummary {
        preset: "ocr_multilingual".to_owned(),
        corpus_path: "data/raw-corpus".to_owned(),
        text_files: 3,
        fixed_corpus: "runs/demo/fixed_corpus.txt".to_owned(),
        issue_log: "runs/demo/reports/corpus_issues.jsonl".to_owned(),
        lines_read: 120,
        lines_written: 110,
        lines_fixed: 7,
        lines_skipped: 10,
        source_issues,
        balanced_lines: 100,
        balance_report: "runs/demo/reports/balance.json".to_owned(),
        model: "runs/demo/ocr_tokenizer.model".to_owned(),
        vocab: "runs/demo/ocr_tokenizer.vocab".to_owned(),
        trainer_output: "runs/demo/trainer_output.json".to_owned(),
        work_dir: "runs/demo".to_owned(),
        model_prefix: "ocr_tokenizer".to_owned(),
    }
}

#[test]
fn the_closing_line_counts_what_the_run_did() {
    assert_eq!(
        summary(0).text(),
        "Trained: preset `ocr_multilingual`, 3 text file(s), 110 repaired line(s), 100 balanced line(s), 7 fixed, 10 skipped, model `runs/demo/ocr_tokenizer.model`"
    );
    assert_eq!(
        summary(2).text(),
        "Trained: preset `ocr_multilingual`, 3 text file(s), 110 repaired line(s), 100 balanced line(s), 7 fixed, 10 skipped, 2 source issue(s) logged, model `runs/demo/ocr_tokenizer.model`"
    );
}

#[test]
fn a_failed_trainer_run_is_recorded_and_fails() {
    let paths = TrainerPaths::from_config(&config("runs/ocr"));
    let captured = CapturedOutput { stdout: vec!["started".to_string()], stderr: vec!["boom".to_string()] };
    let (output, failure) = finished_run(false, "exit status: 1".to_string(), &paths, captured.clone(), 42);
    assert_eq!(output.status, TrainerStatus::Failed);
    assert_eq!(output.stderr, vec!["boom".to_string()]);
    assert_eq!(output.elapsed_ms, 42);
    assert_eq!(failure.unwrap().message(), "trainer failed with status exit status: 1");
    let (output, failure) = finished_run(true, "exit status: 0".to_string(), &paths, captured, 7);
    assert_eq!(output.status, TrainerStatus::Succeeded);
    assert_eq!(output.model, paths.model);
    assert!(failure.is_none());
}
