use spm_ocr::config::{
    expand_config, BalanceAxis, BalancingMode, ConfigError, CorpusConfig, LinePolicy, ModelType, NormalizationRuleName,
    OutputConfig, PartialBalancingConfig, PartialCanonicalizationConfig, PartialSentencePieceConfig,
    PartialValidationConfig, PresetCatalog, PresetConfig, PythonTrainerConfig, RawConfig, SoftHyphenPolicy, StripRule,
    TrainerKind, UnicodeForm, ValidationMode,
};

fn canonicalization() -> PartialCanonicalizationConfig {
    PartialCanonicalizationConfig {
        unicode_form: Some(UnicodeForm::Nfc),
        strip: Some(vec![StripRule::Bom, StripRule::ZeroWidthSpace]),
        map_nbsp_to_space: Some(true),
        fold_arabic_presentation_forms: Some(true),
        soft_hyphen: Some(SoftHyphenPolicy::LineFinalToHyphenMidlineStrip),
        preserve_zwj_zwnj: Some(true),
        preserve_compatibility_chars: Some(true),
    }
}

fn balancing() -> PartialBalancingConfig {
    PartialBalancingConfig {
        enabled: Some(true),
        mode: Some(BalancingMode::Conservative),
        total_lines: Some(20_000_000),
        alpha_bits: Some(0.7f64.to_bits()),
        hierarchy: Some(vec![
            BalanceAxis::Domain,
            BalanceAxis::Script,
            BalanceAxis::LanguageHint,
            BalanceAxis::SourceGroup,
            BalanceAxis::LengthBin,
        ]),
        min_keep_fraction_bits: Some(0.5f64.to_bits()),
        max_downsample_ratio_bits: Some(4.0f64.to_bits()),
        collapse_buckets_below_lines: Some(1000),
        max_part_lines: Some(1_000_000),
        shuffle_seed: Some(1337),
    }
}

fn sentencepiece(vocab_size: u32, coverage: f64, max_piece: u32, max_sentence: u32, symbols: &[&str]) -> PartialSentencePieceConfig {
    PartialSentencePieceConfig {
        trainer: Some(TrainerKind::PythonSentencepiece),
        python: Some(PythonTrainerConfig {
            runner: "uv".to_owned(),
            args: vec!["run".to_owned(), "python".to_owned()],
            module: "spm_ocr_train_bridge".to_owned(),
        }),
        model_type: Some(ModelType::Bpe),
        vocab_size: Some(vocab_size),
        character_coverage_bits: Some(coverage.to_bits()),
        byte_fallback: Some(true),
        normalization_rule_name: Some(NormalizationRuleName::Identity),
        add_dummy_prefix: Some(false),
        remove_extra_whitespaces: Some(false),
        split_by_unicode_script: Some(true),
        split_by_whitespace: Some(true),
        split_digits: Some(true),
        max_sentencepiece_length: Some(max_piece),
        max_sentence_length: Some(max_sentence),
        input_sentence_size: Some(20_000_000),
        shuffle_input_sentence: Some(true),
        train_extremely_large_corpus: Some(true),
        user_defined_symbols: Some(symbols.iter().map(|s| s.to_string()).collect()),
    }
}

fn validation() -> PartialValidationConfig {
    PartialValidationConfig {
        mode: Some(ValidationMode::Report),
        line_policy: Some(LinePolicy::FixOrSkip),
        issue_log: Some("reports/corpus_issues.jsonl".to_owned()),
        include_line_text_in_log: Some(false),
        round_trip_sample_per_bucket: Some(1000),
    }
}

const SYMBOLS: [&str; 8] = ["\\frac", "\\sqrt", "\\sum", "\\int", "^", "_", "{", "}"];

fn preset(description: &str, sentencepiece: PartialSentencePieceConfig) -> PresetConfig {
    PresetConfig {
        description: description.to_owned(),
        extends: None,
        num_threads: Some(16),
        canonicalization: canonicalization(),
        balancing: balancing(),
        sentencepiece,
        validation: validation(),
    }
}

fn catalog() -> PresetCatalog {
    let mut math_symbols: Vec<&str> = SYMBOLS.to_vec();
    math_symbols.push("\\operatorname");
    PresetCatalog {
        version: 1,
        default: "ocr_multilingual".to_owned(),
        presets: vec![
            (
                "ocr_multilingual".to_owned(),
                preset("General multilingual OCR tokenizer preset.", sentencepiece(40_000, 0.9998, 8, 16_384, &SYMBOLS)),
            ),
            (
                "ocr_cjk_heavy".to_owned(),
                preset("CJK-heavy OCR tokenizer preset.", sentencepiece(48_000, 0.99995, 4, 16_384, &SYMBOLS)),
            ),
            (
                "ocr_math_heavy".to_owned(),
                preset("Math-heavy OCR tokenizer preset.", sentencepiece(48_000, 0.9998, 8, 32_768, &math_symbols)),
            ),
        ],
    }
}

fn raw(preset: Option<&str>, num_threads: Option<u32>, sentencepiece: PartialSentencePieceConfig) -> RawConfig {
    RawConfig {
        preset: preset.map(|p| p.to_owned()),
        num_threads,
        corpus: CorpusConfig { path: "data/raw-corpus".to_owned() },
        output: OutputConfig { work_dir: "runs/ocr-spm-v1".to_owned(), model_prefix: "ocr_tokenizer".to_owned() },
        canonicalization: PartialCanonicalizationConfig::default(),
        balancing: PartialBalancingConfig::default(),
        sentencepiece,
        validation: PartialValidationConfig::default(),
    }
}

#[test]
fn expands_default_preset() {
    let effective = expand_config(raw(None, None, PartialSentencePieceConfig::default()), &catalog())
        .expect("default preset expands");

    assert_eq!(effective.preset, "ocr_multilingual");
    assert_eq!(effective.num_threads, 16);
    assert_eq!(effective.sentencepiece.model_type, ModelType::Bpe);
    assert!(effective.sentencepiece.byte_fallback);
    assert_eq!(effective.validation.line_policy, LinePolicy::FixOrSkip);
}

#[test]
fn child_preset_replaces_list_values() {
    let effective = expand_config(raw(Some("ocr_math_heavy"), None, PartialSentencePieceConfig::default()), &catalog())
        .expect("child preset expands");

    assert_eq!(effective.sentencepiece.vocab_size, 48_000);
    assert!(effective.sentencepiece.user_defined_symbols.contains(&"\\operatorname".to_owned()));
}

#[test]
fn user_overrides_preset_field() {
    let overrides = PartialSentencePieceConfig { vocab_size: Some(32_000), ..PartialSentencePieceConfig::default() };
    let effective = expand_config(raw(Some("ocr_cjk_heavy"), Some(8), overrides), &catalog()).expect("user override expands");

    assert_eq!(effective.num_threads, 8);
    assert_eq!(effective.sentencepiece.vocab_size, 32_000);
    assert_eq!(effective.sentencepiece.max_sentencepiece_length, 4);
}

#[test]
fn rejects_zero_threads() {
    let error = expand_config(raw(None, Some(0), PartialSentencePieceConfig::default()), &catalog())
        .expect_err("zero threads should be invalid");

    assert!(matches!(error, ConfigError::InvalidPresetField { field: "num_threads", .. }));
}

#[test]
fn unknown_preset_is_named() {
    let error = expand_config(raw(Some("ocr_klingon"), None, PartialSentencePieceConfig::default()), &catalog())
        .expect_err("no such preset");

    assert!(matches!(&error, ConfigError::UnknownPreset(name) if name == "ocr_klingon"));
    assert_eq!(error.message(), "preset `ocr_klingon` was not found");
}

#[test]
fn preset_cycle_is_reported() {
    let mut cat = catalog();
    cat.presets.push((
        "a".to_owned(),
        PresetConfig { extends: Some("b".to_owned()), ..preset("a", PartialSentencePieceConfig::default()) },
    ));
    cat.presets.push((
        "b".to_owned(),
        PresetConfig { extends: Some("a".to_owned()), ..preset("b", PartialSentencePieceConfig::default()) },
    ));
    let error = expand_config(raw(Some("a"), None, PartialSentencePieceConfig::default()), &cat).expect_err("cycle");

    assert!(matches!(error, ConfigError::PresetCycle(_)));
}

#[test]
fn a_missing_setting_is_named() {
    let mut cat = catalog();
    cat.presets[0].1.sentencepiece.vocab_size = None;
    let error = expand_config(raw(None, None, PartialSentencePieceConfig::default()), &cat).expect_err("missing vocab");

    assert!(matches!(error, ConfigError::MissingPresetField("sentencepiece.vocab_size")));
}

#[test]
fn a_child_preset_inherits_what_it_leaves_out() {
    let mut cat = catalog();
    cat.presets.push((
        "child".to_owned(),
        PresetConfig {
            description: "child".to_owned(),
            extends: Some("ocr_cjk_heavy".to_owned()),
            num_threads: Some(4),
            canonicalization: PartialCanonicalizationConfig::default(),
            balancing: PartialBalancingConfig::default(),
            sentencepiece: PartialSentencePieceConfig { vocab_size: Some(1000), ..PartialSentencePieceConfig::default() },
            validation: PartialValidationConfig::default(),
        },
    ));
    let effective = expand_config(raw(Some("child"), None, PartialSentencePieceConfig::default()), &cat).expect("expands");

    assert_eq!(effective.num_threads, 4);
    assert_eq!(effective.sentencepiece.vocab_size, 1000);
    assert_eq!(effective.sentencepiece.max_sentencepiece_length, 4);
    assert_eq!(effective.sentencepiece.character_coverage_bits, 0.99995f64.to_bits());
}

#[test]
fn dangerous_overrides_are_repaired_and_named() {
    let mut own = PartialSentencePieceConfig::default();
    own.byte_fallback = Some(false);
    own.split_digits = Some(false);
    own.add_dummy_prefix = Some(true);
    let effective = expand_config(raw(None, Some(2), own), &catalog()).unwrap();
    assert!(effective.sentencepiece.byte_fallback);
    assert!(effective.sentencepiece.split_digits);
    assert!(!effective.sentencepiece.add_dummy_prefix);
    assert_eq!(
        effective.repaired_settings,
        vec!["sentencepiece.byte_fallback", "sentencepiece.add_dummy_prefix", "sentencepiece.split_digits"]
    );
}
