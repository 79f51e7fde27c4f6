use std::borrow::Cow;

use spm_ocr::corpus::axis::{default_axes, SOFT_HYPHEN};
use spm_ocr::corpus::canonical::Canonicalizer;

fn plain() -> Canonicalizer {
    Canonicalizer::new(default_axes(), &[]).unwrap()
}

#[test]
fn collapse_axes_are_applied() {
    assert_eq!(plain().apply("cafe\u{0301}"), "café");
    assert_eq!(plain().apply("a\u{00A0}b"), "a b");
}

#[test]
fn preserve_axes_are_structurally_unreachable() {
    assert_eq!(plain().apply("\u{2018}quoted\u{2019}"), "\u{2018}quoted\u{2019}");
    assert_eq!(plain().apply("ＡＢＣ"), "ＡＢＣ");
}

#[test]
fn decide_axes_are_opt_in() {
    let line = format!("weiter{SOFT_HYPHEN}");
    assert_eq!(plain().apply(&line), line, "not opted in, so untouched");

    let opted = Canonicalizer::new(default_axes(), &["soft_hyphen_line_final".into()]).unwrap();
    assert_eq!(opted.apply(&line), "weiter-");
}

#[test]
fn an_unknown_decide_axis_is_an_error_not_a_no_op() {
    let error = Canonicalizer::new(default_axes(), &["sofft_hyphen".into()]).unwrap_err();
    assert_eq!(error.name, "sofft_hyphen");
    assert!(error.available.contains("soft_hyphen_line_final"));
}

#[test]
fn naming_a_preserve_axis_as_decide_is_rejected() {
    let error = Canonicalizer::new(default_axes(), &["ligatures".into()]).unwrap_err();
    assert_eq!(error.name, "ligatures");
}

#[test]
fn canonicalizing_is_idempotent() {
    let samples = ["cafe\u{0301}", "a\u{00A0}b", "\u{FEFF}text", "ＡＢＣ", "plain ascii"];
    for sample in samples {
        let once = plain().apply(sample).into_owned();
        assert_eq!(plain().apply(&once), once, "not a fixed point: {sample:?}");
    }
}

#[test]
fn already_canonical_text_is_never_copied() {
    assert!(matches!(plain().apply("plain ascii"), Cow::Borrowed(_)));
    assert!(plain().is_canonical("café"));
    assert!(!plain().is_canonical("cafe\u{0301}"));
}

#[test]
fn the_available_axes_are_listed_sorted() {
    let error = Canonicalizer::new(default_axes(), &["nope".into()]).unwrap_err();
    assert_eq!(error.available, "soft_hyphen_line_final, soft_hyphen_mid_line");
    assert_eq!(
        error.message(),
        "unknown DECIDE axis: nope. Available: soft_hyphen_line_final, soft_hyphen_mid_line"
    );
}

#[test]
fn the_first_unknown_name_is_the_one_reported() {
    let error = Canonicalizer::new(
        default_axes(),
        &["soft_hyphen_mid_line".into(), "first_bad".into(), "second_bad".into()],
    )
    .unwrap_err();
    assert_eq!(error.name, "first_bad");
}

#[test]
fn both_soft_hyphen_axes_can_be_opted_into() {
    let opted = Canonicalizer::new(
        default_axes(),
        &["soft_hyphen_line_final".into(), "soft_hyphen_mid_line".into()],
    )
    .unwrap();
    let line = format!("wei{SOFT_HYPHEN}ter{SOFT_HYPHEN}");
    assert_eq!(opted.apply(&line), "weiter-");
}

#[test]
fn composition_runs_after_the_soft_hyphen_strip_so_a_second_pass_changes_nothing() {
    let canon = Canonicalizer::new(default_axes(), &["soft_hyphen_mid_line".to_string()]).unwrap();
    let line = "e\u{AD}\u{301}x";
    let once = canon.apply(line).into_owned();
    assert_eq!(once, "\u{E9}x");
    assert_eq!(canon.apply(&once), once.as_str());
}

#[test]
fn canonicalizing_twice_changes_nothing() {
    let decide = ["soft_hyphen_line_final".to_string(), "soft_hyphen_mid_line".to_string()];
    let canon = Canonicalizer::new(default_axes(), &decide).unwrap();
    for line in [
        "\u{FEFF}cafe\u{0301}\u{00A0}na\u{AD}ive\u{AD}",
        "\u{FB50}\u{FE8D} \u{FB2A}",
        "e\u{AD}\u{301}x\u{200B}",
        "plain ascii",
    ] {
        let once = canon.apply(line).into_owned();
        assert_eq!(canon.apply(&once), once.as_str(), "{line:?}");
    }
}
