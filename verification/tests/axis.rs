use std::borrow::Cow;

use spm_ocr::corpus::axis::{decimal_value, default_axes, Action, Axis, Rule, SOFT_HYPHEN};

fn axis(name: &str) -> Axis {
    default_axes()
        .into_iter()
        .find(|a| a.name == name)
        .expect("axis exists")
}

#[test]
fn no_axis_fires_on_ascii() {
    let ascii = "The quick brown fox: 12345 -- 'quoted' \"text\"\t(end)";
    for axis in default_axes() {
        assert!(!axis.affects(ascii), "{} fired on ASCII", axis.name);
        assert!(matches!(axis.apply(ascii), Cow::Borrowed(_)));
    }
}

#[test]
fn an_unaffected_line_is_never_copied() {
    let clean = "Пример чистого текста";
    assert!(matches!(axis("nbsp").apply(clean), Cow::Borrowed(_)));
    assert!(!axis("nbsp").affects(clean));
}

#[test]
fn nbsp_collapses_to_a_plain_space() {
    assert_eq!(axis("nbsp").apply("a\u{00A0}b"), "a b");
    assert!(axis("nbsp").affects("a\u{00A0}b"));
}

#[test]
fn decomposed_text_is_composed() {
    let decomposed = "cafe\u{0301}";
    assert_eq!(axis("nfc_composition").apply(decomposed), "café");
    assert!(axis("nfc_composition").affects(decomposed));
    assert!(!axis("nfc_composition").affects("café"));
}

#[test]
fn zero_width_non_content_is_stripped() {
    assert_eq!(
        axis("zero_width_non_content").apply("\u{FEFF}text\u{200B}!"),
        "text!"
    );
}

#[test]
fn a_trailing_soft_hyphen_becomes_a_real_hyphen() {
    let line_final = axis("soft_hyphen_line_final");
    assert_eq!(line_final.apply(&format!("weiter{SOFT_HYPHEN}")), "weiter-");
    assert!(!line_final.affects(&format!("wei{SOFT_HYPHEN}ter")));
}

#[test]
fn a_mid_line_soft_hyphen_is_removed_but_a_final_one_is_left() {
    let mid = axis("soft_hyphen_mid_line");
    assert_eq!(mid.apply(&format!("wei{SOFT_HYPHEN}ter")), "weiter");
    assert!(
        !mid.affects(&format!("weiter{SOFT_HYPHEN}")),
        "a line-final soft hyphen belongs to the other axis"
    );
}

#[test]
fn non_ascii_digits_fold_to_ascii_values() {
    let digits = axis("non_ascii_digits");
    assert_eq!(digits.apply("\u{0664}\u{0667}"), "47");
    assert_eq!(digits.apply("\u{0966}\u{096F}"), "09");
    assert_eq!(digits.apply("\u{0E51}\u{0E55}"), "15");
}

#[test]
fn decimal_value_ignores_ascii_and_non_digits() {
    assert_eq!(decimal_value('7'), None, "ASCII is already ASCII");
    assert_eq!(decimal_value('é'), None);
    assert_eq!(decimal_value('\u{2160}'), None);
}

#[test]
fn decimal_value_reads_the_position_in_the_run() {
    assert_eq!(decimal_value('\u{0660}'), Some(0));
    assert_eq!(decimal_value('\u{0669}'), Some(9));
    assert_eq!(decimal_value('\u{FF13}'), Some(3));
}

#[test]
fn typographic_punctuation_is_detected_but_marked_preserve() {
    let punctuation = axis("typographic_punctuation");
    assert!(punctuation.affects("\u{2018}quoted\u{2019}"));
    assert_eq!(punctuation.action, Action::Preserve);
}

#[test]
fn fullwidth_forms_are_detected_without_touching_halfwidth() {
    assert!(axis("fullwidth_forms").affects("ＡＢＣ"));
    assert!(!axis("fullwidth_forms").affects("ABC"));
}

#[test]
fn a_ligature_is_reported_but_never_folded() {
    let line = "x\u{FEFB}y";
    let shaping = axis("arabic_presentation_forms");
    assert_eq!(shaping.apply(line), line, "a Collapse axis must not lose data");
    let ligature = axis("arabic_ligatures");
    assert!(ligature.affects(line), "but it is still reported");
    assert_eq!(ligature.action, Action::Preserve);
}

#[test]
fn a_shaping_form_is_still_folded() {
    let line = "x\u{FE8D}y";
    assert_eq!(axis("arabic_presentation_forms").apply(line), "x\u{0627}y");
}

#[test]
fn the_hebrew_ligature_is_preserved_too() {
    let line = "x\u{FB4F}y";
    assert_eq!(axis("hebrew_presentation_forms").apply(line), line);
    assert!(axis("hebrew_ligatures").affects(line));
}

#[test]
fn no_collapse_axis_folds_a_ligature() {
    for axis in default_axes()
        .iter()
        .filter(|a| a.action == Action::Collapse)
        .filter(|a| matches!(a.rule, Rule::NfkcWithin(..)))
    {
        assert!(axis.folds_compatibility());
        for codepoint in (0xFB00u32..=0xFEFF).filter_map(char::from_u32) {
            let line = codepoint.to_string();
            let folded = axis.apply(&line);
            assert!(
                folded.chars().count() <= line.chars().count(),
                "{} expanded U+{:04X}",
                axis.name,
                codepoint as u32
            );
        }
    }
}

#[test]
fn every_axis_transform_is_idempotent() {
    let soft = format!("wei{SOFT_HYPHEN}ter{SOFT_HYPHEN}");
    let samples = [
        "cafe\u{0301}",
        "a\u{00A0}b",
        "\u{FEFF}text\u{200B}",
        soft.as_str(),
        "\u{0664}\u{0667}",
        "ＡＢＣ",
        "\u{2018}q\u{2019}",
    ];
    for axis in default_axes() {
        for sample in &samples {
            let once = axis.apply(sample).into_owned();
            let twice = axis.apply(&once).into_owned();
            assert_eq!(once, twice, "{} is not idempotent on {sample:?}", axis.name);
        }
    }
}

#[test]
fn failure_modes_follow_the_axis() {
    assert_eq!(axis("zero_width_joiners").failure_mode(), 3);
    assert_eq!(axis("arabic_ligatures").failure_mode(), 5);
    assert_eq!(axis("nbsp").failure_mode(), 4);
}

#[test]
fn the_default_axes_come_in_their_documented_order() {
    let names: Vec<&str> = default_axes().iter().map(|a| a.name).collect();
    assert_eq!(names.len(), 15);
    assert_eq!(names[0], "zero_width_non_content");
    assert_eq!(names[8], "nfc_composition");
    assert_eq!(names[14], "zero_width_joiners");
}
