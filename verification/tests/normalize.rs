use spm_ocr::config::{CanonicalizationConfig, SoftHyphenPolicy, StripRule, UnicodeForm};
use spm_ocr::normalize::canonicalize_line;

fn config() -> CanonicalizationConfig {
    CanonicalizationConfig {
        unicode_form: UnicodeForm::Nfc,
        strip: vec![StripRule::Bom, StripRule::ZeroWidthSpace],
        map_nbsp_to_space: true,
        fold_arabic_presentation_forms: true,
        soft_hyphen: SoftHyphenPolicy::LineFinalToHyphenMidlineStrip,
        preserve_zwj_zwnj: true,
        preserve_compatibility_chars: true,
    }
}

#[test]
fn composes_nfc_and_maps_configured_artifacts() {
    let input = "\u{feff}cafe\u{0301}\u{00a0}\u{200b}";
    let line = canonicalize_line(input, &config());
    assert_eq!(line.text, "café ");
    assert!(line.changed);
}

#[test]
fn preserves_compatibility_characters_and_joiners() {
    let input = "Ａ ﬁ \u{200c}\u{200d}";
    let line = canonicalize_line(input, &config());
    assert_eq!(line.text, input);
    assert!(!line.changed);
}

#[test]
fn folds_arabic_presentation_forms_only() {
    let line = canonicalize_line("\u{fedb}", &config());
    assert_eq!(line.text, "ك");
}

#[test]
fn maps_only_line_final_soft_hyphen_to_visible_hyphen() {
    let config = config();
    assert_eq!(canonicalize_line("co\u{00ad}operate", &config).text, "cooperate");
    assert_eq!(canonicalize_line("line\u{00ad}", &config).text, "line-");
}

#[test]
fn disabled_mappings_leave_their_characters_alone() {
    let mut config = config();
    config.strip = Vec::new();
    config.map_nbsp_to_space = false;
    config.fold_arabic_presentation_forms = false;
    let input = "\u{feff}a\u{00a0}\u{fedb}";
    let line = canonicalize_line(input, &config);
    assert_eq!(line.text, input);
    assert!(!line.changed);
}

#[test]
fn a_canonical_line_is_its_own_canonical_form() {
    for line in ["\u{FEFF}cafe\u{0301}\u{00A0}x\u{AD}y\u{AD}", "\u{FDF2} \u{FB50}", "e\u{AD}\u{301}", "plain"] {
        let once = canonicalize_line(line, &config());
        assert!(!once.text.contains('\u{AD}'));
        let twice = canonicalize_line(&once.text, &config());
        assert_eq!(twice.text, once.text);
        assert!(!twice.changed);
    }
}
