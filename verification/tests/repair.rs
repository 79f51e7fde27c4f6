use spm_ocr::config::{CanonicalizationConfig, SoftHyphenPolicy, StripRule, UnicodeForm};
use spm_ocr::repair::{account_line, classification_path, repair_line, IssueAction, IssueId, RepairSummary};

#[test]
fn classification_path_uses_corpus_relative_source() {
    let root = "/corpus/vendor/es";
    let source = "/corpus/vendor/es/books/page.txt";

    assert_eq!(classification_path(root, source), "books/page.txt");
}

#[test]
fn a_source_outside_the_root_is_classified_by_its_file_name() {
    assert_eq!(classification_path("/corpus/vendor/es", "/elsewhere/notes/page.txt"), "page.txt");
}

#[test]
fn components_not_characters_decide_what_lies_under_the_root() {
    assert_eq!(classification_path("/corpus/ven", "/corpus/vendor/page.txt"), "page.txt");
}

fn canonicalization() -> CanonicalizationConfig {
    CanonicalizationConfig {
        unicode_form: UnicodeForm::Nfc,
        strip: vec![StripRule::Bom, StripRule::ZeroWidthSpace],
        map_nbsp_to_space: true,
        fold_arabic_presentation_forms: true,
        soft_hyphen: SoftHyphenPolicy::LineFinalToHyphenMidlineStrip,
        preserve_zwj_zwnj: true,
        preserve_compatibility_chars: true,
    }
}

fn empty_summary() -> RepairSummary {
    RepairSummary {
        fixed_corpus: "work/fixed_corpus.txt".to_owned(),
        issue_log: "work/reports/corpus_issues.jsonl".to_owned(),
        files_read: 0,
        lines_read: 0,
        lines_written: 0,
        lines_fixed: 0,
        lines_skipped: 0,
        source_issues: 0,
        shards: vec![],
    }
}

#[test]
fn each_line_is_written_fixed_or_skipped_and_counted() {
    let config = canonicalization();
    let mut summary = empty_summary();

    let clean = repair_line(b"plain line", &config, 100, false);
    assert_eq!(clean.written, vec!["plain line".to_string()]);
    assert!(clean.issue.is_none());
    account_line(&mut summary, &clean);

    let fixed = repair_line("a\u{00A0}b".as_bytes(), &config, 100, true);
    assert_eq!(fixed.written, vec!["a b".to_string()]);
    let issue = fixed.issue.clone().unwrap();
    assert_eq!(issue.id, IssueId::Canonicalized);
    assert_eq!(issue.action, IssueAction::Fixed);
    assert_eq!(issue.line_text.as_deref(), Some("a\u{00A0}b"));
    account_line(&mut summary, &fixed);

    let invalid = repair_line(b"bad \xFF byte", &config, 100, true);
    assert!(invalid.written.is_empty());
    let issue = invalid.issue.clone().unwrap();
    assert_eq!(issue.id, IssueId::InvalidUtf8);
    assert_eq!(issue.action, IssueAction::Skipped);
    assert!(issue.line_text.is_none());
    account_line(&mut summary, &invalid);

    let long = repair_line(b"0123456789", &config, 4, false);
    assert_eq!(long.written, vec!["0123".to_string(), "4567".to_string(), "89".to_string()]);
    let issue = long.issue.clone().unwrap();
    assert_eq!(issue.id, IssueId::MaxSentenceLength);
    assert_eq!(issue.action, IssueAction::Fixed);
    assert_eq!(issue.reason, "canonicalized line is 10 byte(s), over max_sentence_length 4; split into 3 chunk(s)");
    account_line(&mut summary, &long);

    let wide = repair_line("日本".as_bytes(), &config, 2, false);
    assert!(wide.written.is_empty());
    let issue = wide.issue.clone().unwrap();
    assert_eq!(issue.id, IssueId::MaxSentenceLength);
    assert_eq!(issue.action, IssueAction::Skipped);
    assert_eq!(issue.reason, "canonicalized line is 6 byte(s), over max_sentence_length 2");
    account_line(&mut summary, &wide);

    assert_eq!(summary.lines_read, 5);
    assert_eq!(summary.lines_written, 5);
    assert_eq!(summary.lines_fixed, 2);
    assert_eq!(summary.lines_skipped, 2);
}

#[test]
fn long_lines_are_split_at_character_boundaries() {
    let config = canonicalization();
    let line = "ééééé";
    let long = repair_line(line.as_bytes(), &config, 5, false);
    assert_eq!(long.written, vec!["éé".to_string(), "éé".to_string(), "é".to_string()]);
    assert_eq!(long.written.concat(), line);
    assert!(long.written.iter().all(|piece| piece.len() <= 5));
}
