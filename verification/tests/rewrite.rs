use spm_ocr::corpus::axis::default_axes;
use spm_ocr::corpus::canonical::Canonicalizer;
use spm_ocr::corpus::rewrite::{canonicalize_into, OnInvalidUtf8, RewriteError, Tally};

fn plain() -> Canonicalizer {
    Canonicalizer::new(default_axes(), &[]).unwrap()
}

fn run(bytes: &[u8], on_invalid: OnInvalidUtf8) -> (Vec<u8>, Tally) {
    let mut out = Vec::new();
    let tally = canonicalize_into(bytes, &plain(), on_invalid, &mut out).unwrap();
    (out, tally)
}

#[test]
fn collapse_axes_are_applied_to_the_bytes() {
    let (out, tally) = run("cafe\u{0301}\n".as_bytes(), OnInvalidUtf8::Refuse);
    assert_eq!(out, "café\n".as_bytes());
    assert_eq!(tally.changed, 1);
    assert_eq!(tally.lines, 1);
}

#[test]
fn a_trailing_newline_is_neither_added_nor_removed() {
    let (with, _) = run(b"plain\n", OnInvalidUtf8::Refuse);
    assert_eq!(with, b"plain\n");

    let (without, _) = run(b"plain", OnInvalidUtf8::Refuse);
    assert_eq!(without, b"plain", "a file that lacked one must not gain one");
}

#[test]
fn blank_lines_survive_even_though_they_are_not_counted() {
    let (out, tally) = run(b"first\n\nsecond\n", OnInvalidUtf8::Refuse);
    assert_eq!(out, b"first\n\nsecond\n");
    assert_eq!(tally.lines, 2, "the blank line is structure, not content");
}

#[test]
fn invalid_utf8_is_refused_by_default() {
    let mut out = Vec::new();
    let error = canonicalize_into(
        b"good\n\xff\xfe bad\ngood\n",
        &plain(),
        OnInvalidUtf8::Refuse,
        &mut out,
    )
    .unwrap_err();
    assert_eq!(error.line, 2, "the ordinal points at the offending line");
    assert_eq!(OnInvalidUtf8::default(), OnInvalidUtf8::Refuse);
}

#[test]
fn dropping_invalid_utf8_takes_the_line_and_its_newline() {
    let (out, tally) = run(b"good\n\xff\xfe bad\nalso good\n", OnInvalidUtf8::Drop);
    assert_eq!(out, b"good\nalso good\n", "no blank line left behind");
    assert_eq!(tally.dropped, 1);
    assert_eq!(tally.lines, 2);
}

#[test]
fn rewriting_is_idempotent() {
    let source = "cafe\u{0301}\na\u{00A0}b\n\u{FEFF}text\nＡＢＣ\n".as_bytes();
    let (once, _) = run(source, OnInvalidUtf8::Refuse);
    let (twice, tally) = run(&once, OnInvalidUtf8::Refuse);
    assert_eq!(once, twice);
    assert_eq!(tally.changed, 0, "already canonical, so nothing to do");
}

#[test]
fn preserve_axes_are_not_folded_on_the_way_out() {
    let (out, _) = run("ＡＢＣ \u{2018}q\u{2019}\n".as_bytes(), OnInvalidUtf8::Refuse);
    assert_eq!(out, "ＡＢＣ \u{2018}q\u{2019}\n".as_bytes());
}

#[test]
fn a_refusal_on_the_last_line_counts_every_line() {
    let mut out = Vec::new();
    let error = canonicalize_into(b"a\nb\n\xff", &plain(), OnInvalidUtf8::Refuse, &mut out).unwrap_err();
    assert_eq!(error.line, 3);
    assert_eq!(out, b"a\nb\n", "the lines before the refusal were written");
}

#[test]
fn whitespace_only_lines_are_written_but_not_counted() {
    let (out, tally) = run(b" \t\nx\n", OnInvalidUtf8::Refuse);
    assert_eq!(out, b" \t\nx\n");
    assert_eq!(tally.lines, 1);
}

#[test]
fn the_summary_reads_like_a_sentence() {
    let one = Tally { lines: 1, changed: 0, dropped: 0 };
    assert_eq!(one.summary(), "1 line, 0 canonicalized");
    let many = Tally { lines: 12, changed: 3, dropped: 2 };
    assert_eq!(many.summary(), "12 lines, 3 canonicalized, 2 dropped as invalid UTF-8");
}

#[test]
fn rewrite_errors_name_the_path_and_line() {
    let error = RewriteError::InvalidUtf8 { path: "shard.txt".to_string(), line: 7 };
    assert_eq!(
        error.message(),
        "shard.txt: line 7 is not valid UTF-8 (pass --drop-invalid to skip such lines)"
    );
}

#[test]
fn a_rewrite_that_dropped_lines_is_a_fixed_point_too() {
    let source = b"cafe\xcc\x81\n\xff\xfe\nsoft\xc2\xad\n\xff";
    let (once, first) = run(source, OnInvalidUtf8::Drop);
    assert_eq!(first.dropped, 2);
    assert_eq!(once, "café\nsoft\u{AD}\n".as_bytes());
    let (twice, tally) = run(&once, OnInvalidUtf8::Refuse);
    assert_eq!(twice, once);
    assert_eq!(tally.changed, 0);
    assert_eq!(tally.dropped, 0);
}
