use spm_ocr::corpus::axis::default_axes;
use spm_ocr::corpus::scan::{
    combined, fits, line_aligned_chunks, report, scan_bytes, Config, Counts, Form, Totals, CHUNK_BYTES,
};
use spm_ocr::report::{Severity, Status};

fn counts_for(text: &str) -> Counts {
    scan_bytes(text.as_bytes(), &Config::new(&default_axes()))
}

fn axis_count(counts: &Counts, name: &str) -> Option<u64> {
    counts.per_axis.iter().find(|(n, _)| *n == name).map(|(_, c)| *c)
}

#[test]
fn blank_lines_are_not_counted() {
    assert_eq!(counts_for("alpha\n\n   \nbeta\n").lines, 2);
}

#[test]
fn ascii_text_shows_no_variation() {
    let counts = counts_for("plain ascii line\nanother one\n");
    assert_eq!(counts.lines, 2);
    assert!(counts.per_axis.is_empty());
}

#[test]
fn decomposed_text_is_attributed_to_the_nfc_axis() {
    let counts = counts_for("cafe\u{0301}\n");
    assert_eq!(axis_count(&counts, "nfc_composition"), Some(1));
}

#[test]
fn invalid_utf8_is_counted_per_line_not_per_block() {
    let mut bytes = Vec::new();
    bytes.extend_from_slice("good line\n".as_bytes());
    bytes.extend_from_slice(b"caf\xe9 bad\n");
    bytes.extend_from_slice("another good\n".as_bytes());

    let counts = scan_bytes(&bytes, &Config::new(&default_axes()));
    assert_eq!(counts.invalid_utf8, 1);
    assert_eq!(counts.lines, 3, "the good lines still counted");
}

#[test]
fn chunks_never_split_a_line() {
    let data = b"aaaa\nbbbb\ncccc\n";
    for range in line_aligned_chunks(data) {
        let chunk = &data[range];
        assert!(
            chunk.is_empty() || chunk.ends_with(b"\n") || chunk.last() == data.last(),
            "chunk {chunk:?} does not end on a line boundary"
        );
    }
}

#[test]
fn a_newline_free_file_is_a_single_chunk() {
    let data = vec![b'x'; CHUNK_BYTES * 3];
    assert_eq!(line_aligned_chunks(&data).len(), 1);
}

#[test]
fn merging_counts_is_commutative() {
    let a = counts_for("cafe\u{0301}\n");
    let b = counts_for("a\u{00A0}b\n");
    assert_eq!(a.clone().merge(b.clone()), b.merge(a), "completion order must not change the report");
}

#[test]
fn preserve_axes_never_fail_the_run() {
    let totals: Totals = vec![("src".into(), counts_for("\u{2018}quoted\u{2019}\n"))];
    let axes = default_axes();
    let report = report(&totals, &axes);

    let punctuation = report
        .findings
        .iter()
        .find(|f| f.check == "axis[typographic_punctuation]")
        .expect("axis reported");
    assert!(!punctuation.is_failure(), "a preserve axis reports, it does not fail");
}

#[test]
fn collapse_variation_blocks() {
    let totals: Totals = vec![("src".into(), counts_for("cafe\u{0301}\n"))];
    let axes = default_axes();
    let report = report(&totals, &axes);

    let nfc = report.findings.iter().find(|f| f.check == "axis[nfc_composition]").expect("axis reported");
    assert!(nfc.is_failure());
    assert_eq!(nfc.severity, Severity::Blocker);
}

#[test]
fn an_empty_corpus_is_skipped_not_passed() {
    let report = report(&Totals::new(), &default_axes());
    assert_eq!(report.count(Status::Skipped), 1);
    assert!(report.ok(), "a skip is not a failure");
}

#[test]
fn chunks_cover_the_buffer_in_order() {
    let mut data = vec![b'a'; CHUNK_BYTES + 10];
    data.push(b'\n');
    data.extend_from_slice(b"tail line\n");
    data.extend(vec![b'b'; CHUNK_BYTES + 5]);
    let chunks = line_aligned_chunks(&data);
    assert_eq!(chunks.len(), 2);
    assert_eq!(chunks[0], 0..CHUNK_BYTES + 11);
    assert_eq!(chunks[1], CHUNK_BYTES + 11..data.len());
    assert!(line_aligned_chunks(&[]).is_empty());
}

#[test]
fn merging_is_associative_and_sums_every_count() {
    let a = counts_for("cafe\u{0301}\n");
    let b = counts_for("a\u{00A0}b\nplain\n");
    let c = counts_for("Привет мир\n");
    let left = a.clone().merge(b.clone()).merge(c.clone());
    let right = a.merge(b.merge(c));
    assert_eq!(left, right);
    assert_eq!(left.lines, 4);
    assert_eq!(left.script_characters(), 4 + 2 + 5 + 9);
}

#[test]
fn forms_are_counted_per_line() {
    let counts = counts_for("caf\u{00E9}\ncafe\u{0301}\nplain\n\u{00E9}e\u{0301}\n");
    assert_eq!(counts.forms.composed, 1);
    assert_eq!(counts.forms.decomposed, 1);
    assert_eq!(counts.forms.undecidable, 1);
    assert_eq!(counts.forms.mixed, 1);
    assert_eq!(counts.forms.decidable(), 3);
    assert_eq!(Form::of("ascii"), Form::Undecidable);
}

#[test]
fn long_lines_are_measured_in_bytes_against_the_limit() {
    let axes = default_axes();
    let config = Config::new(&axes).with_max_line_bytes(5);
    let counts = scan_bytes("12345\n123456\n\u{00E9}\u{00E9}\u{00E9}\n".as_bytes(), &config);
    assert_eq!(counts.long_lines, 2);
    assert_eq!(counts.lines, 3);
}

#[test]
fn combined_counts_sum_every_source() {
    let totals: Totals = vec![
        ("a".into(), counts_for("cafe\u{0301}\n")),
        ("b".into(), counts_for("x\ny\n")),
    ];
    assert!(fits(&totals));
    let all = combined(&totals);
    assert_eq!(all.lines, 3);
    assert_eq!(axis_count(&all, "nfc_composition"), Some(1));
}

#[test]
fn invalid_utf8_evidence_names_the_worst_source_first() {
    let bad = |n: usize| {
        let mut bytes = Vec::new();
        for _ in 0..n {
            bytes.extend_from_slice(b"caf\xe9\n");
        }
        bytes.extend_from_slice(b"fine\n");
        scan_bytes(&bytes, &Config::new(&default_axes()))
    };
    let totals: Totals = vec![("b".into(), bad(1)), ("a".into(), bad(1)), ("c".into(), bad(3)), ("d".into(), bad(0))];
    let report = report(&totals, &default_axes());
    let finding = &report.findings[0];
    assert_eq!(finding.check, "invalid_utf8");
    assert_eq!(
        finding.summary,
        "5 of 9 lines contain bytes that are not valid UTF-8 \u{2014} fix the extractor; these bytes cannot be recovered by normalizing"
    );
    assert_eq!(finding.severity, Severity::Blocker);
    assert_eq!(
        finding.evidence,
        vec!["c: 3 of 4 (75.0%) lines".to_string(), "a: 1 of 2 (50.0%) lines".to_string(), "b: 1 of 2 (50.0%) lines".to_string()]
    );
}

#[test]
fn a_clean_axis_passes_with_the_line_count() {
    let totals: Totals = vec![("src".into(), counts_for("plain\n"))];
    let report = report(&totals, &default_axes());
    assert_eq!(report.findings[0].summary, "every one of 1 lines decoded as valid UTF-8");
    let nfc = report.findings.iter().find(|f| f.check == "axis[nfc_composition]").unwrap();
    assert_eq!(nfc.summary, "no variation across 1 lines");
    assert_eq!(nfc.status, Status::Passed);
}

#[test]
fn scanning_in_two_blocks_counts_what_the_whole_file_counts() {
    let whole = "cafe\u{0301}\nplain line\r\n\n".to_string() + "second\u{00A0}block\nend";
    let first = "cafe\u{0301}\nplain line\r\n\n";
    let second = "second\u{00A0}block\nend";
    let config_axes = default_axes();
    let config = Config::new(&config_axes);
    let a = scan_bytes(first.as_bytes(), &config);
    let b = scan_bytes(second.as_bytes(), &config);
    let all = scan_bytes(whole.as_bytes(), &config);
    let merged = a.merge(b);
    assert_eq!(merged.lines, all.lines);
    assert_eq!(merged.lines, 4);
    assert_eq!(merged.invalid_utf8, all.invalid_utf8);
    assert_eq!(merged.long_lines, all.long_lines);
    assert_eq!(merged.forms, all.forms);
    let mut m_axes = merged.per_axis.clone();
    let mut w_axes = all.per_axis.clone();
    m_axes.sort();
    w_axes.sort();
    assert_eq!(m_axes, w_axes);
    let mut m_scripts = merged.per_script.clone();
    let mut w_scripts = all.per_script.clone();
    m_scripts.sort();
    w_scripts.sort();
    assert_eq!(m_scripts, w_scripts);
}
