use spm_ocr::corpus::source::{classify, root_step, Discovery, RootStep, Skipped, Source, MISSING_REASON};

#[test]
fn binary_files_are_skipped_with_a_reason() {
    assert_eq!(classify(Some(b"\x00\x01\x02binary")), Some("binary"));
    assert_eq!(classify(Some(b"hello corpus\n")), None);
    assert_eq!(classify(Some(b"%PDF-1.7")), Some("binary"));
    assert_eq!(classify(Some(b"\xEF\xBB\xBFwith a bom\x00")), None);
    assert_eq!(classify(Some(b"")), None);
    assert_eq!(classify(None), Some("unreadable"));
}

#[test]
fn a_source_is_named_by_its_full_path_and_placed_by_its_root() {
    let source = Source::new("/corpus/books/a.txt", "/corpus");
    assert_eq!(source.path(), "/corpus/books/a.txt");
    assert_eq!(source.label(), "/corpus/books/a.txt");
    assert_eq!(source.relative(), "books/a.txt");

    let outside = Source::new("/elsewhere/a.txt", "/corpus");
    assert_eq!(outside.relative(), "/elsewhere/a.txt");
}

#[test]
fn the_skipped_summary_names_a_few_and_counts_the_rest() {
    let mut found = Discovery::default();
    assert!(found.is_empty());
    assert_eq!(found.summarize_skipped(3), None);

    for (path, reason) in [("/c/a.model", "binary"), ("/c/b.bin", "binary"), ("/c/x/c.dat", "unreadable"), ("/c/d.pt", "binary")] {
        found.skipped.push(Skipped { path: path.to_owned(), reason });
    }
    assert_eq!(
        found.summarize_skipped(3).unwrap(),
        "skipped 4: a.model (binary), b.bin (binary), c.dat (unreadable), and 1 more"
    );
    assert_eq!(found.summarize_skipped(10).unwrap(), "skipped 4: a.model (binary), b.bin (binary), c.dat (unreadable), d.pt (binary)");
    assert_eq!(found.summarize_skipped(0).unwrap(), "skipped 4: , and 4 more");

    found.sources.push(Source::new("/c/e.txt", "/c"));
    assert!(!found.is_empty());
}

#[test]
fn a_named_file_is_taken_and_a_missing_one_reported() {
    assert_eq!(root_step(true, true), RootStep::Walk);
    assert_eq!(root_step(false, true), RootStep::Take);
    assert_eq!(root_step(false, false), RootStep::Missing);
    assert_eq!(MISSING_REASON, "does not exist");
}
