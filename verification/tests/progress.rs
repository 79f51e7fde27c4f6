use spm_ocr::progress::ProgressReporter;

#[test]
fn the_reporter_remembers_how_it_reports() {
    assert!(ProgressReporter::new(true).json_output());
    assert!(!ProgressReporter::new(false).json_output());
}
