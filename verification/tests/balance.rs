use spm_ocr::balance::{classify_line, shuffled_for_training};

#[test]
fn path_language_hint_wins_when_present() {
    let bucket = classify_line("vendor/es/books/file", "hello");

    assert_eq!(bucket.language_hint, "es");
}

#[test]
fn falls_back_to_dominant_script() {
    let bucket = classify_line("vendor/books/file", "Привет мир");

    assert_eq!(bucket.script, "cyrillic");
    assert_eq!(bucket.language_hint, "unknown");
}

#[test]
fn shuffling_for_training_is_reproducible_and_reorders() {
    let lines: Vec<String> = (0..40).map(|i| format!("line {i}")).collect();
    let bucket = classify_line("vendor/books/file", "hello");
    let other = classify_line("vendor/es/books/file", "hello");

    let once = shuffled_for_training(lines.clone(), 1337, &bucket);
    let again = shuffled_for_training(lines.clone(), 1337, &bucket);
    let elsewhere = shuffled_for_training(lines.clone(), 1337, &other);

    assert_eq!(once, again);
    assert_ne!(once, lines);
    assert_ne!(once, elsewhere);
    let mut sorted = once.clone();
    sorted.sort();
    let mut expected = lines.clone();
    expected.sort();
    assert_eq!(sorted, expected);
}
