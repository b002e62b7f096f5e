use pixel_palette_colorizer::batch::{contains_text, extension_matches, lowercase_all, summarize};

#[test]
fn extension_match_ignores_case() {
    let wanted = lowercase_all(&["png".to_string(), "JPG".to_string()]);
    assert_eq!(wanted, vec!["png".to_string(), "jpg".to_string()]);
    assert!(extension_matches("PNG", &wanted));
    assert!(extension_matches("png", &wanted));
    assert!(extension_matches("jpg", &wanted));
    assert!(!extension_matches("txt", &wanted));
    assert!(!extension_matches("png", &[]));
}

#[test]
fn summary_counts_successes_and_pixels() {
    let s = summarize(&[Some(3), None, Some(0), None, Some(10)]).unwrap();
    assert_eq!(s.files, 5);
    assert_eq!(s.succeeded, 3);
    assert_eq!(s.failed, 2);
    assert_eq!(s.pixels_changed, 13);
    let empty = summarize(&[]).unwrap();
    assert_eq!((empty.files, empty.succeeded, empty.failed, empty.pixels_changed), (0, 0, 0, 0));
}

#[test]
fn summary_of_overflowing_total_is_none() {
    assert!(summarize(&[Some(u64::MAX), Some(1)]).is_none());
    assert!(summarize(&[Some(u64::MAX), None]).is_some());
}

#[test]
fn contains_text_compares_exactly() {
    let items = vec!["png".to_string(), "jpg".to_string()];
    assert!(contains_text(&items, "jpg"));
    assert!(!contains_text(&items, "JPG"));
    assert!(!contains_text(&items, "jp"));
    assert!(!contains_text(&[], "png"));
}
