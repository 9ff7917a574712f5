use photo_edit::text::{base_name, decimal, has_part, has_prefix, has_suffix, hyphenate, join};

#[test]
fn parts_of_texts() {
    assert!(has_prefix("video/mp4", "video/"));
    assert!(!has_prefix("vid", "video/"));
    assert!(has_suffix("x.dng", ".dng"));
    assert!(!has_suffix("dng", ".dng"));
    assert!(has_part("image/heic", "heic") && has_part("abc", "") && !has_part("hei", "heic"));
    assert!(has_part("xäöy", "äö"));
}

#[test]
fn stems_of_names() {
    assert_eq!(base_name("photo.jpg"), "photo");
    assert_eq!(base_name("a.b.c"), "a.b");
    assert_eq!(base_name("none"), "none");
    assert_eq!(base_name(""), "");
    assert_eq!(base_name(".hidden"), "");
    assert_eq!(base_name(&format!("{}.{}", "some name", "jpeg")), "some name");
}

#[test]
fn numbers_in_decimal() {
    for n in [0usize, 7, 10, 99, 100, 12345, usize::MAX] {
        assert_eq!(decimal(n), n.to_string());
    }
}

#[test]
fn joined_and_hyphenated() {
    let t = |v: &[&str]| v.iter().map(|s| s.to_string()).collect::<Vec<String>>();
    assert_eq!(join(&t(&[]), ","), "");
    assert_eq!(join(&t(&["a"]), ","), "a");
    assert_eq!(join(&t(&["a", "", "c"]), "; "), "a; ; c");
    assert_eq!(hyphenate("a b  c"), "a-b--c");
}
