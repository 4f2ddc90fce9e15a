//! URL parsing, storage layout and host extraction.

use cem::resolve::{
    file_storage_path, file_suffix, generated_height, host_of, parse_file_path,
    thumbnail_heights, thumbnail_storage_path, DEFAULT_THUMBNAIL_HEIGHT,
};
use cem::text::parse_decimal;

#[test]
fn file_path_with_nested_post() {
    let r = parse_file_path("some/post/files/123");
    assert!(r.is_some());
    let (path, num) = r.unwrap();
    assert_eq!(path, "/some/post");
    assert_eq!(num, 123);
}

#[test]
fn file_path_directly_under_root() {
    let (path, num) = parse_file_path("files/3").unwrap();
    assert_eq!(path, "/");
    assert_eq!(num, 3);
}

#[test]
fn file_path_rejects_zero_order() {
    assert!(parse_file_path("a/files/0").is_none());
}

#[test]
fn file_path_rejects_wrong_segment() {
    assert!(parse_file_path("a/filez/3").is_none());
    assert!(parse_file_path("a/b/3").is_none());
}

#[test]
fn file_path_rejects_single_segment() {
    assert!(parse_file_path("3").is_none());
    assert!(parse_file_path("files").is_none());
}

#[test]
fn file_path_rejects_overflowing_order() {
    assert!(parse_file_path("a/files/99999999999999").is_none());
    assert!(parse_file_path("a/files/2147483648").is_none());
    let (_, num) = parse_file_path("a/files/2147483647").unwrap();
    assert_eq!(num, 2147483647);
}

#[test]
fn file_path_rejects_non_digits() {
    assert!(parse_file_path("a/files/12x").is_none());
    assert!(parse_file_path("a/files/").is_none());
    assert!(parse_file_path("a/files/-2").is_none());
}

#[test]
fn file_path_accepts_leading_zeros() {
    let (path, num) = parse_file_path("p/files/007").unwrap();
    assert_eq!(path, "/p");
    assert_eq!(num, 7);
}

#[test]
fn decimal_parsing() {
    assert_eq!(parse_decimal("0"), Some(0));
    assert_eq!(parse_decimal("007"), Some(7));
    assert_eq!(parse_decimal("4294967295"), Some(u32::MAX));
    assert_eq!(parse_decimal("4294967296"), None);
    assert_eq!(parse_decimal(""), None);
    assert_eq!(parse_decimal("12a"), None);
}

#[test]
fn storage_layout_for_files() {
    assert_eq!(file_storage_path(12, 3, "png"), "12/files/3.png");
    assert_eq!(file_storage_path(1, 1, "jpg"), "1/files/1.jpg");
}

#[test]
fn storage_layout_for_thumbnails() {
    assert_eq!(thumbnail_storage_path(5, 200), "5/thumbnails/200.png");
    assert_eq!(thumbnail_storage_path(731, 1080), "731/thumbnails/1080.png");
}

#[test]
fn suffix_special_case() {
    assert_eq!(file_suffix("a-bubble-blower-very-cool", 2), "jpg");
    assert_eq!(file_suffix("a-bubble-blower-very-cool", 1), "png");
    assert_eq!(file_suffix("anything-else", 2), "png");
}

#[test]
fn generated_heights() {
    assert_eq!(thumbnail_heights(), vec![100, 200, 300, 400, 1080]);
    assert!(generated_height(DEFAULT_THUMBNAIL_HEIGHT));
    assert!(generated_height(1080));
    assert!(!generated_height(150));
    assert!(!generated_height(0));
}

#[test]
fn host_of_plain_url() {
    assert_eq!(host_of("https://example.com"), Some("example.com".to_string()));
    assert_eq!(host_of("https://example.com/blog"), Some("example.com".to_string()));
}

#[test]
fn host_of_with_port_and_userinfo() {
    assert_eq!(host_of("https://user@example.com:8443/x"), Some("example.com".to_string()));
    assert_eq!(host_of("http://example.com:80"), Some("example.com".to_string()));
}

#[test]
fn host_of_bracketed_address() {
    assert_eq!(host_of("http://[::1]:8080/"), Some("[::1]".to_string()));
}

#[test]
fn host_of_rejects_incomplete_urls() {
    assert_eq!(host_of("not a url"), None);
    assert_eq!(host_of("https://"), None);
    assert_eq!(host_of("mailto:someone"), None);
}
