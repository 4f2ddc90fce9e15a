//! Resolution priority, breadcrumbs and path derivation over a store.

use cem::models::{Directory, Post, PostImage};
use cem::resolve::Resolution;
use cem::store::Store;

fn dir(id: i32, title: &str, slug: &str, parent: Option<i32>, path: &str) -> Directory {
    Directory {
        id,
        title: title.to_string(),
        has_proper_title: false,
        slug: slug.to_string(),
        parent_directory_id: parent,
        path: path.to_string(),
    }
}

fn post(id: i32, title: &str, slug: &str, timestamp: i64, directory_id: i32, path: &str) -> Post {
    Post {
        id,
        title: title.to_string(),
        has_proper_title: false,
        slug: slug.to_string(),
        timestamp,
        directory_id,
        description: String::new(),
        path: path.to_string(),
    }
}

fn image(id: i32, post_id: i32, order: i32, alt_text: &str) -> PostImage {
    PostImage { id, post_id, order, alt_text: alt_text.to_string() }
}

fn gallery() -> Store {
    Store {
        dirs: vec![
            dir(1, "Art", "art", None, "/art"),
            dir(2, "Pixel", "pixel", Some(1), "/art/pixel"),
        ],
        posts: vec![
            post(3, "Cat", "cat", 1_700_000_000, 2, "/art/pixel/cat"),
            post(4, "Odd", "thumbnail", 1_800_000_000, 1, "/art/thumbnail"),
        ],
        images: vec![image(10, 3, 1, "a cat"), image(11, 3, 2, "another cat")],
    }
}

#[test]
fn resolves_a_post_file_first() {
    let s = gallery();
    match s.resolve("art/pixel/cat/files/1", None) {
        Resolution::File { post_id, order, storage_path } => {
            assert_eq!(post_id, 3);
            assert_eq!(order, 1);
            assert_eq!(storage_path, "3/files/1.png");
        }
        _ => panic!("expected a file"),
    }
}

#[test]
fn missing_file_order_falls_through() {
    let s = gallery();
    assert!(matches!(s.resolve("art/pixel/cat/files/3", None), Resolution::NotFound));
}

#[test]
fn resolves_a_thumbnail_with_default_height() {
    let s = gallery();
    match s.resolve("art/pixel/cat/thumbnail", None) {
        Resolution::Thumbnail { post_id, height, storage_path } => {
            assert_eq!(post_id, 3);
            assert_eq!(height, 200);
            assert_eq!(storage_path, "3/thumbnails/200.png");
        }
        _ => panic!("expected a thumbnail"),
    }
}

#[test]
fn resolves_a_thumbnail_with_generated_height() {
    let s = gallery();
    match s.resolve("art/pixel/cat/thumbnail", Some(300)) {
        Resolution::Thumbnail { post_id, height, storage_path } => {
            assert_eq!(post_id, 3);
            assert_eq!(height, 300);
            assert_eq!(storage_path, "3/thumbnails/300.png");
        }
        _ => panic!("expected a thumbnail"),
    }
}

#[test]
fn ungenerated_height_is_absent() {
    let s = gallery();
    assert!(matches!(s.resolve("art/pixel/cat/thumbnail", Some(999)), Resolution::NotFound));
}

#[test]
fn resolves_a_post_page() {
    let s = gallery();
    match s.resolve("art/pixel/cat", None) {
        Resolution::PostPage { post_id } => assert_eq!(post_id, 3),
        _ => panic!("expected a post page"),
    }
}

#[test]
fn resolves_a_directory_page() {
    let s = gallery();
    match s.resolve("art/pixel", None) {
        Resolution::DirectoryPage { directory_id } => assert_eq!(directory_id, 2),
        _ => panic!("expected a directory page"),
    }
}

#[test]
fn unknown_path_is_absent() {
    let s = gallery();
    assert!(matches!(s.resolve("nope", None), Resolution::NotFound));
    assert!(matches!(s.resolve("art/pixel/dog", None), Resolution::NotFound));
}

#[test]
fn post_named_thumbnail_is_reached_when_no_thumbnail_matches() {
    // The prefix "/art" names a directory, not a post, so the thumbnail
    // step does not match and the post at "/art/thumbnail" is served.
    let s = gallery();
    match s.resolve("art/thumbnail", None) {
        Resolution::PostPage { post_id } => assert_eq!(post_id, 4),
        _ => panic!("expected the post page"),
    }
}

#[test]
fn thumbnail_wins_over_an_exact_post_path() {
    // A post stands at "/x" and another at "/x/thumbnail"; the thumbnail of
    // the first wins over the page of the second.
    let mut s = gallery();
    s.posts.push(post(5, "X", "x", 1, 1, "/x"));
    s.posts.push(post(6, "Shadowed", "thumbnail", 2, 1, "/x/thumbnail"));
    match s.resolve("x/thumbnail", None) {
        Resolution::Thumbnail { post_id, height, .. } => {
            assert_eq!(post_id, 5);
            assert_eq!(height, 200);
        }
        _ => panic!("expected the thumbnail to win"),
    }
}

#[test]
fn file_wins_over_an_exact_post_path() {
    // A post stands at "/q" with a first image, and another post at
    // "/q/files/1"; the file of the first wins over the page of the second.
    let mut s = gallery();
    s.posts.push(post(5, "Q", "q", 1, 1, "/q"));
    s.posts.push(post(6, "Shadowed", "1", 2, 1, "/q/files/1"));
    s.images.push(image(12, 5, 1, "q's image"));
    match s.resolve("q/files/1", None) {
        Resolution::File { post_id, order, storage_path } => {
            assert_eq!(post_id, 5);
            assert_eq!(order, 1);
            assert_eq!(storage_path, "5/files/1.png");
        }
        _ => panic!("expected the file to win"),
    }
}

#[test]
fn breadcrumbs_run_root_to_leaf() {
    let s = gallery();
    // For the post page of "Cat" the walk starts at its directory.
    let trail = s.breadcrumbs_from(Some(2));
    let got: Vec<(String, String)> =
        trail.into_iter().map(|b| (b.path, b.label)).collect();
    assert_eq!(
        got,
        vec![
            ("/art".to_string(), "Art".to_string()),
            ("/art/pixel".to_string(), "Pixel".to_string()),
        ]
    );
}

#[test]
fn breadcrumbs_for_a_directory_start_at_its_parent() {
    let s = gallery();
    let trail = s.breadcrumbs_from(Some(1));
    assert_eq!(trail.len(), 1);
    assert_eq!(trail[0].path, "/art");
    let none = s.breadcrumbs_from(None);
    assert!(none.is_empty());
}

#[test]
fn refresh_rederives_the_paths_from_slugs() {
    let mut s = gallery();
    // Stale path fields, as after a write that changed slugs.
    s.dirs[1].slug = "pixels".to_string();
    s.posts[0].path = String::new();
    s.refresh_paths();
    assert_eq!(s.dirs[0].path, "/art");
    assert_eq!(s.dirs[1].path, "/art/pixels");
    assert_eq!(s.posts[0].path, "/art/pixels/cat");
    assert_eq!(s.posts[1].path, "/art/thumbnail");
}

#[test]
fn compute_dir_path_concatenates_ancestor_slugs() {
    let s = gallery();
    assert_eq!(s.compute_dir_path(1), "/art");
    assert_eq!(s.compute_dir_path(2), "/art/pixel");
}

#[test]
fn an_empty_store_resolves_nothing() {
    let s = Store::new();
    assert!(matches!(s.resolve("anything", None), Resolution::NotFound));
    assert!(matches!(s.resolve("a/files/1", Some(200)), Resolution::NotFound));
    assert!(s.recent_posts().is_empty());
    assert!(s.feed_posts().is_empty());
}

#[test]
fn posts_with_equal_timestamps_all_appear() {
    let mut s = gallery();
    s.posts.push(post(5, "Twin", "twin", 1_700_000_000, 1, "/art/twin"));
    let r = s.recent_posts();
    assert_eq!(r.len(), 3);
    for w in r.windows(2) {
        assert!(w[0].timestamp >= w[1].timestamp);
    }
    let ids: Vec<i32> = r.iter().map(|p| p.id).collect();
    assert!(ids.contains(&3) && ids.contains(&5));
}
