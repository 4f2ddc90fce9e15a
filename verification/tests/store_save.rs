//! Saving posts, listing and ordering, and the editor helpers.

use cem::editor::{append_error_comment, file_copy_plan, split_post_path, EditPostFile};
use cem::listing::SITE_LAUNCH_TIMESTAMP;
use cem::models::{Directory, Post, PostImage};
use cem::save::SaveError;
use cem::store::Store;

fn dir(id: i32, title: &str, slug: &str, parent: Option<i32>, path: &str) -> Directory {
    Directory {
        id,
        title: title.to_string(),
        has_proper_title: false,
        slug: slug.to_string(),
        parent_directory_id: parent,
        path: path.to_string(),
    }
}

fn post(id: i32, title: &str, slug: &str, timestamp: i64, directory_id: i32, path: &str) -> Post {
    Post {
        id,
        title: title.to_string(),
        has_proper_title: false,
        slug: slug.to_string(),
        timestamp,
        directory_id,
        description: String::new(),
        path: path.to_string(),
    }
}

fn image(id: i32, post_id: i32, order: i32, alt_text: &str) -> PostImage {
    PostImage { id, post_id, order, alt_text: alt_text.to_string() }
}

fn file(local_path: Option<&str>, alt_text: &str) -> EditPostFile {
    EditPostFile {
        local_path: local_path.map(|p| p.to_string()),
        alt_text: alt_text.to_string(),
    }
}

fn gallery() -> Store {
    Store {
        dirs: vec![
            dir(1, "Art", "art", None, "/art"),
            dir(2, "Pixel", "pixel", Some(1), "/art/pixel"),
        ],
        posts: vec![
            post(3, "Cat", "cat", 1_700_000_000, 2, "/art/pixel/cat"),
            post(4, "Dog", "dog", 1_800_000_000, 1, "/art/dog"),
        ],
        images: vec![image(10, 3, 1, "a cat"), image(11, 3, 2, "another cat")],
    }
}

#[test]
fn inserting_a_post_assigns_the_next_id() {
    let mut s = gallery();
    let files = vec![file(Some("/tmp/a.png"), "first"), file(None, "second")];
    let r = s.save_post(
        None,
        2,
        "fox".to_string(),
        "Fox".to_string(),
        true,
        Some(1_750_000_000),
        1_900_000_000,
        "a fox".to_string(),
        &files,
    );
    assert_eq!(r, Ok(5));
    assert_eq!(s.posts.len(), 3);
    let p = &s.posts[2];
    assert_eq!(p.id, 5);
    assert_eq!(p.slug, "fox");
    assert_eq!(p.timestamp, 1_750_000_000);
    assert_eq!(p.directory_id, 2);
    // The new rows are numbered from one with fresh ids.
    let mine: Vec<&PostImage> = s.images.iter().filter(|im| im.post_id == 5).collect();
    assert_eq!(mine.len(), 2);
    assert_eq!((mine[0].id, mine[0].order, mine[0].alt_text.as_str()), (12, 1, "first"));
    assert_eq!((mine[1].id, mine[1].order, mine[1].alt_text.as_str()), (13, 2, "second"));
    // Other posts keep their images.
    assert_eq!(s.images.iter().filter(|im| im.post_id == 3).count(), 2);
}

#[test]
fn inserting_without_a_timestamp_dates_the_post_now() {
    let mut s = gallery();
    let files = vec![];
    let r = s.save_post(
        None,
        1,
        "owl".to_string(),
        "Owl".to_string(),
        false,
        None,
        1_900_000_000,
        String::new(),
        &files,
    );
    assert_eq!(r, Ok(5));
    assert_eq!(s.posts[2].timestamp, 1_900_000_000);
}

#[test]
fn updating_replaces_fields_and_images() {
    let mut s = gallery();
    let files = vec![file(None, "only one now")];
    let r = s.save_post(
        Some(3),
        1,
        "cat-two".to_string(),
        "Cat II".to_string(),
        true,
        None,
        1_900_000_000,
        "newer".to_string(),
        &files,
    );
    assert_eq!(r, Ok(3));
    assert_eq!(s.posts.len(), 2);
    let p = &s.posts[0];
    assert_eq!(p.id, 3);
    assert_eq!(p.title, "Cat II");
    assert_eq!(p.slug, "cat-two");
    assert_eq!(p.directory_id, 1);
    // An absent timestamp keeps the stored one.
    assert_eq!(p.timestamp, 1_700_000_000);
    let mine: Vec<&PostImage> = s.images.iter().filter(|im| im.post_id == 3).collect();
    assert_eq!(mine.len(), 1);
    assert_eq!((mine[0].order, mine[0].alt_text.as_str()), (1, "only one now"));
}

#[test]
fn saving_into_a_missing_directory_is_refused() {
    let mut s = gallery();
    let files = vec![];
    let r = s.save_post(
        None,
        99,
        "x".to_string(),
        "X".to_string(),
        false,
        None,
        0,
        String::new(),
        &files,
    );
    assert_eq!(r, Err(SaveError::DirectoryNotFound));
    assert_eq!(s.posts.len(), 2);
}

#[test]
fn updating_a_missing_post_is_refused() {
    let mut s = gallery();
    let files = vec![];
    let r = s.save_post(
        Some(77),
        1,
        "x".to_string(),
        "X".to_string(),
        false,
        None,
        0,
        String::new(),
        &files,
    );
    assert_eq!(r, Err(SaveError::PostNotFound));
}

#[test]
fn find_parent_id_resolves_the_parent_directory() {
    let s = gallery();
    assert_eq!(s.find_parent_id("/art/pixel/newpost"), Ok((2, "newpost".to_string())));
    assert_eq!(s.find_parent_id("/art/newpost"), Ok((1, "newpost".to_string())));
    assert_eq!(s.find_parent_id("noslash"), Err(SaveError::InvalidPath));
    assert_eq!(s.find_parent_id("/nope/x"), Err(SaveError::DirectoryNotFound));
}

#[test]
fn recent_posts_come_newest_first_and_at_most_ten() {
    let mut s = gallery();
    for k in 0..12 {
        s.posts.push(post(10 + k, "P", "p", 1_000_000 + k as i64, 1, "/art/p"));
    }
    let r = s.recent_posts();
    assert_eq!(r.len(), 10);
    for w in r.windows(2) {
        assert!(w[0].timestamp >= w[1].timestamp);
    }
    // The two newest are the fixture posts.
    assert_eq!(r[0].id, 4);
    assert_eq!(r[1].id, 3);
}

#[test]
fn feed_holds_only_posts_since_the_launch_oldest_first() {
    let mut s = gallery();
    s.posts.push(post(5, "New", "new", SITE_LAUNCH_TIMESTAMP + 5, 1, "/art/new"));
    s.posts.push(post(6, "Newer", "newer", SITE_LAUNCH_TIMESTAMP + 9, 1, "/art/newer"));
    s.posts.push(post(7, "Launch day", "launch", SITE_LAUNCH_TIMESTAMP, 1, "/art/launch"));
    let r = s.feed_posts();
    let ids: Vec<i32> = r.iter().map(|p| p.id).collect();
    // "Cat" predates the launch and stays out; "Dog" does not.
    assert_eq!(ids, vec![7, 5, 6, 4]);
}

#[test]
fn neighbouring_posts_by_timestamp() {
    let s = gallery();
    assert_eq!(s.next_post_after(1_700_000_000).map(|p| p.id), Some(4));
    assert_eq!(s.next_post_after(1_800_000_000).map(|p| p.id), None);
    assert_eq!(s.prev_post_before(1_800_000_000).map(|p| p.id), Some(3));
    assert_eq!(s.prev_post_before(1_700_000_000).map(|p| p.id), None);
}

#[test]
fn posts_of_a_directory_come_oldest_first() {
    let mut s = gallery();
    s.posts.push(post(5, "Eel", "eel", 1_600_000_000, 1, "/art/eel"));
    let r = s.posts_in_directory(1);
    let ids: Vec<i32> = r.iter().map(|p| p.id).collect();
    assert_eq!(ids, vec![5, 4]);
}

#[test]
fn subdirectories_come_in_title_order() {
    let mut s = gallery();
    s.dirs.push(dir(5, "Acrylic", "acrylic", Some(1), "/art/acrylic"));
    s.dirs.push(dir(6, "Zines", "zines", Some(1), "/art/zines"));
    let r = s.subdirs_of(1);
    let titles: Vec<String> = r.iter().map(|d| d.title.clone()).collect();
    assert_eq!(titles, vec!["Acrylic", "Pixel", "Zines"]);
}

#[test]
fn images_come_in_display_order() {
    let mut s = gallery();
    s.images.push(image(12, 3, 3, "third"));
    // Shuffle the rows; the listing still orders by the order column.
    s.images.swap(0, 2);
    let r = s.images_of_post(3);
    let orders: Vec<i32> = r.iter().map(|im| im.order).collect();
    assert_eq!(orders, vec![1, 2, 3]);
    assert_eq!(r[0].alt_text, "a cat");
}

#[test]
fn split_post_path_cuts_at_the_last_slash() {
    assert_eq!(
        split_post_path("/art/pixel/cat"),
        Some(("/art/pixel".to_string(), "cat".to_string()))
    );
    assert_eq!(split_post_path("/art"), Some(("".to_string(), "art".to_string())));
    assert_eq!(split_post_path("plain"), None);
}

#[test]
fn an_error_is_appended_as_a_comment_block() {
    let out = append_error_comment("a = 1\n", "boom");
    assert_eq!(out, "a = 1\n### ERROR ###\n# boom\n");
}

#[test]
fn an_earlier_error_block_is_replaced() {
    let out = append_error_comment("x\n### ERROR ###\n# old\n", "new");
    assert_eq!(out, "x\n### ERROR ###\n# new\n");
}

#[test]
fn error_lines_each_get_a_comment() {
    let out = append_error_comment("s\n", "l1\nl2");
    assert_eq!(out, "s\n### ERROR ###\n# l1\n# l2\n");
    let crlf = append_error_comment("s\n", "l1\r\nl2\n");
    assert_eq!(crlf, "s\n### ERROR ###\n# l1\n# l2\n");
}

#[test]
fn an_empty_error_appends_only_the_marker() {
    let out = append_error_comment("s\n", "");
    assert_eq!(out, "s\n### ERROR ###\n");
}

#[test]
fn the_file_plan_copies_new_files_and_regenerates_thumbnails() {
    let files = vec![
        file(Some("/tmp/a.png"), "a"),
        file(None, "kept"),
        file(Some("/tmp/b.png"), "b"),
    ];
    let plan = file_copy_plan(&files);
    let copies: Vec<(String, String)> =
        plan.copies.into_iter().map(|c| (c.source, c.dest_name)).collect();
    assert_eq!(
        copies,
        vec![
            ("/tmp/a.png".to_string(), "1.png".to_string()),
            ("/tmp/b.png".to_string(), "3.png".to_string()),
        ]
    );
    assert!(plan.make_thumbnails);
}

#[test]
fn no_new_first_file_means_no_thumbnails() {
    let files = vec![file(None, "kept"), file(Some("/tmp/b.png"), "b")];
    let plan = file_copy_plan(&files);
    assert_eq!(plan.copies.len(), 1);
    assert!(!plan.make_thumbnails);
    let empty = file_copy_plan(&vec![]);
    assert!(empty.copies.is_empty());
    assert!(!empty.make_thumbnails);
}
