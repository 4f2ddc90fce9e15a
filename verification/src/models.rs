//! The entities of the relational store, with their mathematical views.
//!
//! Timestamps are held as seconds since the Unix epoch; identifiers are the
//! store's row ids. Each entity has a view struct whose fields are `int`,
//! `Seq<char>` and `Option<int>`, and all contracts speak of those views.

use vstd::prelude::*;

verus! {

/// A directory containing posts and subdirectories.
pub struct Directory {
    pub id: i32,
    pub title: String,
    /// If true, the title of this directory should be italicized.
    pub has_proper_title: bool,
    /// This directory's title as it appears in the URL, lowercase and
    /// dash-separated.
    pub slug: String,
    pub parent_directory_id: Option<i32>,
    /// The full path for this directory, including all parent directories;
    /// derived from the slugs and kept by `Store::refresh_paths`.
    pub path: String,
}

/// The view of a [`Directory`].
#[verifier::ext_equal]
pub ghost struct DirectoryV {
    pub id: int,
    pub title: Seq<char>,
    pub has_proper_title: bool,
    pub slug: Seq<char>,
    pub parent_directory_id: Option<int>,
    pub path: Seq<char>,
}

impl View for Directory {
    type V = DirectoryV;

    open spec fn view(&self) -> DirectoryV {
        DirectoryV {
            id: self.id as int,
            title: self.title@,
            has_proper_title: self.has_proper_title,
            slug: self.slug@,
            parent_directory_id: match self.parent_directory_id {
                Some(p) => Some(p as int),
                None => None,
            },
            path: self.path@,
        }
    }
}

impl Directory {
    /// A field-by-field copy.
    pub fn duplicate(&self) -> (r: Directory)
        ensures
            r@ == self@,
    {
        Directory {
            id: self.id,
            title: self.title.clone(),
            has_proper_title: self.has_proper_title,
            slug: self.slug.clone(),
            parent_directory_id: self.parent_directory_id,
            path: self.path.clone(),
        }
    }
}

/// A post.
pub struct Post {
    pub id: i32,
    pub title: String,
    /// If true, the title of this post should be italicized.
    pub has_proper_title: bool,
    /// This post's title as it appears in the URL, lowercase and
    /// dash-separated.
    pub slug: String,
    /// The time this post was made, in seconds since the Unix epoch; it may
    /// be backdated to the time it was originally made on another site.
    pub timestamp: i64,
    pub directory_id: i32,
    pub description: String,
    /// The full path for this post, including all parent directories;
    /// derived from the slugs and kept by `Store::refresh_paths`.
    pub path: String,
}

/// The view of a [`Post`].
#[verifier::ext_equal]
pub ghost struct PostV {
    pub id: int,
    pub title: Seq<char>,
    pub has_proper_title: bool,
    pub slug: Seq<char>,
    pub timestamp: int,
    pub directory_id: int,
    pub description: Seq<char>,
    pub path: Seq<char>,
}

impl View for Post {
    type V = PostV;

    open spec fn view(&self) -> PostV {
        PostV {
            id: self.id as int,
            title: self.title@,
            has_proper_title: self.has_proper_title,
            slug: self.slug@,
            timestamp: self.timestamp as int,
            directory_id: self.directory_id as int,
            description: self.description@,
            path: self.path@,
        }
    }
}

impl Post {
    /// A field-by-field copy.
    pub fn duplicate(&self) -> (r: Post)
        ensures
            r@ == self@,
    {
        Post {
            id: self.id,
            title: self.title.clone(),
            has_proper_title: self.has_proper_title,
            slug: self.slug.clone(),
            timestamp: self.timestamp,
            directory_id: self.directory_id,
            description: self.description.clone(),
            path: self.path.clone(),
        }
    }
}

/// An image file attached to a post.
pub struct PostImage {
    pub id: i32,
    pub post_id: i32,
    /// 1-based display order; unique and contiguous within a post.
    pub order: i32,
    pub alt_text: String,
}

/// The view of a [`PostImage`].
#[verifier::ext_equal]
pub ghost struct PostImageV {
    pub id: int,
    pub post_id: int,
    pub order: int,
    pub alt_text: Seq<char>,
}

impl View for PostImage {
    type V = PostImageV;

    open spec fn view(&self) -> PostImageV {
        PostImageV {
            id: self.id as int,
            post_id: self.post_id as int,
            order: self.order as int,
            alt_text: self.alt_text@,
        }
    }
}

impl PostImage {
    /// A field-by-field copy.
    pub fn duplicate(&self) -> (r: PostImage)
        ensures
            r@ == self@,
    {
        PostImage {
            id: self.id,
            post_id: self.post_id,
            order: self.order,
            alt_text: self.alt_text.clone(),
        }
    }
}

/// The views of a sequence of directory rows.
pub open spec fn dir_views(s: Seq<Directory>) -> Seq<DirectoryV> {
    s.map_values(|d: Directory| d@)
}

/// The views of a sequence of post rows.
pub open spec fn post_views(s: Seq<Post>) -> Seq<PostV> {
    s.map_values(|p: Post| p@)
}

/// The views of a sequence of image rows.
pub open spec fn image_views(s: Seq<PostImage>) -> Seq<PostImageV> {
    s.map_values(|im: PostImage| im@)
}

/// Mapping to views commutes with appending a directory row.
pub proof fn lemma_dir_views_push(s: Seq<Directory>, x: Directory)
    ensures
        dir_views(s.push(x)) == dir_views(s).push(x@),
{
    assert forall|k: int| 0 <= k < s.len() + 1 implies dir_views(s.push(x))[k] == dir_views(
        s,
    ).push(x@)[k] by {
        if k < s.len() {
            assert(s.push(x)[k] == s[k]);
        } else {
            assert(s.push(x)[k] == x);
        }
    }
    assert(dir_views(s.push(x)) =~= dir_views(s).push(x@));
}

/// Mapping to views commutes with appending a post row.
pub proof fn lemma_post_views_push(s: Seq<Post>, x: Post)
    ensures
        post_views(s.push(x)) == post_views(s).push(x@),
{
    assert forall|k: int| 0 <= k < s.len() + 1 implies post_views(s.push(x))[k] == post_views(
        s,
    ).push(x@)[k] by {
        if k < s.len() {
            assert(s.push(x)[k] == s[k]);
        } else {
            assert(s.push(x)[k] == x);
        }
    }
    assert(post_views(s.push(x)) =~= post_views(s).push(x@));
}

/// Mapping to views commutes with appending an image row.
pub proof fn lemma_image_views_push(s: Seq<PostImage>, x: PostImage)
    ensures
        image_views(s.push(x)) == image_views(s).push(x@),
{
    assert forall|k: int| 0 <= k < s.len() + 1 implies image_views(s.push(x))[k] == image_views(
        s,
    ).push(x@)[k] by {
        if k < s.len() {
            assert(s.push(x)[k] == s[k]);
        } else {
            assert(s.push(x)[k] == x);
        }
    }
    assert(image_views(s.push(x)) =~= image_views(s).push(x@));
}

/// The view of an optional row id.
pub open spec fn id_view(o: Option<i32>) -> Option<int> {
    match o {
        Some(v) => Some(v as int),
        None => None,
    }
}

/// One ancestor in the trail of parent links above a page title.
pub struct Breadcrumb {
    /// Full path of the ancestor directory.
    pub path: String,
    /// Its title.
    pub label: String,
}

/// The view of a [`Breadcrumb`].
#[verifier::ext_equal]
pub ghost struct BreadcrumbV {
    pub path: Seq<char>,
    pub label: Seq<char>,
}

impl View for Breadcrumb {
    type V = BreadcrumbV;

    open spec fn view(&self) -> BreadcrumbV {
        BreadcrumbV { path: self.path@, label: self.label@ }
    }
}

} // verus!
