//! The relational store, modelled as plain data.
//!
//! A [`Store`] is a snapshot of the three tables: directories, posts and
//! post images, together with the derived full paths. Its well-formedness
//! predicate captures the invariants of the schema: unique positive ids,
//! existing foreign references, terminating parent chains, per-post image
//! orders that are unique and contiguous from one, and path fields that
//! equal the concatenation of ancestor slugs.

use vstd::prelude::*;

use crate::models::{Directory, DirectoryV, Post, PostImage, PostImageV, PostV};
use crate::text::str_eq;

verus! {

/// The first index at or after `from` whose element satisfies `pred`.
pub open spec fn find_from<A>(s: Seq<A>, pred: spec_fn(A) -> bool, from: int) -> Option<int>
    decreases s.len() - from when from >= 0
{
    if from < 0 || from >= s.len() {
        None
    } else if pred(s[from]) {
        Some(from)
    } else {
        find_from(s, pred, from + 1)
    }
}

/// What `find_from` returns: the first match, or none when nothing matches.
pub proof fn lemma_find_from<A>(s: Seq<A>, pred: spec_fn(A) -> bool, from: int)
    requires
        0 <= from <= s.len(),
    ensures
        match find_from(s, pred, from) {
            Some(i) => from <= i < s.len() && pred(s[i]) && forall|k: int|
                from <= k < i ==> !pred(s[k]),
            None => forall|k: int| from <= k < s.len() ==> !pred(s[k]),
        },
    decreases s.len() - from,
{
    if from < s.len() && !pred(s[from]) {
        lemma_find_from(s, pred, from + 1);
    }
}

/// Searching from a position is searching the suffix from its start.
pub proof fn lemma_find_from_shift<A>(s: Seq<A>, pred: spec_fn(A) -> bool, cut: int, from: int)
    requires
        0 <= cut <= from <= s.len(),
    ensures
        find_from(s, pred, from) == (match find_from(s.skip(cut), pred, from - cut) {
            Some(i) => Some(i + cut),
            None => None,
        }),
    decreases s.len() - from,
{
    if from < s.len() {
        assert(s.skip(cut)[from - cut] == s[from]);
        lemma_find_from_shift(s, pred, cut, from + 1);
    }
}

/// The predicate "this directory has id `id`".
pub open spec fn dir_has_id(id: int) -> spec_fn(DirectoryV) -> bool {
    |d: DirectoryV| d.id == id
}

/// The predicate "this post has id `id`".
pub open spec fn post_has_id(id: int) -> spec_fn(PostV) -> bool {
    |p: PostV| p.id == id
}

/// The predicate "this post's derived full path is `path`".
pub open spec fn post_has_path(path: Seq<char>) -> spec_fn(PostV) -> bool {
    |p: PostV| p.path == path
}

/// The predicate "this directory's derived full path is `path`".
pub open spec fn dir_has_path(path: Seq<char>) -> spec_fn(DirectoryV) -> bool {
    |d: DirectoryV| d.path == path
}

/// The predicate "this image belongs to `post_id` with display order `order`".
pub open spec fn image_has(post_id: int, order: int) -> spec_fn(PostImageV) -> bool {
    |im: PostImageV| im.post_id == post_id && im.order == order
}

/// The first directory with the given id.
pub open spec fn dir_by_id(dirs: Seq<DirectoryV>, id: int) -> Option<DirectoryV> {
    match find_from(dirs, dir_has_id(id), 0) {
        Some(i) => Some(dirs[i]),
        None => None,
    }
}

/// The first post with the given id.
pub open spec fn post_by_id(posts: Seq<PostV>, id: int) -> Option<PostV> {
    match find_from(posts, post_has_id(id), 0) {
        Some(i) => Some(posts[i]),
        None => None,
    }
}

/// The first post whose derived full path is `path`.
pub open spec fn post_at_path(posts: Seq<PostV>, path: Seq<char>) -> Option<PostV> {
    match find_from(posts, post_has_path(path), 0) {
        Some(i) => Some(posts[i]),
        None => None,
    }
}

/// The first directory whose derived full path is `path`.
pub open spec fn dir_at_path(dirs: Seq<DirectoryV>, path: Seq<char>) -> Option<DirectoryV> {
    match find_from(dirs, dir_has_path(path), 0) {
        Some(i) => Some(dirs[i]),
        None => None,
    }
}

/// The first image of the given post with the given display order.
pub open spec fn image_at(images: Seq<PostImageV>, post_id: int, order: int) -> Option<
    PostImageV,
> {
    match find_from(images, image_has(post_id, order), 0) {
        Some(i) => Some(images[i]),
        None => None,
    }
}

/// A directory that stands in the store can be found by its id.
pub proof fn lemma_member_found_dir(dirs: Seq<DirectoryV>, i: int)
    requires
        0 <= i < dirs.len(),
    ensures
        dir_by_id(dirs, dirs[i].id) is Some,
{
    lemma_find_from(dirs, dir_has_id(dirs[i].id), 0);
}

/// A post that stands in the store can be found by its id.
pub proof fn lemma_member_found_post(posts: Seq<PostV>, i: int)
    requires
        0 <= i < posts.len(),
    ensures
        post_by_id(posts, posts[i].id) is Some,
{
    lemma_find_from(posts, post_has_id(posts[i].id), 0);
}

/// The parent chain starting at the directory with id `id` reaches a
/// directory without a parent within `fuel` steps.
pub open spec fn chain_terminates(dirs: Seq<DirectoryV>, id: int, fuel: nat) -> bool
    decreases fuel,
{
    match dir_by_id(dirs, id) {
        None => false,
        Some(d) => match d.parent_directory_id {
            None => true,
            Some(p) => fuel > 0 && chain_terminates(dirs, p, (fuel - 1) as nat),
        },
    }
}

/// The directories on the parent chain from id `id` up to the root,
/// leaf first.
pub open spec fn dir_chain(dirs: Seq<DirectoryV>, id: int, fuel: nat) -> Seq<DirectoryV>
    decreases fuel,
{
    match dir_by_id(dirs, id) {
        None => Seq::empty(),
        Some(d) => match d.parent_directory_id {
            None => seq![d],
            Some(p) => if fuel == 0 {
                seq![d]
            } else {
                seq![d] + dir_chain(dirs, p, (fuel - 1) as nat)
            },
        },
    }
}

/// The derived full path of the directory with id `id`: the concatenation
/// of the slugs of its ancestors, each preceded by a slash, root first.
pub open spec fn dir_path(dirs: Seq<DirectoryV>, id: int, fuel: nat) -> Seq<char>
    decreases fuel,
{
    match dir_by_id(dirs, id) {
        None => Seq::empty(),
        Some(d) => match d.parent_directory_id {
            None => seq!['/'] + d.slug,
            Some(p) => if fuel == 0 {
                Seq::empty()
            } else {
                dir_path(dirs, p, (fuel - 1) as nat) + seq!['/'] + d.slug
            },
        },
    }
}

/// The derived full path of a post: its directory's path, a slash, its slug.
pub open spec fn post_path_of(dirs: Seq<DirectoryV>, p: PostV) -> Seq<char> {
    dir_path(dirs, p.directory_id, dirs.len() as nat) + seq!['/'] + p.slug
}

/// The view of a [`Store`].
#[verifier::ext_equal]
pub ghost struct StoreV {
    pub dirs: Seq<DirectoryV>,
    pub posts: Seq<PostV>,
    pub images: Seq<PostImageV>,
}

/// A snapshot of the relational store.
pub struct Store {
    pub dirs: Vec<Directory>,
    pub posts: Vec<Post>,
    pub images: Vec<PostImage>,
}

impl View for Store {
    type V = StoreV;

    open spec fn view(&self) -> StoreV {
        StoreV {
            dirs: crate::models::dir_views(self.dirs@),
            posts: crate::models::post_views(self.posts@),
            images: crate::models::image_views(self.images@),
        }
    }
}

/// Directory rows are well-formed: ids are positive, fit the id column and
/// are unique, and every parent chain ends at a root directory.
pub open spec fn wf_dirs(dirs: Seq<DirectoryV>) -> bool {
    &&& forall|i: int| 0 <= i < dirs.len() ==> 1 <= (#[trigger] dirs[i]).id <= i32::MAX
    &&& forall|i: int, j: int|
        0 <= i < dirs.len() && 0 <= j < dirs.len() && i != j ==> (#[trigger] dirs[i]).id != (
        #[trigger] dirs[j]).id
    &&& forall|i: int|
        0 <= i < dirs.len() ==> chain_terminates(dirs, (#[trigger] dirs[i]).id, dirs.len() as nat)
}

/// Post rows are well-formed: ids are positive, fit the id column and are
/// unique, and each post belongs to an existing directory.
pub open spec fn wf_posts(s: StoreV) -> bool {
    &&& forall|i: int| 0 <= i < s.posts.len() ==> 1 <= (#[trigger] s.posts[i]).id <= i32::MAX
    &&& forall|i: int, j: int|
        0 <= i < s.posts.len() && 0 <= j < s.posts.len() && i != j ==> (#[trigger] s.posts[i]).id
            != (#[trigger] s.posts[j]).id
    &&& forall|i: int|
        0 <= i < s.posts.len() ==> dir_by_id(s.dirs, (#[trigger] s.posts[i]).directory_id)
            is Some
}

/// Image rows are well-formed: ids are positive, fit the id column and are
/// unique; each image belongs to an existing post; and within one post the
/// display orders are unique and contiguous from one (every order is at
/// least one, and every order above one has a predecessor).
pub open spec fn wf_images(s: StoreV) -> bool {
    &&& forall|i: int| 0 <= i < s.images.len() ==> 1 <= (#[trigger] s.images[i]).id <= i32::MAX
    &&& forall|i: int, j: int|
        0 <= i < s.images.len() && 0 <= j < s.images.len() && i != j ==> (
        #[trigger] s.images[i]).id != (#[trigger] s.images[j]).id
    &&& forall|i: int|
        0 <= i < s.images.len() ==> post_by_id(s.posts, (#[trigger] s.images[i]).post_id) is Some
    &&& forall|i: int| 0 <= i < s.images.len() ==> 1 <= (#[trigger] s.images[i]).order <= i32::MAX
    &&& forall|i: int, j: int|
        0 <= i < s.images.len() && 0 <= j < s.images.len() && i != j && (
        #[trigger] s.images[i]).post_id == (#[trigger] s.images[j]).post_id ==> s.images[i].order
            != s.images[j].order
    &&& forall|i: int|
        0 <= i < s.images.len() && (#[trigger] s.images[i]).order > 1 ==> exists|j: int|
            0 <= j < s.images.len() && (#[trigger] s.images[j]).post_id == s.images[i].post_id
                && s.images[j].order == s.images[i].order - 1
}

/// The law of order contiguity: in a well-formed store, a post's display
/// orders are contiguous from one — below any order an image holds, every
/// order down to one is held by some image of the same post.
pub proof fn lemma_orders_contiguous(s: StoreV, pid: int, m: int, o: int)
    requires
        wf_images(s),
        1 <= o <= m,
        exists|j: int|
            0 <= j < s.images.len() && (#[trigger] s.images[j]).post_id == pid
                && s.images[j].order == m,
    ensures
        exists|j: int|
            0 <= j < s.images.len() && (#[trigger] s.images[j]).post_id == pid
                && s.images[j].order == o,
    decreases m - o,
{
    if o < m {
        let j = choose|j: int|
            0 <= j < s.images.len() && (#[trigger] s.images[j]).post_id == pid
                && s.images[j].order == m;
        assert(s.images[j].order > 1);
        let p = choose|p: int|
            0 <= p < s.images.len() && (#[trigger] s.images[p]).post_id == s.images[j].post_id
                && s.images[p].order == s.images[j].order - 1;
        assert(s.images[p].post_id == pid && s.images[p].order == m - 1);
        lemma_orders_contiguous(s, pid, m - 1, o);
    }
}

/// The reference part of well-formedness; independent of the path fields.
pub open spec fn wf_refs(s: StoreV) -> bool {
    &&& wf_dirs(s.dirs)
    &&& wf_posts(s)
    &&& wf_images(s)
}

/// The path fields hold the derived full paths.
pub open spec fn wf_paths(s: StoreV) -> bool {
    &&& forall|i: int|
        0 <= i < s.dirs.len() ==> (#[trigger] s.dirs[i]).path == dir_path(
            s.dirs,
            s.dirs[i].id,
            s.dirs.len() as nat,
        )
    &&& forall|i: int|
        0 <= i < s.posts.len() ==> (#[trigger] s.posts[i]).path == post_path_of(
            s.dirs,
            s.posts[i],
        )
}

/// Full well-formedness of a store snapshot.
pub open spec fn wf(s: StoreV) -> bool {
    wf_refs(s) && wf_paths(s)
}

impl Store {
    /// An empty store.
    pub fn new() -> (r: Store)
        ensures
            r@.dirs.len() == 0,
            r@.posts.len() == 0,
            r@.images.len() == 0,
            wf(r@),
    {
        let r = Store { dirs: Vec::new(), posts: Vec::new(), images: Vec::new() };
        proof {
            assert(r@.dirs =~= Seq::<DirectoryV>::empty());
            assert(r@.posts =~= Seq::<PostV>::empty());
            assert(r@.images =~= Seq::<PostImageV>::empty());
        }
        r
    }

    /// Fetch a directory row by id.
    pub fn directory_by_id(&self, id: i32) -> (r: Option<&Directory>)
        ensures
            match r {
                Some(d) => dir_by_id(self@.dirs, id as int) == Some(d@),
                None => dir_by_id(self@.dirs, id as int) is None,
            },
    {
        let n: usize = self.dirs.len();
        let mut i: usize = 0;
        while i < n
            invariant
                0 <= i <= n,
                n == self.dirs.len(),
                self@.dirs.len() == n,
                find_from(self@.dirs, dir_has_id(id as int), 0) == find_from(
                    self@.dirs,
                    dir_has_id(id as int),
                    i as int,
                ),
            decreases n - i,
        {
            if self.dirs[i].id == id {
                return Some(&self.dirs[i]);
            }
            i = i + 1;
        }
        None
    }

    /// Fetch a post row by id.
    pub fn post_by_id(&self, id: i32) -> (r: Option<&Post>)
        ensures
            match r {
                Some(p) => post_by_id(self@.posts, id as int) == Some(p@),
                None => post_by_id(self@.posts, id as int) is None,
            },
    {
        let n: usize = self.posts.len();
        let mut i: usize = 0;
        while i < n
            invariant
                0 <= i <= n,
                n == self.posts.len(),
                self@.posts.len() == n,
                find_from(self@.posts, post_has_id(id as int), 0) == find_from(
                    self@.posts,
                    post_has_id(id as int),
                    i as int,
                ),
            decreases n - i,
        {
            if self.posts[i].id == id {
                return Some(&self.posts[i]);
            }
            i = i + 1;
        }
        None
    }

    /// Fetch a post row by its derived full path, as the path view does.
    pub fn post_by_path(&self, path: &str) -> (r: Option<&Post>)
        ensures
            match r {
                Some(p) => post_at_path(self@.posts, path@) == Some(p@),
                None => post_at_path(self@.posts, path@) is None,
            },
    {
        let n: usize = self.posts.len();
        let mut i: usize = 0;
        while i < n
            invariant
                0 <= i <= n,
                n == self.posts.len(),
                self@.posts.len() == n,
                find_from(self@.posts, post_has_path(path@), 0) == find_from(
                    self@.posts,
                    post_has_path(path@),
                    i as int,
                ),
            decreases n - i,
        {
            if str_eq(self.posts[i].path.as_str(), path) {
                return Some(&self.posts[i]);
            }
            i = i + 1;
        }
        None
    }

    /// Fetch a directory row by its derived full path, as the path view does.
    pub fn directory_by_path(&self, path: &str) -> (r: Option<&Directory>)
        ensures
            match r {
                Some(d) => dir_at_path(self@.dirs, path@) == Some(d@),
                None => dir_at_path(self@.dirs, path@) is None,
            },
    {
        let n: usize = self.dirs.len();
        let mut i: usize = 0;
        while i < n
            invariant
                0 <= i <= n,
                n == self.dirs.len(),
                self@.dirs.len() == n,
                find_from(self@.dirs, dir_has_path(path@), 0) == find_from(
                    self@.dirs,
                    dir_has_path(path@),
                    i as int,
                ),
            decreases n - i,
        {
            if str_eq(self.dirs[i].path.as_str(), path) {
                return Some(&self.dirs[i]);
            }
            i = i + 1;
        }
        None
    }

    /// Fetch the image of a post with a given display order.
    pub fn image_by(&self, post_id: i32, order: i32) -> (r: Option<&PostImage>)
        ensures
            match r {
                Some(im) => image_at(self@.images, post_id as int, order as int) == Some(im@),
                None => image_at(self@.images, post_id as int, order as int) is None,
            },
    {
        let n: usize = self.images.len();
        let mut i: usize = 0;
        while i < n
            invariant
                0 <= i <= n,
                n == self.images.len(),
                self@.images.len() == n,
                find_from(self@.images, image_has(post_id as int, order as int), 0) == find_from(
                    self@.images,
                    image_has(post_id as int, order as int),
                    i as int,
                ),
            decreases n - i,
        {
            if self.images[i].post_id == post_id && self.images[i].order == order {
                return Some(&self.images[i]);
            }
            i = i + 1;
        }
        None
    }
}

} // verus!
