//! Saving an edited post: the store side of the editor workflow.
//!
//! A save either updates the post row in place or inserts a new row with a
//! fresh id, then replaces the post's image rows wholesale with rows
//! numbered from one in snapshot order — and leaves the store's invariants
//! standing. The derived path view is stale after a save and must be
//! refreshed.

use vstd::prelude::*;

use crate::editor::{EditPostFile, EditPostFileV, file_views};
use crate::models::{Post, PostImage, PostImageV, PostV, lemma_post_views_push};
use crate::store::{Store, dir_by_id, find_from, lemma_find_from, post_by_id, post_has_id,
    wf_refs};

verus! {

/// Why a save was refused.
#[derive(Clone, Copy, Debug, PartialEq, Eq, Structural)]
pub enum SaveError {
    /// A post path must hold a slash that splits it into parent and slug.
    InvalidPath,
    /// No directory stands at the parent path.
    DirectoryNotFound,
    /// An update named a post id that is not in the store.
    PostNotFound,
}

/// The largest post id in the store, or zero when there are no posts.
pub open spec fn max_post_id(posts: Seq<PostV>) -> int
    decreases posts.len(),
{
    if posts.len() == 0 {
        0
    } else {
        let m = max_post_id(posts.drop_last());
        if posts.last().id > m {
            posts.last().id
        } else {
            m
        }
    }
}

/// The largest image id in the store, or zero when there are no images.
pub open spec fn max_image_id(images: Seq<PostImageV>) -> int
    decreases images.len(),
{
    if images.len() == 0 {
        0
    } else {
        let m = max_image_id(images.drop_last());
        if images.last().id > m {
            images.last().id
        } else {
            m
        }
    }
}

/// The largest post id bounds every post id and is never negative.
pub proof fn lemma_max_post_id(posts: Seq<PostV>)
    ensures
        max_post_id(posts) >= 0,
        forall|i: int| 0 <= i < posts.len() ==> (#[trigger] posts[i]).id <= max_post_id(posts),
    decreases posts.len(),
{
    if posts.len() > 0 {
        lemma_max_post_id(posts.drop_last());
        assert forall|i: int| 0 <= i < posts.len() implies (#[trigger] posts[i]).id
            <= max_post_id(posts) by {
            if i < posts.len() - 1 {
                assert(posts.drop_last()[i] == posts[i]);
            }
        }
    }
}

/// The largest image id bounds every image id and is never negative.
pub proof fn lemma_max_image_id(images: Seq<PostImageV>)
    ensures
        max_image_id(images) >= 0,
        forall|i: int| 0 <= i < images.len() ==> (#[trigger] images[i]).id <= max_image_id(images),
    decreases images.len(),
{
    if images.len() > 0 {
        lemma_max_image_id(images.drop_last());
        assert forall|i: int| 0 <= i < images.len() implies (#[trigger] images[i]).id
            <= max_image_id(images) by {
            if i < images.len() - 1 {
                assert(images.drop_last()[i] == images[i]);
            }
        }
    }
}

/// Every element a filter keeps stands in the filtered sequence.
pub proof fn lemma_filter_member<A>(s: Seq<A>, pred: spec_fn(A) -> bool)
    ensures
        forall|i: int|
            0 <= i < s.filter(pred).len() ==> s.contains(#[trigger] s.filter(pred)[i]),
    decreases s.len(),
{
    reveal(Seq::filter);
    if s.len() > 0 {
        lemma_filter_member(s.drop_last(), pred);
        assert forall|i: int| 0 <= i < s.filter(pred).len() implies s.contains(
            #[trigger] s.filter(pred)[i],
        ) by {
            let f = s.filter(pred);
            if i < s.drop_last().filter(pred).len() {
                assert(s.drop_last().contains(s.drop_last().filter(pred)[i]));
                let w = choose|k: int|
                    0 <= k < s.drop_last().len() && s.drop_last()[k] == s.drop_last().filter(
                        pred,
                    )[i];
                assert(s[w] == f[i]);
            } else {
                assert(f[i] == s.last());
                assert(s[s.len() - 1] == s.last());
            }
        }
    }
}

/// A symmetric relation that holds between any two rows of a sequence holds
/// between any two rows of a filtered copy.
pub proof fn lemma_filter_pairwise<A>(s: Seq<A>, pred: spec_fn(A) -> bool, rel: spec_fn(A, A) -> bool)
    requires
        forall|i: int, j: int|
            0 <= i < s.len() && 0 <= j < s.len() && i != j ==> rel(
                #[trigger] s[i],
                #[trigger] s[j],
            ),
    ensures
        forall|i: int, j: int|
            0 <= i < s.filter(pred).len() && 0 <= j < s.filter(pred).len() && i != j ==> rel(
                #[trigger] s.filter(pred)[i],
                #[trigger] s.filter(pred)[j],
            ),
    decreases s.len(),
{
    reveal(Seq::filter);
    if s.len() > 0 {
        let d = s.drop_last();
        assert forall|i: int, j: int|
            0 <= i < d.len() && 0 <= j < d.len() && i != j implies rel(
            #[trigger] d[i],
            #[trigger] d[j],
        ) by {
            assert(d[i] == s[i] && d[j] == s[j]);
        }
        lemma_filter_pairwise(d, pred, rel);
        lemma_filter_member(d, pred);
        let f = s.filter(pred);
        let fd = d.filter(pred);
        assert forall|i: int, j: int|
            0 <= i < f.len() && 0 <= j < f.len() && i != j implies rel(
            #[trigger] f[i],
            #[trigger] f[j],
        ) by {
            if pred(s.last()) {
                assert(f =~= fd.push(s.last()));
                if i < fd.len() && j < fd.len() {
                    assert(f[i] == fd[i] && f[j] == fd[j]);
                } else if i < fd.len() && j == fd.len() {
                    assert(d.contains(fd[i]));
                    let w = choose|k: int| 0 <= k < d.len() && d[k] == fd[i];
                    assert(s[w] == f[i] && s[s.len() - 1] == f[j] && w != s.len() - 1);
                } else if j < fd.len() && i == fd.len() {
                    assert(d.contains(fd[j]));
                    let w = choose|k: int| 0 <= k < d.len() && d[k] == fd[j];
                    assert(s[w] == f[j] && s[s.len() - 1] == f[i] && w != s.len() - 1);
                }
            } else {
                assert(f =~= fd);
            }
        }
    }
}

/// Searching by post id sees only the ids: two tables with the same ids in
/// the same places are searched alike.
pub proof fn lemma_post_find_same_ids(a: Seq<PostV>, b: Seq<PostV>, id: int, from: int)
    requires
        a.len() == b.len(),
        forall|i: int| 0 <= i < a.len() ==> (#[trigger] a[i]).id == (#[trigger] b[i]).id,
        0 <= from <= a.len(),
    ensures
        find_from(a, post_has_id(id), from) == find_from(b, post_has_id(id), from),
    decreases a.len() - from,
{
    if from < a.len() {
        lemma_post_find_same_ids(a, b, id, from + 1);
    }
}

/// Searching an extended table by post id: the old rows are found first, and
/// a new last row is found only when nothing before it matches.
pub proof fn lemma_post_find_push(posts: Seq<PostV>, x: PostV, id: int, from: int)
    requires
        0 <= from <= posts.len(),
    ensures
        find_from(posts.push(x), post_has_id(id), from) == (match find_from(
            posts,
            post_has_id(id),
            from,
        ) {
            Some(i) => Some(i),
            None => if x.id == id {
                Some(posts.len() as int)
            } else {
                None
            },
        }),
    decreases posts.len() - from,
{
    let e = posts.push(x);
    assert(e.len() == posts.len() + 1);
    if from < posts.len() {
        assert(e[from] == posts[from]);
        lemma_post_find_push(posts, x, id, from + 1);
    } else {
        assert(e[from] == x);
    }
}

/// The view of an optional timestamp.
pub open spec fn ts_view(o: Option<i64>) -> Option<int> {
    match o {
        Some(t) => Some(t as int),
        None => None,
    }
}

/// The post row an update writes: the named fields are replaced, the id and
/// the derived path stay, and an absent timestamp keeps the stored one.
pub open spec fn updated_post(
    old_row: PostV,
    title: Seq<char>,
    has_proper_title: bool,
    slug: Seq<char>,
    timestamp: Option<int>,
    directory_id: int,
    description: Seq<char>,
) -> PostV {
    PostV {
        id: old_row.id,
        title: title,
        has_proper_title: has_proper_title,
        slug: slug,
        timestamp: match timestamp {
            Some(t) => t,
            None => old_row.timestamp,
        },
        directory_id: directory_id,
        description: description,
        path: old_row.path,
    }
}

/// The post row an insert writes: a fresh id, an absent timestamp defaults
/// to the store's clock, and the derived path is empty until a refresh.
pub open spec fn inserted_post(
    id: int,
    title: Seq<char>,
    has_proper_title: bool,
    slug: Seq<char>,
    timestamp: Option<int>,
    now: int,
    directory_id: int,
    description: Seq<char>,
) -> PostV {
    PostV {
        id: id,
        title: title,
        has_proper_title: has_proper_title,
        slug: slug,
        timestamp: match timestamp {
            Some(t) => t,
            None => now,
        },
        directory_id: directory_id,
        description: description,
        path: Seq::empty(),
    }
}

/// The predicate "this image does not belong to the post with id `pid`".
pub open spec fn not_image_of(pid: int) -> spec_fn(PostImageV) -> bool {
    |im: PostImageV| im.post_id != pid
}

/// The image rows a save writes for its post: ids counted up from past the
/// largest existing one, display orders from one, alt texts in snapshot
/// order.
pub open spec fn new_image_rows(base: int, pid: int, files: Seq<EditPostFileV>) -> Seq<
    PostImageV,
> {
    Seq::new(
        files.len(),
        |k: int| PostImageV { id: base + 1 + k, post_id: pid, order: 1 + k, alt_text: files[k].alt_text },
    )
}


/// A save preserves the reference part of well-formedness: the directory
/// table is untouched, the post table is changed in one row that references
/// an existing directory, and the saved post's image rows are replaced by
/// rows with fresh ids and display orders counted from one.
proof fn lemma_save_preserves_wf(
    olds: crate::store::StoreV,
    news: crate::store::StoreV,
    pid_t: int,
    did: int,
    is_update: bool,
    idx: int,
    row: PostV,
    files: Seq<EditPostFileV>,
)
    requires
        wf_refs(olds),
        news.dirs == olds.dirs,
        dir_by_id(olds.dirs, did) is Some,
        1 <= pid_t <= i32::MAX,
        row.id == pid_t,
        row.directory_id == did,
        is_update ==> 0 <= idx < olds.posts.len() && olds.posts[idx].id == pid_t && news.posts
            == olds.posts.update(idx, row),
        !is_update ==> max_post_id(olds.posts) < i32::MAX && pid_t == max_post_id(olds.posts) + 1
            && news.posts == olds.posts.push(row),
        max_image_id(olds.images) + files.len() <= i32::MAX,
        news.images == olds.images.filter(not_image_of(pid_t)) + new_image_rows(
            max_image_id(olds.images),
            pid_t,
            files,
        ),
    ensures
        wf_refs(news),
{
    broadcast use vstd::seq_lib::group_filter_ensures;

    let base = max_image_id(olds.images);
    let pred = not_image_of(pid_t);
    let f = olds.images.filter(pred);
    let nr = new_image_rows(base, pid_t, files);
    lemma_max_image_id(olds.images);
    lemma_max_post_id(olds.posts);
    lemma_filter_member(olds.images, pred);
    lemma_filter_pairwise(olds.images, pred, |a: PostImageV, b: PostImageV| a.id != b.id);
    lemma_filter_pairwise(
        olds.images,
        pred,
        |a: PostImageV, b: PostImageV| a.post_id != b.post_id || a.order != b.order,
    );
    // The post table stays well-formed.
    if is_update {
        assert(news.posts.len() == olds.posts.len());
        assert forall|k: int| 0 <= k < news.posts.len() implies (#[trigger] news.posts[k]).id
            == olds.posts[k].id by {
            if k != idx {
                assert(news.posts[k] == olds.posts[k]);
            }
        }
    } else {
        assert forall|k: int| 0 <= k < olds.posts.len() implies #[trigger] news.posts[k]
            == olds.posts[k] by {}
        assert(news.posts.last() == row);
    }
    assert(crate::store::wf_posts(news)) by {
        assert forall|k: int| 0 <= k < news.posts.len() implies 1 <= (
        #[trigger] news.posts[k]).id <= i32::MAX by {
            if is_update {
                assert(news.posts[k].id == olds.posts[k].id);
            } else if k < olds.posts.len() {
                assert(news.posts[k] == olds.posts[k]);
            }
        }
        assert forall|k: int| 0 <= k < news.posts.len() implies dir_by_id(
            news.dirs,
            (#[trigger] news.posts[k]).directory_id,
        ) is Some by {
            if is_update && k != idx {
                assert(news.posts[k] == olds.posts[k]);
            } else if !is_update && k < olds.posts.len() {
                assert(news.posts[k] == olds.posts[k]);
            }
        }
        assert forall|a: int, b: int|
            0 <= a < news.posts.len() && 0 <= b < news.posts.len() && a != b implies (
        #[trigger] news.posts[a]).id != (#[trigger] news.posts[b]).id by {
            if is_update {
                assert(news.posts[a].id == olds.posts[a].id);
                assert(news.posts[b].id == olds.posts[b].id);
            } else {
                if a < olds.posts.len() && b < olds.posts.len() {
                    assert(news.posts[a] == olds.posts[a]);
                    assert(news.posts[b] == olds.posts[b]);
                } else if a < olds.posts.len() {
                    assert(news.posts[a] == olds.posts[a]);
                    assert(news.posts[b].id == max_post_id(olds.posts) + 1);
                } else {
                    assert(news.posts[b] == olds.posts[b]);
                    assert(news.posts[a].id == max_post_id(olds.posts) + 1);
                }
            }
        }
    }
    // The saved post can be found in the new table, and old posts stay
    // findable.
    assert(post_by_id(news.posts, pid_t) is Some) by {
        if is_update {
            lemma_find_from(olds.posts, post_has_id(pid_t), 0);
            lemma_post_find_same_ids(olds.posts, news.posts, pid_t, 0);
            assert(find_from(olds.posts, post_has_id(pid_t), 0) is Some) by {
                crate::store::lemma_member_found_post(olds.posts, idx);
            }
        } else {
            lemma_post_find_push(olds.posts, row, pid_t, 0);
        }
    }
    assert forall|x: int|
        0 <= x < olds.posts.len() && post_by_id(olds.posts, (#[trigger] olds.posts[x]).id)
            is Some implies post_by_id(news.posts, olds.posts[x].id) is Some by {
        if is_update {
            lemma_post_find_same_ids(olds.posts, news.posts, olds.posts[x].id, 0);
        } else {
            lemma_post_find_push(olds.posts, row, olds.posts[x].id, 0);
        }
    }
    // The image table stays well-formed.
    assert(crate::store::wf_images(news)) by {
        assert(news.images.len() == f.len() + files.len());
        assert forall|k: int| 0 <= k < f.len() implies olds.images.contains(#[trigger] f[k])
            && f[k].post_id != pid_t by {}
        // ids are positive, bounded and unique
        assert forall|k: int| 0 <= k < news.images.len() implies 1 <= (
        #[trigger] news.images[k]).id <= i32::MAX by {
            if k < f.len() {
                assert(news.images[k] == f[k]);
                let w = choose|w: int| 0 <= w < olds.images.len() && olds.images[w] == f[k];
                assert(1 <= olds.images[w].id <= i32::MAX);
            } else {
                assert(news.images[k] == nr[k - f.len()]);
            }
        }
        assert forall|a: int, b: int|
            0 <= a < news.images.len() && 0 <= b < news.images.len() && a != b implies (
        #[trigger] news.images[a]).id != (#[trigger] news.images[b]).id by {
            if a < f.len() && b < f.len() {
                assert(news.images[a] == f[a] && news.images[b] == f[b]);
            } else if a < f.len() {
                assert(news.images[a] == f[a] && news.images[b] == nr[b - f.len()]);
                let w = choose|w: int| 0 <= w < olds.images.len() && olds.images[w] == f[a];
                assert(olds.images[w].id <= base);
                assert(news.images[b].id >= base + 1);
            } else if b < f.len() {
                assert(news.images[b] == f[b] && news.images[a] == nr[a - f.len()]);
                let w = choose|w: int| 0 <= w < olds.images.len() && olds.images[w] == f[b];
                assert(olds.images[w].id <= base);
                assert(news.images[a].id >= base + 1);
            } else {
                assert(news.images[a] == nr[a - f.len()] && news.images[b] == nr[b - f.len()]);
            }
        }
        // each image's post exists
        assert forall|k: int| 0 <= k < news.images.len() implies post_by_id(
            news.posts,
            (#[trigger] news.images[k]).post_id,
        ) is Some by {
            if k < f.len() {
                assert(news.images[k] == f[k]);
                let w = choose|w: int| 0 <= w < olds.images.len() && olds.images[w] == f[k];
                assert(post_by_id(olds.posts, olds.images[w].post_id) is Some);
                lemma_find_from(olds.posts, post_has_id(olds.images[w].post_id), 0);
                let pw = find_from(olds.posts, post_has_id(olds.images[w].post_id), 0)->Some_0;
                assert(olds.posts[pw].id == olds.images[w].post_id);
                assert(post_by_id(olds.posts, olds.posts[pw].id) is Some);
            } else {
                assert(news.images[k] == nr[k - f.len()]);
                assert(news.images[k].post_id == pid_t);
            }
        }
        // display orders are positive, bounded, unique per post
        assert forall|k: int| 0 <= k < news.images.len() implies 1 <= (
        #[trigger] news.images[k]).order <= i32::MAX by {
            if k < f.len() {
                assert(news.images[k] == f[k]);
                let w = choose|w: int| 0 <= w < olds.images.len() && olds.images[w] == f[k];
                assert(1 <= olds.images[w].order <= i32::MAX);
            } else {
                assert(news.images[k] == nr[k - f.len()]);
            }
        }
        assert forall|a: int, b: int|
            0 <= a < news.images.len() && 0 <= b < news.images.len() && a != b && (
        #[trigger] news.images[a]).post_id == (#[trigger] news.images[b]).post_id implies news.images[a].order
            != news.images[b].order by {
            if a < f.len() && b < f.len() {
                assert(news.images[a] == f[a] && news.images[b] == f[b]);
            } else if a < f.len() {
                assert(news.images[a] == f[a] && news.images[b] == nr[b - f.len()]);
            } else if b < f.len() {
                assert(news.images[b] == f[b] && news.images[a] == nr[a - f.len()]);
            } else {
                assert(news.images[a] == nr[a - f.len()] && news.images[b] == nr[b - f.len()]);
            }
        }
        // orders are contiguous: every order above one has a predecessor
        assert forall|k: int|
            0 <= k < news.images.len() && (#[trigger] news.images[k]).order > 1 implies exists|
                j: int,
            |
                0 <= j < news.images.len() && (#[trigger] news.images[j]).post_id
                    == news.images[k].post_id && news.images[j].order == news.images[k].order
                    - 1 by {
            if k < f.len() {
                assert(news.images[k] == f[k]);
                let w = choose|w: int| 0 <= w < olds.images.len() && olds.images[w] == f[k];
                assert(olds.images[w].order > 1);
                let j0 = choose|j0: int|
                    0 <= j0 < olds.images.len() && (#[trigger] olds.images[j0]).post_id
                        == olds.images[w].post_id && olds.images[j0].order == olds.images[w].order
                        - 1;
                assert(pred(olds.images[j0]));
                assert(olds.images.filter(pred).contains(olds.images[j0]));
                let y = choose|y: int| 0 <= y < f.len() && f[y] == olds.images[j0];
                assert(news.images[y] == f[y]);
                assert(news.images[y].post_id == news.images[k].post_id && news.images[y].order
                    == news.images[k].order - 1);
            } else {
                let q = k - f.len();
                assert(news.images[k] == nr[q]);
                assert(nr[q].order == 1 + q);
                assert(news.images[k - 1] == nr[q - 1]);
                assert(news.images[k - 1].post_id == news.images[k].post_id && news.images[k
                    - 1].order == news.images[k].order - 1);
            }
        }
    }
    assert(crate::store::wf_dirs(news.dirs));
}

impl Store {
    /// The index of the post row with the given id.
    fn post_index_by_id(&self, id: i32) -> (r: Option<usize>)
        ensures
            match r {
                Some(j) => find_from(self@.posts, post_has_id(id as int), 0) == Some(j as int),
                None => find_from(self@.posts, post_has_id(id as int), 0) is None,
            },
    {
        let n: usize = self.posts.len();
        let mut i: usize = 0;
        while i < n
            invariant
                0 <= i <= n,
                n == self.posts.len(),
                self@.posts.len() == n,
                find_from(self@.posts, post_has_id(id as int), 0) == find_from(
                    self@.posts,
                    post_has_id(id as int),
                    i as int,
                ),
            decreases n - i,
        {
            if self.posts[i].id == id {
                return Some(i);
            }
            i = i + 1;
        }
        None
    }

    /// The largest post id in the store.
    fn max_post_id_exec(&self) -> (r: i32)
        ensures
            r as int == max_post_id(self@.posts),
            r >= 0,
    {
        let n: usize = self.posts.len();
        let mut m: i32 = 0;
        let mut i: usize = 0;
        proof {
            assert(self@.posts.take(0) =~= Seq::<PostV>::empty());
        }
        while i < n
            invariant
                0 <= i <= n,
                n == self.posts.len(),
                self@.posts.len() == n,
                m >= 0,
                m as int == max_post_id(self@.posts.take(i as int)),
            decreases n - i,
        {
            proof {
                assert(self@.posts.take(i as int + 1).drop_last() =~= self@.posts.take(i as int));
                assert(self@.posts.take(i as int + 1).last() == self@.posts[i as int]);
            }
            if self.posts[i].id > m {
                m = self.posts[i].id;
            }
            i = i + 1;
        }
        proof {
            assert(self@.posts.take(n as int) =~= self@.posts);
            lemma_max_post_id(self@.posts);
        }
        m
    }

    /// The largest image id in the store.
    fn max_image_id_exec(&self) -> (r: i32)
        ensures
            r as int == max_image_id(self@.images),
            r >= 0,
    {
        let n: usize = self.images.len();
        let mut m: i32 = 0;
        let mut i: usize = 0;
        proof {
            assert(self@.images.take(0) =~= Seq::<PostImageV>::empty());
        }
        while i < n
            invariant
                0 <= i <= n,
                n == self.images.len(),
                self@.images.len() == n,
                m >= 0,
                m as int == max_image_id(self@.images.take(i as int)),
            decreases n - i,
        {
            proof {
                assert(self@.images.take(i as int + 1).drop_last() =~= self@.images.take(i as int));
                assert(self@.images.take(i as int + 1).last() == self@.images[i as int]);
            }
            if self.images[i].id > m {
                m = self.images[i].id;
            }
            i = i + 1;
        }
        proof {
            assert(self@.images.take(n as int) =~= self@.images);
            lemma_max_image_id(self@.images);
        }
        m
    }

    /// Resolve a post's full path to its parent directory id and its slug,
    /// as a save must before it writes: the path splits at its last slash,
    /// and a directory must stand at the parent path.
    pub fn find_parent_id(&self, path: &str) -> (r: Result<(i32, String), SaveError>)
        ensures
            match crate::editor::split_parent(path@) {
                None => r == Err::<(i32, String), SaveError>(SaveError::InvalidPath),
                Some((dp, slug)) => match crate::store::dir_at_path(self@.dirs, dp) {
                    Some(d) => r is Ok && r->Ok_0.0 as int == d.id && r->Ok_0.1@ == slug,
                    None => r == Err::<(i32, String), SaveError>(SaveError::DirectoryNotFound),
                },
            },
    {
        let (dir_path, slug) = match crate::editor::split_post_path(path) {
            Some(parts) => parts,
            None => {
                return Err(SaveError::InvalidPath);
            },
        };
        match self.directory_by_path(dir_path.as_str()) {
            Some(d) => Ok((d.id, slug)),
            None => Err(SaveError::DirectoryNotFound),
        }
    }

    /// Save a post: update the row named by `post_id`, or insert a new row
    /// with a fresh id, and replace the post's image rows with the snapshot
    /// files, numbered from one. The parent directory must exist, and an
    /// update must name an existing post; otherwise nothing changes and the
    /// error says why. The derived paths are stale afterwards until
    /// [`Store::refresh_paths`] runs; everything else about the store's
    /// well-formedness is preserved.
    pub fn save_post(
        &mut self,
        post_id: Option<i32>,
        directory_id: i32,
        slug: String,
        title: String,
        has_proper_title: bool,
        timestamp: Option<i64>,
        now: i64,
        description: String,
        files: &Vec<EditPostFile>,
    ) -> (r: Result<i32, SaveError>)
        requires
            wf_refs(old(self)@),
            post_id is None ==> max_post_id(old(self)@.posts) < i32::MAX,
            max_image_id(old(self)@.images) + files@.len() <= i32::MAX,
        ensures
            r is Ok <==> (dir_by_id(old(self)@.dirs, directory_id as int) is Some && (match post_id {
                Some(pid) => post_by_id(old(self)@.posts, pid as int) is Some,
                None => true,
            })),
            match r {
                Ok(id) => ({
                    let olds = old(self)@;
                    let news = final(self)@;
                    &&& news.dirs == olds.dirs
                    &&& wf_refs(news)
                    &&& (match post_id {
                        Some(pid) => id == pid && news.posts == olds.posts.update(
                            find_from(olds.posts, post_has_id(pid as int), 0)->Some_0,
                            updated_post(
                                post_by_id(olds.posts, pid as int)->Some_0,
                                title@,
                                has_proper_title,
                                slug@,
                                ts_view(timestamp),
                                directory_id as int,
                                description@,
                            ),
                        ),
                        None => id as int == max_post_id(olds.posts) + 1 && news.posts
                            == olds.posts.push(
                            inserted_post(
                                id as int,
                                title@,
                                has_proper_title,
                                slug@,
                                ts_view(timestamp),
                                now as int,
                                directory_id as int,
                                description@,
                            ),
                        ),
                    })
                    &&& news.images == olds.images.filter(not_image_of(id as int))
                        + new_image_rows(max_image_id(olds.images), id as int, file_views(files@))
                }),
                Err(e) => ({
                    &&& final(self)@ == old(self)@
                    &&& (e == SaveError::DirectoryNotFound <==> dir_by_id(
                        old(self)@.dirs,
                        directory_id as int,
                    ) is None)
                    &&& (e == SaveError::PostNotFound <==> (dir_by_id(
                        old(self)@.dirs,
                        directory_id as int,
                    ) is Some && post_id is Some && post_by_id(
                        old(self)@.posts,
                        post_id->Some_0 as int,
                    ) is None))
                }),
            },
    {
        let ghost olds = self@;
        let ghost mut gidx: int = 0;
        let ghost mut grow: PostV = arbitrary();
        // The posts table references the directories table.
        match self.directory_by_id(directory_id) {
            Some(_) => {},
            None => {
                return Err(SaveError::DirectoryNotFound);
            },
        }
        let id: i32 = match post_id {
            Some(pid) => {
                let j = match self.post_index_by_id(pid) {
                    Some(j) => j,
                    None => {
                        return Err(SaveError::PostNotFound);
                    },
                };
                proof {
                    lemma_find_from(olds.posts, post_has_id(pid as int), 0);
                }
                let old_path = self.posts[j].path.clone();
                let old_ts = self.posts[j].timestamp;
                let new_row = Post {
                    id: pid,
                    title: title,
                    has_proper_title: has_proper_title,
                    slug: slug,
                    timestamp: match timestamp {
                        Some(t) => t,
                        None => old_ts,
                    },
                    directory_id: directory_id,
                    description: description,
                    path: old_path,
                };
                let ghost rowv = new_row@;
                let ghost oldvec = self.posts@;
                self.posts.remove(j);
                self.posts.insert(j, new_row);
                proof {
                    oldvec.remove_ensures(j as int);
                    oldvec.remove(j as int).insert_ensures(j as int, new_row);
                    assert(self.posts@ =~= oldvec.update(j as int, new_row));
                    assert forall|k: int| 0 <= k < olds.posts.len() implies crate::models::post_views(
                        self.posts@,
                    )[k] == olds.posts.update(
                        j as int,
                        updated_post(
                            post_by_id(olds.posts, pid as int)->Some_0,
                            title@,
                            has_proper_title,
                            slug@,
                            ts_view(timestamp),
                            directory_id as int,
                            description@,
                        ),
                    )[k] by {
                        if k != j as int {
                            assert(self.posts@[k] == oldvec[k]);
                        } else {
                            assert(self.posts@[k] == new_row);
                        }
                    }
                    assert(self@.posts =~= olds.posts.update(
                        j as int,
                        updated_post(
                            post_by_id(olds.posts, pid as int)->Some_0,
                            title@,
                            has_proper_title,
                            slug@,
                            ts_view(timestamp),
                            directory_id as int,
                            description@,
                        ),
                    ));
                    gidx = j as int;
                    grow = updated_post(
                        post_by_id(olds.posts, pid as int)->Some_0,
                        title@,
                        has_proper_title,
                        slug@,
                        ts_view(timestamp),
                        directory_id as int,
                        description@,
                    );
                }
                pid
            },
            None => {
                let m = self.max_post_id_exec();
                let new_id = m + 1;
                let new_row = Post {
                    id: new_id,
                    title: title,
                    has_proper_title: has_proper_title,
                    slug: slug,
                    timestamp: match timestamp {
                        Some(t) => t,
                        None => now,
                    },
                    directory_id: directory_id,
                    description: description,
                    path: String::new(),
                };
                let ghost oldvec = self.posts@;
                self.posts.push(new_row);
                proof {
                    lemma_post_views_push(oldvec, self.posts@.last());
                    assert(self.posts@ =~= oldvec.push(self.posts@.last()));
                    assert(self@.posts =~= olds.posts.push(
                        inserted_post(
                            new_id as int,
                            title@,
                            has_proper_title,
                            slug@,
                            ts_view(timestamp),
                            now as int,
                            directory_id as int,
                            description@,
                        ),
                    ));
                    grow = inserted_post(
                        new_id as int,
                        title@,
                        has_proper_title,
                        slug@,
                        ts_view(timestamp),
                        now as int,
                        directory_id as int,
                        description@,
                    );
                }
                new_id
            },
        };
        // Replace the post's image rows wholesale.
        let base = self.max_image_id_exec();
        proof {
            assert(self@.images == olds.images);
        }
        let n: usize = self.images.len();
        let nf: usize = files.len();
        let mut imgs2: Vec<PostImage> = Vec::new();
        let mut i: usize = 0;
        proof {
            reveal(Seq::filter);
            assert(olds.images.take(0) =~= Seq::<PostImageV>::empty());
            assert(crate::models::image_views(imgs2@) =~= olds.images.take(0).filter(
                not_image_of(id as int),
            ));
        }
        while i < n
            invariant
                0 <= i <= n,
                n == self.images.len(),
                self@.images == olds.images,
                olds.images.len() == n,
                crate::models::image_views(imgs2@) == olds.images.take(i as int).filter(
                    not_image_of(id as int),
                ),
            decreases n - i,
        {
            let im = &self.images[i];
            let ghost accv = imgs2@;
            proof {
                assert(olds.images.take(i as int + 1).drop_last() =~= olds.images.take(i as int));
                assert(olds.images.take(i as int + 1).last() == olds.images[i as int]);
            }
            if im.post_id != id {
                imgs2.push(im.duplicate());
                proof {
                    reveal(Seq::filter);
                    crate::models::lemma_image_views_push(accv, imgs2@.last());
                    assert(imgs2@ =~= accv.push(imgs2@.last()));
                }
            } else {
                proof {
                    reveal(Seq::filter);
                    assert(!not_image_of(id as int)(olds.images.take(i as int + 1).last()));
                }
            }
            i = i + 1;
        }
        proof {
            assert(olds.images.take(n as int) =~= olds.images);
        }
        let ghost filtered = olds.images.filter(not_image_of(id as int));
        let ghost fl = imgs2@.len() as int;
        let mut k: usize = 0;
        while k < nf
            invariant
                0 <= k <= nf,
                nf == files@.len(),
                base as int == max_image_id(olds.images),
                base >= 0,
                base + nf <= i32::MAX,
                imgs2@.len() == fl + k,
                fl == filtered.len(),
                crate::models::image_views(imgs2@) == filtered + new_image_rows(
                    base as int,
                    id as int,
                    file_views(files@),
                ).take(k as int),
            decreases nf - k,
        {
            let ghost accv = imgs2@;
            let row = PostImage {
                id: base + 1 + (k as i32),
                post_id: id,
                order: 1 + (k as i32),
                alt_text: files[k].alt_text.clone(),
            };
            imgs2.push(row);
            proof {
                crate::models::lemma_image_views_push(accv, imgs2@.last());
                assert(imgs2@ =~= accv.push(imgs2@.last()));
                assert(crate::models::image_views(imgs2@) =~= filtered + new_image_rows(
                    base as int,
                    id as int,
                    file_views(files@),
                ).take(k as int + 1));
            }
            k = k + 1;
        }
        self.images = imgs2;
        proof {
            assert(new_image_rows(base as int, id as int, file_views(files@)).take(nf as int)
                =~= new_image_rows(base as int, id as int, file_views(files@)));
            lemma_save_preserves_wf(
                olds,
                self@,
                id as int,
                directory_id as int,
                post_id is Some,
                gidx,
                grow,
                file_views(files@),
            );
        }
        Ok(id)
    }
}

} // verus!
