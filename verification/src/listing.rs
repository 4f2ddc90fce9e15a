//! Listing and ordering of posts, images and subdirectories.
//!
//! The home page shows the newest posts; the Atom feed shows the posts made
//! since the site launched, oldest first; a post page shows its images in
//! display order and its neighbours in time; a directory page lists its
//! posts by timestamp and its subdirectories by title.

use vstd::prelude::*;
use vstd::multiset::Multiset;
use vstd::seq_lib::group_to_multiset_ensures;

use crate::models::{Directory, DirectoryV, Post, PostImage, PostImageV, PostV, image_views,
    dir_views, post_views};
use crate::store::Store;

verus! {

/// Midnight at the start of the day the site launched, in seconds since the
/// Unix epoch. Posts dated earlier are imports from elsewhere: they are
/// labelled as originally posted there and stay out of the Atom feed.
pub const SITE_LAUNCH_TIMESTAMP: i64 = 1724544000;

/// Timestamp order over posts: ascending, or descending when `desc`.
pub open spec fn ts_le(desc: bool, a: PostV, b: PostV) -> bool {
    if desc {
        a.timestamp >= b.timestamp
    } else {
        a.timestamp <= b.timestamp
    }
}

/// The sequence is ordered by timestamp.
pub open spec fn sorted_ts(desc: bool, s: Seq<PostV>) -> bool {
    forall|i: int, j: int| 0 <= i < j < s.len() ==> ts_le(desc, #[trigger] s[i], #[trigger] s[j])
}

/// The sequence is ordered by display order.
pub open spec fn sorted_by_order(s: Seq<PostImageV>) -> bool {
    forall|i: int, j: int| 0 <= i < j < s.len() ==> (#[trigger] s[i]).order <= (
    #[trigger] s[j]).order
}

/// Lexicographic order on character sequences, by code point; a prefix
/// comes before any of its extensions.
pub open spec fn lex_le(a: Seq<char>, b: Seq<char>) -> bool
    decreases a.len(),
{
    if a.len() == 0 {
        true
    } else if b.len() == 0 {
        false
    } else if (a.first() as u32) < (b.first() as u32) {
        true
    } else if (a.first() as u32) > (b.first() as u32) {
        false
    } else {
        lex_le(a.drop_first(), b.drop_first())
    }
}

/// Lexicographic order is total.
pub proof fn lemma_lex_total(a: Seq<char>, b: Seq<char>)
    ensures
        lex_le(a, b) || lex_le(b, a),
    decreases a.len(),
{
    if a.len() > 0 && b.len() > 0 && a.first() as u32 == b.first() as u32 {
        lemma_lex_total(a.drop_first(), b.drop_first());
    }
}

/// Lexicographic order is transitive.
pub proof fn lemma_lex_trans(a: Seq<char>, b: Seq<char>, c: Seq<char>)
    requires
        lex_le(a, b),
        lex_le(b, c),
    ensures
        lex_le(a, c),
    decreases a.len(),
{
    if a.len() > 0 && b.len() > 0 && c.len() > 0 && a.first() as u32 == b.first() as u32
        && b.first() as u32 == c.first() as u32 {
        lemma_lex_trans(a.drop_first(), b.drop_first(), c.drop_first());
    }
}

/// A shared prefix does not decide the lexicographic order.
proof fn lemma_lex_common_prefix(a: Seq<char>, b: Seq<char>, i: int)
    requires
        0 <= i <= a.len(),
        i <= b.len(),
        forall|k: int| 0 <= k < i ==> a[k] == b[k],
    ensures
        lex_le(a, b) == lex_le(a.skip(i), b.skip(i)),
    decreases i,
{
    if i == 0 {
        assert(a.skip(0) =~= a);
        assert(b.skip(0) =~= b);
    } else {
        assert(a.len() > 0 && b.len() > 0);
        assert(a.first() == b.first());
        assert forall|k: int| 0 <= k < i - 1 implies a.drop_first()[k] == b.drop_first()[k] by {
            assert(a[k + 1] == b[k + 1]);
        }
        lemma_lex_common_prefix(a.drop_first(), b.drop_first(), i - 1);
        assert(a.drop_first().skip(i - 1) =~= a.skip(i));
        assert(b.drop_first().skip(i - 1) =~= b.skip(i));
    }
}

/// Compare two strings in lexicographic order.
pub fn str_lex_le(a: &str, b: &str) -> (r: bool)
    ensures
        r == lex_le(a@, b@),
{
    let na: usize = a.unicode_len();
    let nb: usize = b.unicode_len();
    let mut i: usize = 0;
    while i < na && i < nb
        invariant
            i <= na,
            i <= nb,
            na == a@.len(),
            nb == b@.len(),
            forall|k: int| 0 <= k < i ==> a@[k] == b@[k],
        decreases na - i,
    {
        let ca = a.get_char(i);
        let cb = b.get_char(i);
        if (ca as u32) < (cb as u32) {
            proof {
                lemma_lex_common_prefix(a@, b@, i as int);
            }
            return true;
        }
        if (ca as u32) > (cb as u32) {
            proof {
                lemma_lex_common_prefix(a@, b@, i as int);
            }
            return false;
        }
        i = i + 1;
    }
    proof {
        lemma_lex_common_prefix(a@, b@, i as int);
        if na <= nb {
            assert(a@.skip(i as int) =~= Seq::<char>::empty());
        } else {
            assert(b@.skip(i as int) =~= Seq::<char>::empty());
            assert(a@.skip(i as int).len() > 0);
        }
    }
    na <= nb
}

/// The sequence is ordered by title.
pub open spec fn sorted_by_title(s: Seq<DirectoryV>) -> bool {
    forall|i: int, j: int|
        0 <= i < j < s.len() ==> lex_le((#[trigger] s[i]).title, (#[trigger] s[j]).title)
}

/// Compare two posts by timestamp, ascending or descending.
fn post_le(desc: bool, a: &Post, b: &Post) -> (r: bool)
    ensures
        r == ts_le(desc, a@, b@),
{
    if desc {
        a.timestamp >= b.timestamp
    } else {
        a.timestamp <= b.timestamp
    }
}

/// Sort posts by timestamp: a permutation of the input, ordered as asked.
pub fn sort_posts_by_timestamp(input: Vec<Post>, desc: bool) -> (r: Vec<Post>)
    ensures
        r@.len() == input@.len(),
        post_views(r@).to_multiset() == post_views(input@).to_multiset(),
        sorted_ts(desc, post_views(r@)),
{
    let ghost total = post_views(input@).to_multiset();
    let mut rem = input;
    let ghost n0: int = rem@.len() as int;
    let mut out: Vec<Post> = Vec::new();
    proof {
        broadcast use group_to_multiset_ensures;

        assert(post_views(out@) =~= Seq::<PostV>::empty());
        assert(post_views(out@).to_multiset().add(post_views(rem@).to_multiset()) =~= total);
    }
    while rem.len() > 0
        invariant
            out@.len() + rem@.len() == n0,
            post_views(out@).to_multiset().add(post_views(rem@).to_multiset()) == total,
            sorted_ts(desc, post_views(out@)),
        decreases rem.len(),
    {
        let ghost rv_old = post_views(rem@);
        let x = rem.pop().unwrap();
        let ghost xv = x@;
        let n: usize = out.len();
        let mut pos: usize = 0;
        while pos < n && post_le(desc, &out[pos], &x)
            invariant
                pos <= n,
                n == out@.len(),
                forall|k: int| 0 <= k < pos ==> ts_le(desc, post_views(out@)[k], xv),
                xv == x@,
            decreases n - pos,
        {
            pos = pos + 1;
        }
        let ghost ov = post_views(out@);
        out.insert(pos, x);
        proof {
            broadcast use group_to_multiset_ensures;

            let nv = post_views(out@);
            ov.insert_ensures(pos as int, xv);
            assert(nv =~= ov.insert(pos as int, xv));
            // The new element stands between what is at most and at least it.
            assert forall|i: int, j: int| 0 <= i < j < nv.len() implies ts_le(
                desc,
                nv[i],
                nv[j],
            ) by {
                if i < pos as int && j == pos as int {
                } else if i == pos as int && j > pos as int {
                    assert(!ts_le(desc, ov[pos as int], xv));
                    assert(ts_le(desc, ov[pos as int], nv[j]) || pos as int == j - 1);
                }
            }
            // Permutation bookkeeping.
            assert(rv_old =~= post_views(rem@).push(xv));
            assert(nv.to_multiset() == ov.to_multiset().insert(xv));
            assert(rv_old.to_multiset() == post_views(rem@).to_multiset().insert(xv));
            assert(nv.to_multiset().add(post_views(rem@).to_multiset()) =~= ov.to_multiset().add(
                rv_old.to_multiset(),
            ));
        }
    }
    proof {
        broadcast use group_to_multiset_ensures;

        assert(post_views(rem@) =~= Seq::<PostV>::empty());
        assert forall|a: PostV| post_views(rem@).to_multiset().count(a) == 0 by {
            assert(!post_views(rem@).contains(a));
        }
        assert(post_views(rem@).to_multiset() =~= Multiset::<PostV>::empty());
        assert(post_views(out@).to_multiset().add(Multiset::<PostV>::empty()) =~= post_views(
            out@,
        ).to_multiset());
    }
    out
}

/// Compare two images by display order.
fn image_le(a: &PostImage, b: &PostImage) -> (r: bool)
    ensures
        r == (a@.order <= b@.order),
{
    a.order <= b.order
}

/// Sort images by display order: a permutation of the input, ascending.
pub fn sort_images_by_order(input: Vec<PostImage>) -> (r: Vec<PostImage>)
    ensures
        r@.len() == input@.len(),
        image_views(r@).to_multiset() == image_views(input@).to_multiset(),
        sorted_by_order(image_views(r@)),
{
    let ghost total = image_views(input@).to_multiset();
    let mut rem = input;
    let ghost n0: int = rem@.len() as int;
    let mut out: Vec<PostImage> = Vec::new();
    proof {
        broadcast use group_to_multiset_ensures;

        assert(image_views(out@) =~= Seq::<PostImageV>::empty());
        assert(image_views(out@).to_multiset().add(image_views(rem@).to_multiset()) =~= total);
    }
    while rem.len() > 0
        invariant
            out@.len() + rem@.len() == n0,
            image_views(out@).to_multiset().add(image_views(rem@).to_multiset()) == total,
            sorted_by_order(image_views(out@)),
        decreases rem.len(),
    {
        let ghost rv_old = image_views(rem@);
        let x = rem.pop().unwrap();
        let ghost xv = x@;
        let n: usize = out.len();
        let mut pos: usize = 0;
        while pos < n && image_le(&out[pos], &x)
            invariant
                pos <= n,
                n == out@.len(),
                forall|k: int| 0 <= k < pos ==> image_views(out@)[k].order <= xv.order,
                xv == x@,
            decreases n - pos,
        {
            pos = pos + 1;
        }
        let ghost ov = image_views(out@);
        out.insert(pos, x);
        proof {
            broadcast use group_to_multiset_ensures;

            let nv = image_views(out@);
            ov.insert_ensures(pos as int, xv);
            assert(nv =~= ov.insert(pos as int, xv));
            assert forall|i: int, j: int| 0 <= i < j < nv.len() implies nv[i].order
                <= nv[j].order by {
                if i == pos as int && j > pos as int {
                    assert(!(ov[pos as int].order <= xv.order));
                    assert(ov[pos as int].order <= nv[j].order || pos as int == j - 1);
                }
            }
            assert(rv_old =~= image_views(rem@).push(xv));
            assert(nv.to_multiset() == ov.to_multiset().insert(xv));
            assert(rv_old.to_multiset() == image_views(rem@).to_multiset().insert(xv));
            assert(nv.to_multiset().add(image_views(rem@).to_multiset()) =~= ov.to_multiset().add(
                rv_old.to_multiset(),
            ));
        }
    }
    proof {
        broadcast use group_to_multiset_ensures;

        assert(image_views(rem@) =~= Seq::<PostImageV>::empty());
        assert forall|a: PostImageV| image_views(rem@).to_multiset().count(a) == 0 by {
            assert(!image_views(rem@).contains(a));
        }
        assert(image_views(rem@).to_multiset() =~= Multiset::<PostImageV>::empty());
        assert(image_views(out@).to_multiset().add(
            Multiset::<PostImageV>::empty(),
        ) =~= image_views(out@).to_multiset());
    }
    out
}

/// Sort directories by title: a permutation of the input, ascending.
pub fn sort_dirs_by_title(input: Vec<Directory>) -> (r: Vec<Directory>)
    ensures
        r@.len() == input@.len(),
        dir_views(r@).to_multiset() == dir_views(input@).to_multiset(),
        sorted_by_title(dir_views(r@)),
{
    let ghost total = dir_views(input@).to_multiset();
    let mut rem = input;
    let ghost n0: int = rem@.len() as int;
    let mut out: Vec<Directory> = Vec::new();
    proof {
        broadcast use group_to_multiset_ensures;

        assert(dir_views(out@) =~= Seq::<DirectoryV>::empty());
        assert(dir_views(out@).to_multiset().add(dir_views(rem@).to_multiset()) =~= total);
    }
    while rem.len() > 0
        invariant
            out@.len() + rem@.len() == n0,
            dir_views(out@).to_multiset().add(dir_views(rem@).to_multiset()) == total,
            sorted_by_title(dir_views(out@)),
        decreases rem.len(),
    {
        let ghost rv_old = dir_views(rem@);
        let x = rem.pop().unwrap();
        let ghost xv = x@;
        let n: usize = out.len();
        let mut pos: usize = 0;
        while pos < n && str_lex_le(out[pos].title.as_str(), x.title.as_str())
            invariant
                pos <= n,
                n == out@.len(),
                forall|k: int| 0 <= k < pos ==> lex_le(dir_views(out@)[k].title, xv.title),
                xv == x@,
            decreases n - pos,
        {
            pos = pos + 1;
        }
        let ghost ov = dir_views(out@);
        out.insert(pos, x);
        proof {
            broadcast use group_to_multiset_ensures;

            let nv = dir_views(out@);
            ov.insert_ensures(pos as int, xv);
            assert(nv =~= ov.insert(pos as int, xv));
            assert forall|i: int, j: int| 0 <= i < j < nv.len() implies lex_le(
                nv[i].title,
                nv[j].title,
            ) by {
                if i < pos as int && j == pos as int {
                } else if i == pos as int && j > pos as int {
                    assert(!lex_le(ov[pos as int].title, xv.title));
                    lemma_lex_total(ov[pos as int].title, xv.title);
                    assert(nv[j] == ov[j - 1]);
                    if j - 1 > pos as int {
                        assert(lex_le(ov[pos as int].title, ov[j - 1].title));
                        lemma_lex_trans(xv.title, ov[pos as int].title, ov[j - 1].title);
                    }
                }
            }
            assert(rv_old =~= dir_views(rem@).push(xv));
            assert(nv.to_multiset() == ov.to_multiset().insert(xv));
            assert(rv_old.to_multiset() == dir_views(rem@).to_multiset().insert(xv));
            assert(nv.to_multiset().add(dir_views(rem@).to_multiset()) =~= ov.to_multiset().add(
                rv_old.to_multiset(),
            ));
        }
    }
    proof {
        broadcast use group_to_multiset_ensures;

        assert(dir_views(rem@) =~= Seq::<DirectoryV>::empty());
        assert forall|a: DirectoryV| dir_views(rem@).to_multiset().count(a) == 0 by {
            assert(!dir_views(rem@).contains(a));
        }
        assert(dir_views(rem@).to_multiset() =~= Multiset::<DirectoryV>::empty());
        assert(dir_views(out@).to_multiset().add(Multiset::<DirectoryV>::empty()) =~= dir_views(
            out@,
        ).to_multiset());
    }
    out
}


/// The predicate "this image belongs to the post with id `pid`".
pub open spec fn is_image_of(pid: int) -> spec_fn(PostImageV) -> bool {
    |im: PostImageV| im.post_id == pid
}

/// The predicate "this post stands in the directory with id `did`".
pub open spec fn is_post_in_dir(did: int) -> spec_fn(PostV) -> bool {
    |p: PostV| p.directory_id == did
}

/// The predicate "this post was made at or after the site launch".
pub open spec fn is_since_launch() -> spec_fn(PostV) -> bool {
    |p: PostV| p.timestamp >= SITE_LAUNCH_TIMESTAMP as int
}

/// The predicate "this directory's parent is the directory with id `did`".
pub open spec fn is_child_of(did: int) -> spec_fn(DirectoryV) -> bool {
    |d: DirectoryV| d.parent_directory_id == Some(did)
}

impl Store {
    /// The images of a post, in display order.
    pub fn images_of_post(&self, post_id: i32) -> (r: Vec<PostImage>)
        ensures
            image_views(r@).to_multiset() == self@.images.filter(
                is_image_of(post_id as int),
            ).to_multiset(),
            sorted_by_order(image_views(r@)),
    {
        let n: usize = self.images.len();
        let mut acc: Vec<PostImage> = Vec::new();
        let mut i: usize = 0;
        proof {
            reveal(Seq::filter);
            assert(self@.images.take(0) =~= Seq::<PostImageV>::empty());
            assert(image_views(acc@) =~= self@.images.take(0).filter(is_image_of(post_id as int)));
        }
        while i < n
            invariant
                i <= n,
                n == self.images@.len(),
                self@.images.len() == n,
                image_views(acc@) == self@.images.take(i as int).filter(
                    is_image_of(post_id as int),
                ),
            decreases n - i,
        {
            let im = &self.images[i];
            let ghost accv = acc@;
            proof {
                assert(self@.images.take(i as int + 1).drop_last() =~= self@.images.take(i as int));
                assert(self@.images.take(i as int + 1).last() == self@.images[i as int]);
            }
            if im.post_id == post_id {
                acc.push(im.duplicate());
                proof {
                    reveal(Seq::filter);
                    crate::models::lemma_image_views_push(accv, acc@.last());
                    assert(acc@ =~= accv.push(acc@.last()));
                }
            } else {
                proof {
                    reveal(Seq::filter);
                    assert(!is_image_of(post_id as int)(self@.images.take(i as int + 1).last()));
                }
            }
            i = i + 1;
        }
        proof {
            assert(self@.images.take(n as int) =~= self@.images);
        }
        sort_images_by_order(acc)
    }

    /// The posts of a directory, oldest first.
    pub fn posts_in_directory(&self, directory_id: i32) -> (r: Vec<Post>)
        ensures
            post_views(r@).to_multiset() == self@.posts.filter(
                is_post_in_dir(directory_id as int),
            ).to_multiset(),
            sorted_ts(false, post_views(r@)),
    {
        let n: usize = self.posts.len();
        let mut acc: Vec<Post> = Vec::new();
        let mut i: usize = 0;
        proof {
            reveal(Seq::filter);
            assert(self@.posts.take(0) =~= Seq::<PostV>::empty());
            assert(post_views(acc@) =~= self@.posts.take(0).filter(
                is_post_in_dir(directory_id as int),
            ));
        }
        while i < n
            invariant
                i <= n,
                n == self.posts@.len(),
                self@.posts.len() == n,
                post_views(acc@) == self@.posts.take(i as int).filter(
                    is_post_in_dir(directory_id as int),
                ),
            decreases n - i,
        {
            let p = &self.posts[i];
            let ghost accv = acc@;
            proof {
                assert(self@.posts.take(i as int + 1).drop_last() =~= self@.posts.take(i as int));
                assert(self@.posts.take(i as int + 1).last() == self@.posts[i as int]);
            }
            if p.directory_id == directory_id {
                acc.push(p.duplicate());
                proof {
                    reveal(Seq::filter);
                    crate::models::lemma_post_views_push(accv, acc@.last());
                    assert(acc@ =~= accv.push(acc@.last()));
                }
            } else {
                proof {
                    reveal(Seq::filter);
                    assert(!is_post_in_dir(directory_id as int)(
                        self@.posts.take(i as int + 1).last(),
                    ));
                }
            }
            i = i + 1;
        }
        proof {
            assert(self@.posts.take(n as int) =~= self@.posts);
        }
        sort_posts_by_timestamp(acc, false)
    }

    /// The posts of the Atom feed: those made since the site launched,
    /// oldest first.
    pub fn feed_posts(&self) -> (r: Vec<Post>)
        ensures
            post_views(r@).to_multiset() == self@.posts.filter(is_since_launch()).to_multiset(),
            sorted_ts(false, post_views(r@)),
    {
        let n: usize = self.posts.len();
        let mut acc: Vec<Post> = Vec::new();
        let mut i: usize = 0;
        proof {
            reveal(Seq::filter);
            assert(self@.posts.take(0) =~= Seq::<PostV>::empty());
            assert(post_views(acc@) =~= self@.posts.take(0).filter(is_since_launch()));
        }
        while i < n
            invariant
                i <= n,
                n == self.posts@.len(),
                self@.posts.len() == n,
                post_views(acc@) == self@.posts.take(i as int).filter(is_since_launch()),
            decreases n - i,
        {
            let p = &self.posts[i];
            let ghost accv = acc@;
            proof {
                assert(self@.posts.take(i as int + 1).drop_last() =~= self@.posts.take(i as int));
                assert(self@.posts.take(i as int + 1).last() == self@.posts[i as int]);
            }
            if p.timestamp >= SITE_LAUNCH_TIMESTAMP {
                acc.push(p.duplicate());
                proof {
                    reveal(Seq::filter);
                    crate::models::lemma_post_views_push(accv, acc@.last());
                    assert(acc@ =~= accv.push(acc@.last()));
                }
            } else {
                proof {
                    reveal(Seq::filter);
                    assert(!is_since_launch()(self@.posts.take(i as int + 1).last()));
                }
            }
            i = i + 1;
        }
        proof {
            assert(self@.posts.take(n as int) =~= self@.posts);
        }
        sort_posts_by_timestamp(acc, false)
    }

    /// The posts of the home page: the ten newest, newest first.
    pub fn recent_posts(&self) -> (r: Vec<Post>)
        ensures
            r@.len() == if self@.posts.len() < 10 {
                self@.posts.len() as int
            } else {
                10int
            },
            sorted_ts(true, post_views(r@)),
            exists|rest: Seq<PostV>|
                (post_views(r@) + rest).to_multiset() == self@.posts.to_multiset() && (forall|
                    k: int,
                |
                    0 <= k < rest.len() ==> (#[trigger] rest[k]).timestamp <= post_views(
                        r@,
                    ).last().timestamp),
    {
        let n: usize = self.posts.len();
        let mut all: Vec<Post> = Vec::new();
        let mut i: usize = 0;
        proof {
            assert(post_views(all@) =~= self@.posts.take(0));
        }
        while i < n
            invariant
                i <= n,
                n == self.posts@.len(),
                self@.posts.len() == n,
                post_views(all@) == self@.posts.take(i as int),
            decreases n - i,
        {
            let ghost allv = all@;
            all.push(self.posts[i].duplicate());
            proof {
                crate::models::lemma_post_views_push(allv, all@.last());
                assert(all@ =~= allv.push(all@.last()));
                assert(post_views(all@) =~= self@.posts.take(i as int + 1));
            }
            i = i + 1;
        }
        proof {
            assert(self@.posts.take(n as int) =~= self@.posts);
        }
        let mut r = sort_posts_by_timestamp(all, true);
        let ghost sortedv = post_views(r@);
        if r.len() > 10 {
            r.truncate(10);
        }
        proof {
            let m = r@.len() as int;
            assert(post_views(r@) =~= sortedv.take(m)) by {
                assert forall|k: int| 0 <= k < m implies post_views(r@)[k] == sortedv.take(
                    m,
                )[k] by {
                    assert(post_views(r@)[k] == r@[k]@);
                }
            }
            let rest = sortedv.skip(m);
            assert(post_views(r@) + rest =~= sortedv);
            assert forall|k: int| 0 <= k < rest.len() implies (#[trigger] rest[k]).timestamp
                <= post_views(r@).last().timestamp by {
                assert(rest[k] == sortedv[m + k]);
                assert(ts_le(true, sortedv[m - 1], sortedv[m + k]));
                assert(post_views(r@).last() == sortedv[m - 1]);
            }
            assert((post_views(r@) + rest).to_multiset() == self@.posts.to_multiset());
            assert(exists|rest2: Seq<PostV>|
                (post_views(r@) + rest2).to_multiset() == self@.posts.to_multiset() && (forall|
                    k: int,
                |
                    0 <= k < rest2.len() ==> (#[trigger] rest2[k]).timestamp <= post_views(
                        r@,
                    ).last().timestamp));
        }
        r
    }

    /// The oldest post strictly newer than the given time, if any.
    pub fn next_post_after(&self, ts: i64) -> (r: Option<Post>)
        ensures
            match r {
                Some(p) => self@.posts.contains(p@) && p@.timestamp > ts && (forall|k: int|
                    0 <= k < self@.posts.len() && (#[trigger] self@.posts[k]).timestamp > ts
                        ==> self@.posts[k].timestamp >= p@.timestamp),
                None => forall|k: int|
                    0 <= k < self@.posts.len() ==> (#[trigger] self@.posts[k]).timestamp <= ts,
            },
    {
        let n: usize = self.posts.len();
        let mut best: Option<&Post> = None;
        let ghost mut bi: int = 0;
        let mut i: usize = 0;
        while i < n
            invariant
                i <= n,
                n == self.posts@.len(),
                self@.posts.len() == n,
                match best {
                    Some(b) => 0 <= bi < i && self@.posts[bi] == b@ && b@.timestamp > ts && (forall|
                        k: int,
                    |
                        0 <= k < i && (#[trigger] self@.posts[k]).timestamp > ts
                            ==> self@.posts[k].timestamp >= b@.timestamp),
                    None => forall|k: int|
                        0 <= k < i ==> (#[trigger] self@.posts[k]).timestamp <= ts,
                },
            decreases n - i,
        {
            let p = &self.posts[i];
            if p.timestamp > ts {
                best = match best {
                    Some(b) => if p.timestamp < b.timestamp {
                        proof {
                            bi = i as int;
                        }
                        Some(p)
                    } else {
                        Some(b)
                    },
                    None => {
                        proof {
                            bi = i as int;
                        }
                        Some(p)
                    },
                };
            }
            i = i + 1;
        }
        match best {
            Some(b) => Some(b.duplicate()),
            None => None,
        }
    }

    /// The newest post strictly older than the given time, if any.
    pub fn prev_post_before(&self, ts: i64) -> (r: Option<Post>)
        ensures
            match r {
                Some(p) => self@.posts.contains(p@) && p@.timestamp < ts && (forall|k: int|
                    0 <= k < self@.posts.len() && (#[trigger] self@.posts[k]).timestamp < ts
                        ==> self@.posts[k].timestamp <= p@.timestamp),
                None => forall|k: int|
                    0 <= k < self@.posts.len() ==> (#[trigger] self@.posts[k]).timestamp >= ts,
            },
    {
        let n: usize = self.posts.len();
        let mut best: Option<&Post> = None;
        let ghost mut bi: int = 0;
        let mut i: usize = 0;
        while i < n
            invariant
                i <= n,
                n == self.posts@.len(),
                self@.posts.len() == n,
                match best {
                    Some(b) => 0 <= bi < i && self@.posts[bi] == b@ && b@.timestamp < ts && (forall|
                        k: int,
                    |
                        0 <= k < i && (#[trigger] self@.posts[k]).timestamp < ts
                            ==> self@.posts[k].timestamp <= b@.timestamp),
                    None => forall|k: int|
                        0 <= k < i ==> (#[trigger] self@.posts[k]).timestamp >= ts,
                },
            decreases n - i,
        {
            let p = &self.posts[i];
            if p.timestamp < ts {
                best = match best {
                    Some(b) => if p.timestamp > b.timestamp {
                        proof {
                            bi = i as int;
                        }
                        Some(p)
                    } else {
                        Some(b)
                    },
                    None => {
                        proof {
                            bi = i as int;
                        }
                        Some(p)
                    },
                };
            }
            i = i + 1;
        }
        match best {
            Some(b) => Some(b.duplicate()),
            None => None,
        }
    }

    /// The subdirectories of a directory, ordered by title.
    pub fn subdirs_of(&self, directory_id: i32) -> (r: Vec<Directory>)
        ensures
            dir_views(r@).to_multiset() == self@.dirs.filter(
                is_child_of(directory_id as int),
            ).to_multiset(),
            sorted_by_title(dir_views(r@)),
    {
        let n: usize = self.dirs.len();
        let mut acc: Vec<Directory> = Vec::new();
        let mut i: usize = 0;
        proof {
            reveal(Seq::filter);
            assert(self@.dirs.take(0) =~= Seq::<DirectoryV>::empty());
            assert(dir_views(acc@) =~= self@.dirs.take(0).filter(is_child_of(directory_id as int)));
        }
        while i < n
            invariant
                i <= n,
                n == self.dirs@.len(),
                self@.dirs.len() == n,
                dir_views(acc@) == self@.dirs.take(i as int).filter(
                    is_child_of(directory_id as int),
                ),
            decreases n - i,
        {
            let d = &self.dirs[i];
            let ghost accv = acc@;
            proof {
                assert(self@.dirs.take(i as int + 1).drop_last() =~= self@.dirs.take(i as int));
                assert(self@.dirs.take(i as int + 1).last() == self@.dirs[i as int]);
            }
            let is_child = match d.parent_directory_id {
                Some(p) => p == directory_id,
                None => false,
            };
            if is_child {
                acc.push(d.duplicate());
                proof {
                    reveal(Seq::filter);
                    crate::models::lemma_dir_views_push(accv, acc@.last());
                    assert(acc@ =~= accv.push(acc@.last()));
                }
            } else {
                proof {
                    reveal(Seq::filter);
                    assert(!is_child_of(directory_id as int)(self@.dirs.take(i as int + 1).last()));
                }
            }
            i = i + 1;
        }
        proof {
            assert(self@.dirs.take(n as int) =~= self@.dirs);
        }
        sort_dirs_by_title(acc)
    }
}

} // verus!
