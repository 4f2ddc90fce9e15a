//! Derivation and refresh of the full-path view.
//!
//! A directory's full path is the concatenation of the slugs of its
//! ancestors, each preceded by a slash, root first; a post's full path is
//! its directory's path followed by a slash and its own slug. The store
//! keeps these in path fields that stand for the materialized view, and
//! [`Store::refresh_paths`] recomputes them after any write that changes
//! slugs or parentage.

use vstd::prelude::*;

use crate::models::{Directory, DirectoryV, Post, PostV};
use crate::store::{Store, chain_terminates, dir_by_id, dir_chain, dir_has_id, dir_path, find_from,
    lemma_find_from, lemma_member_found_dir, post_has_id, post_path_of, wf, wf_dirs, wf_paths,
    wf_refs};
use crate::text::push_char;
use crate::breadcrumbs::lemma_wf_chain_terminates;

verus! {

/// The path spelled by a leaf-first chain of directories: the parents'
/// path, then a slash and the leaf's own slug.
pub open spec fn path_of_chain(c: Seq<DirectoryV>) -> Seq<char>
    decreases c.len(),
{
    if c.len() == 0 {
        Seq::empty()
    } else {
        path_of_chain(c.drop_first()) + seq!['/'] + c.first().slug
    }
}

/// On a terminating chain, the derived path is the path of the chain.
pub proof fn lemma_dir_path_is_chain_path(dirs: Seq<DirectoryV>, id: int, fuel: nat)
    requires
        chain_terminates(dirs, id, fuel),
    ensures
        dir_path(dirs, id, fuel) == path_of_chain(dir_chain(dirs, id, fuel)),
    decreases fuel,
{
    let d = dir_by_id(dirs, id)->Some_0;
    let c = dir_chain(dirs, id, fuel);
    match d.parent_directory_id {
        None => {
            assert(c =~= seq![d]);
            assert(c.drop_first() =~= Seq::<DirectoryV>::empty());
            assert(path_of_chain(Seq::<DirectoryV>::empty()) =~= Seq::<char>::empty());
            assert(dir_path(dirs, id, fuel) =~= path_of_chain(c));
        },
        Some(p) => {
            lemma_dir_path_is_chain_path(dirs, p, (fuel - 1) as nat);
            let rest = dir_chain(dirs, p, (fuel - 1) as nat);
            assert(c =~= seq![d] + rest);
            assert(c.drop_first() =~= rest);
            assert(c.first() == d);
        },
    }
}

/// Two directory rows that agree on everything but the derived path field.
pub open spec fn same_dir_skel(a: DirectoryV, b: DirectoryV) -> bool {
    &&& a.id == b.id
    &&& a.title == b.title
    &&& a.has_proper_title == b.has_proper_title
    &&& a.slug == b.slug
    &&& a.parent_directory_id == b.parent_directory_id
}

/// Two directory tables that agree row by row on everything but the paths.
pub open spec fn same_dir_skels(a: Seq<DirectoryV>, b: Seq<DirectoryV>) -> bool {
    &&& a.len() == b.len()
    &&& forall|i: int| 0 <= i < a.len() ==> same_dir_skel(#[trigger] a[i], #[trigger] b[i])
}

/// Two post rows that agree on everything but the derived path field.
pub open spec fn same_post_skel(a: PostV, b: PostV) -> bool {
    &&& a.id == b.id
    &&& a.title == b.title
    &&& a.has_proper_title == b.has_proper_title
    &&& a.slug == b.slug
    &&& a.timestamp == b.timestamp
    &&& a.directory_id == b.directory_id
    &&& a.description == b.description
}

/// Two post tables that agree row by row on everything but the paths.
pub open spec fn same_post_skels(a: Seq<PostV>, b: Seq<PostV>) -> bool {
    &&& a.len() == b.len()
    &&& forall|i: int| 0 <= i < a.len() ==> same_post_skel(#[trigger] a[i], #[trigger] b[i])
}

/// Finding a directory by id does not depend on the path fields.
pub proof fn lemma_dir_find_frame(a: Seq<DirectoryV>, b: Seq<DirectoryV>, id: int, from: int)
    requires
        same_dir_skels(a, b),
        0 <= from <= a.len(),
    ensures
        find_from(a, dir_has_id(id), from) == find_from(b, dir_has_id(id), from),
    decreases a.len() - from,
{
    if from < a.len() {
        lemma_dir_find_frame(a, b, id, from + 1);
    }
}

/// Finding a post by id does not depend on the path fields.
pub proof fn lemma_post_find_frame(a: Seq<PostV>, b: Seq<PostV>, id: int, from: int)
    requires
        same_post_skels(a, b),
        0 <= from <= a.len(),
    ensures
        find_from(a, post_has_id(id), from) == find_from(b, post_has_id(id), from),
    decreases a.len() - from,
{
    if from < a.len() {
        lemma_post_find_frame(a, b, id, from + 1);
    }
}

/// Chain termination and the derived paths do not depend on the path
/// fields of the directory table.
pub proof fn lemma_dir_path_frame(a: Seq<DirectoryV>, b: Seq<DirectoryV>, id: int, fuel: nat)
    requires
        same_dir_skels(a, b),
        chain_terminates(a, id, fuel),
    ensures
        chain_terminates(b, id, fuel),
        dir_path(b, id, fuel) == dir_path(a, id, fuel),
    decreases fuel,
{
    lemma_dir_find_frame(a, b, id, 0);
    let i = find_from(a, dir_has_id(id), 0)->Some_0;
    lemma_find_from(a, dir_has_id(id), 0);
    let da = a[i];
    let db = b[i];
    assert(same_dir_skel(da, db));
    match da.parent_directory_id {
        None => {},
        Some(p) => {
            lemma_dir_path_frame(a, b, p, (fuel - 1) as nat);
        },
    }
}

impl Store {
    /// Compute the derived full path of the directory with id `id`.
    pub fn compute_dir_path(&self, id: i32) -> (r: String)
        requires
            wf_dirs(self@.dirs),
            dir_by_id(self@.dirs, id as int) is Some,
        ensures
            r@ == dir_path(self@.dirs, id as int, self@.dirs.len() as nat),
    {
        let ghost fuel0: nat = self@.dirs.len() as nat;
        let mut slugs: Vec<String> = Vec::new();
        let mut cur: Option<i32> = Some(id);
        let ghost mut fuel: nat = fuel0;
        let ghost mut collected: Seq<DirectoryV> = Seq::empty();
        proof {
            lemma_wf_chain_terminates(self@.dirs, id as int);
            assert(Seq::<DirectoryV>::empty() + dir_chain(self@.dirs, id as int, fuel0)
                =~= dir_chain(self@.dirs, id as int, fuel0));
        }
        while cur.is_some()
            invariant
                slugs@.len() == collected.len(),
                forall|k: int|
                    0 <= k < collected.len() ==> (#[trigger] slugs@[k])@ == collected[k].slug,
                match cur {
                    Some(c) => chain_terminates(self@.dirs, c as int, fuel) && dir_chain(
                        self@.dirs,
                        id as int,
                        fuel0,
                    ) == collected + dir_chain(self@.dirs, c as int, fuel),
                    None => dir_chain(self@.dirs, id as int, fuel0) == collected,
                },
            decreases fuel + (if cur is Some { 1int } else { 0int }),
        {
            let cid = cur.unwrap();
            let dopt = self.directory_by_id(cid);
            proof {
                assert(dopt is Some);
            }
            let d = dopt.unwrap();
            slugs.push(d.slug.clone());
            cur = d.parent_directory_id;
            proof {
                let ds = self@.dirs;
                let prev = collected;
                collected = collected.push(d@);
                match d@.parent_directory_id {
                    None => {
                        assert(dir_chain(ds, cid as int, fuel) =~= seq![d@]);
                        assert(dir_chain(ds, id as int, fuel0) =~= collected);
                    },
                    Some(p) => {
                        assert(dir_chain(ds, cid as int, fuel) =~= seq![d@] + dir_chain(
                            ds,
                            p,
                            (fuel - 1) as nat,
                        ));
                        assert(prev + dir_chain(ds, cid as int, fuel) =~= collected + dir_chain(
                            ds,
                            p,
                            (fuel - 1) as nat,
                        ));
                        fuel = (fuel - 1) as nat;
                    },
                }
            }
        }
        // Spell the path, root slug first.
        let mut out = String::new();
        let mut i: usize = slugs.len();
        proof {
            assert(collected.skip(i as int) =~= Seq::<DirectoryV>::empty());
        }
        while i > 0
            invariant
                i <= slugs.len(),
                slugs@.len() == collected.len(),
                forall|k: int|
                    0 <= k < collected.len() ==> (#[trigger] slugs@[k])@ == collected[k].slug,
                out@ == path_of_chain(collected.skip(i as int)),
            decreases i,
        {
            i = i - 1;
            push_char(&mut out, '/');
            out.append(slugs[i].as_str());
            proof {
                let c = collected.skip(i as int);
                assert(c.drop_first() =~= collected.skip(i as int + 1));
                assert(c.first() == collected[i as int]);
                assert(out@ =~= path_of_chain(collected.skip(i as int + 1)) + seq!['/']
                    + collected[i as int].slug);
            }
        }
        proof {
            assert(collected.skip(0) =~= collected);
            lemma_dir_path_is_chain_path(self@.dirs, id as int, fuel0);
        }
        out
    }

    /// Recompute every derived path field, as a refresh of the
    /// materialized path view does.
    pub fn refresh_paths(&mut self)
        requires
            wf_refs(old(self)@),
        ensures
            wf(final(self)@),
            same_dir_skels(old(self)@.dirs, final(self)@.dirs),
            same_post_skels(old(self)@.posts, final(self)@.posts),
            final(self)@.images == old(self)@.images,
    {
        let nd: usize = self.dirs.len();
        let mut dirs2: Vec<Directory> = Vec::new();
        let mut i: usize = 0;
        while i < nd
            invariant
                wf_refs(self@),
                self@ == old(self)@,
                nd == self@.dirs.len(),
                i <= nd,
                dirs2@.len() == i,
                forall|k: int|
                    0 <= k < i ==> same_dir_skel((#[trigger] dirs2@[k])@, self@.dirs[k]),
                forall|k: int|
                    0 <= k < i ==> (#[trigger] dirs2@[k])@.path == dir_path(
                        self@.dirs,
                        self@.dirs[k].id,
                        nd as nat,
                    ),
            decreases nd - i,
        {
            proof {
                lemma_member_found_dir(self@.dirs, i as int);
            }
            let d = &self.dirs[i];
            let p = self.compute_dir_path(d.id);
            let nd2 = Directory {
                id: d.id,
                title: d.title.clone(),
                has_proper_title: d.has_proper_title,
                slug: d.slug.clone(),
                parent_directory_id: d.parent_directory_id,
                path: p,
            };
            dirs2.push(nd2);
            i = i + 1;
        }
        let np: usize = self.posts.len();
        let mut posts2: Vec<Post> = Vec::new();
        let mut j: usize = 0;
        while j < np
            invariant
                wf_refs(self@),
                self@ == old(self)@,
                np == self@.posts.len(),
                j <= np,
                posts2@.len() == j,
                forall|k: int|
                    0 <= k < j ==> same_post_skel((#[trigger] posts2@[k])@, self@.posts[k]),
                forall|k: int|
                    0 <= k < j ==> (#[trigger] posts2@[k])@.path == post_path_of(
                        self@.dirs,
                        self@.posts[k],
                    ),
            decreases np - j,
        {
            let q = &self.posts[j];
            proof {
                assert(dir_by_id(self@.dirs, self@.posts[j as int].directory_id) is Some);
                assert(q@ == self@.posts[j as int]);
            }
            let mut p = self.compute_dir_path(q.directory_id);
            push_char(&mut p, '/');
            p.append(q.slug.as_str());
            let nq = Post {
                id: q.id,
                title: q.title.clone(),
                has_proper_title: q.has_proper_title,
                slug: q.slug.clone(),
                timestamp: q.timestamp,
                directory_id: q.directory_id,
                description: q.description.clone(),
                path: p,
            };
            posts2.push(nq);
            j = j + 1;
        }
        let ghost olds = self@;
        let ghost dirs2v = dirs2@.map_values(|d: Directory| d@);
        let ghost posts2v = posts2@.map_values(|p: Post| p@);
        self.dirs = dirs2;
        self.posts = posts2;
        proof {
            let news = self@;
            assert(news.dirs =~= dirs2v);
            assert(news.posts =~= posts2v);
            assert(same_dir_skels(olds.dirs, news.dirs));
            assert(same_post_skels(olds.posts, news.posts));
            // Well-formedness of the references survives the path rewrite.
            assert forall|k: int| 0 <= k < news.dirs.len() implies chain_terminates(
                news.dirs,
                (#[trigger] news.dirs[k]).id,
                news.dirs.len() as nat,
            ) by {
                lemma_dir_path_frame(olds.dirs, news.dirs, olds.dirs[k].id, olds.dirs.len() as nat);
            }
            assert forall|k: int| 0 <= k < news.posts.len() implies dir_by_id(
                news.dirs,
                (#[trigger] news.posts[k]).directory_id,
            ) is Some by {
                lemma_dir_find_frame(olds.dirs, news.dirs, olds.posts[k].directory_id, 0);
            }
            assert(news.images =~= olds.images);
            assert forall|k: int| 0 <= k < news.images.len() implies crate::store::post_by_id(
                news.posts,
                (#[trigger] news.images[k]).post_id,
            ) is Some by {
                lemma_post_find_frame(olds.posts, news.posts, olds.images[k].post_id, 0);
            }
            assert(wf_refs(news));
            // The freshly written paths are the derived ones.
            assert forall|k: int| 0 <= k < news.dirs.len() implies (
            #[trigger] news.dirs[k]).path == dir_path(news.dirs, news.dirs[k].id, news.dirs.len() as nat) by {
                lemma_dir_path_frame(olds.dirs, news.dirs, olds.dirs[k].id, olds.dirs.len() as nat);
            }
            assert forall|k: int| 0 <= k < news.posts.len() implies (
            #[trigger] news.posts[k]).path == post_path_of(news.dirs, news.posts[k]) by {
                lemma_member_found_dir(olds.dirs, 0);
                let did = olds.posts[k].directory_id;
                lemma_wf_chain_terminates_for_post(olds, k);
                lemma_dir_path_frame(olds.dirs, news.dirs, did, olds.dirs.len() as nat);
            }
            assert(wf_paths(news));
        }
    }
}

/// In a well-formed store, the directory of any post has a terminating
/// parent chain.
pub proof fn lemma_wf_chain_terminates_for_post(s: crate::store::StoreV, k: int)
    requires
        wf_refs(s),
        0 <= k < s.posts.len(),
    ensures
        chain_terminates(s.dirs, s.posts[k].directory_id, s.dirs.len() as nat),
{
    lemma_wf_chain_terminates(s.dirs, s.posts[k].directory_id);
}

} // verus!
