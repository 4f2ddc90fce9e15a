//! Breadcrumb trails: the chain of ancestor directories above a page.
//!
//! A trail is built by walking parent references one row at a time until a
//! directory without a parent is reached, collecting each directory's path
//! and title, and then reversing the collected sequence so that it runs from
//! the root down to the resource.

use vstd::prelude::*;

use crate::models::{Breadcrumb, BreadcrumbV, Directory, DirectoryV, id_view};
use crate::store::{Store, chain_terminates, dir_by_id, dir_chain, dir_has_id, find_from,
    lemma_find_from, wf_dirs};

verus! {

/// The (path, title) pairs of a sequence of directories.
pub open spec fn crumbs_of(c: Seq<DirectoryV>) -> Seq<BreadcrumbV> {
    c.map_values(|d: DirectoryV| BreadcrumbV { path: d.path, label: d.title })
}

/// The views of a sequence of breadcrumb rows.
pub open spec fn crumb_views(s: Seq<Breadcrumb>) -> Seq<BreadcrumbV> {
    s.map_values(|b: Breadcrumb| b@)
}

/// The breadcrumb trail for a walk starting at `start`: the parent chain,
/// root first.
pub open spec fn trail_of(dirs: Seq<DirectoryV>, start: Option<int>) -> Seq<BreadcrumbV> {
    match start {
        None => Seq::empty(),
        Some(id) => crumbs_of(dir_chain(dirs, id, dirs.len() as nat)).reverse(),
    }
}

/// A directory found by id is a row of the store with that id.
pub proof fn lemma_dir_by_id_member(dirs: Seq<DirectoryV>, id: int)
    requires
        dir_by_id(dirs, id) is Some,
    ensures
        exists|i: int|
            0 <= i < dirs.len() && dirs[i] == dir_by_id(dirs, id)->Some_0 && (
            #[trigger] dirs[i]).id == id,
{
    lemma_find_from(dirs, dir_has_id(id), 0);
    let i = find_from(dirs, dir_has_id(id), 0)->Some_0;
    assert(dirs[i].id == id && dirs[i] == dir_by_id(dirs, id)->Some_0);
}

/// In a well-formed set of directory rows, every parent chain that starts at
/// an existing directory terminates.
pub proof fn lemma_wf_chain_terminates(dirs: Seq<DirectoryV>, id: int)
    requires
        wf_dirs(dirs),
        dir_by_id(dirs, id) is Some,
    ensures
        chain_terminates(dirs, id, dirs.len() as nat),
{
    lemma_dir_by_id_member(dirs, id);
}

/// The shape of a terminating parent chain, leaf first: it starts at the
/// requested directory, every element is a row of the store, each element's
/// parent is the next element, and the last element is a root.
pub proof fn lemma_chain_shape(dirs: Seq<DirectoryV>, id: int, fuel: nat)
    requires
        chain_terminates(dirs, id, fuel),
    ensures
        ({
            let c = dir_chain(dirs, id, fuel);
            &&& c.len() >= 1
            &&& c[0] == dir_by_id(dirs, id)->Some_0
            &&& c[0].id == id
            &&& c.last().parent_directory_id is None
            &&& forall|i: int|
                0 <= i < c.len() - 1 ==> (#[trigger] c[i]).parent_directory_id == Some(c[i + 1].id)
            &&& forall|i: int|
                0 <= i < c.len() ==> dir_by_id(dirs, (#[trigger] c[i]).id) == Some(c[i])
        }),
    decreases fuel,
{
    let c = dir_chain(dirs, id, fuel);
    let d = dir_by_id(dirs, id)->Some_0;
    lemma_dir_by_id_member(dirs, id);
    assert(d.id == id);
    match d.parent_directory_id {
        None => {
            assert(c =~= seq![d]);
        },
        Some(p) => {
            lemma_chain_shape(dirs, p, (fuel - 1) as nat);
            let rest = dir_chain(dirs, p, (fuel - 1) as nat);
            assert(c =~= seq![d] + rest);
            assert(c[0] == d);
            assert(rest[0] == dir_by_id(dirs, p)->Some_0);
            assert(rest[0].id == p);
            assert(c.last() == rest.last());
        },
    }
}

/// The law of breadcrumb ordering: a trail runs from the root down to the
/// resource. Reversed, a terminating parent chain begins with a directory
/// that has no parent, each later entry names the previous entry as its
/// parent, the final entry is the directory the walk started from, and the
/// trail holds exactly the (path, title) pairs of those rows.
pub proof fn lemma_trail_root_to_leaf(dirs: Seq<DirectoryV>, id: int)
    requires
        wf_dirs(dirs),
        dir_by_id(dirs, id) is Some,
    ensures
        ({
            let rc = dir_chain(dirs, id, dirs.len() as nat).reverse();
            &&& rc.len() >= 1
            &&& rc[0].parent_directory_id is None
            &&& rc[rc.len() - 1] == dir_by_id(dirs, id)->Some_0
            &&& forall|i: int|
                1 <= i < rc.len() ==> (#[trigger] rc[i]).parent_directory_id == Some(rc[i - 1].id)
            &&& forall|i: int|
                0 <= i < rc.len() ==> dir_by_id(dirs, (#[trigger] rc[i]).id) == Some(rc[i])
            &&& trail_of(dirs, Some(id)) == crumbs_of(rc)
        }),
{
    lemma_wf_chain_terminates(dirs, id);
    lemma_chain_shape(dirs, id, dirs.len() as nat);
    let c = dir_chain(dirs, id, dirs.len() as nat);
    let rc = c.reverse();
    assert(forall|i: int| 1 <= i < rc.len() ==> (#[trigger] rc[i]).parent_directory_id == Some(
        rc[i - 1].id,
    )) by {
        assert(forall|i: int|
            1 <= i < rc.len() ==> #[trigger] rc[i] == c[c.len() - 1 - i] && rc[i - 1] == c[c.len()
                - i]);
    }
    assert(trail_of(dirs, Some(id)) =~= crumbs_of(rc));
}

impl Store {
    /// Collect the breadcrumb trail for a walk starting at `start`,
    /// root-to-leaf.
    ///
    /// For a post page the walk starts at the post's directory; for a
    /// directory page it starts at the directory's parent.
    pub fn breadcrumbs_from(&self, start: Option<i32>) -> (r: Vec<Breadcrumb>)
        requires
            wf_dirs(self@.dirs),
            match start {
                Some(id) => dir_by_id(self@.dirs, id as int) is Some,
                None => true,
            },
        ensures
            crumb_views(r@) == trail_of(self@.dirs, id_view(start)),
    {
        let ghost fuel0: nat = self@.dirs.len() as nat;
        let mut crumbs: Vec<Breadcrumb> = Vec::new();
        let mut cur: Option<i32> = start;
        let ghost mut fuel: nat = fuel0;
        let ghost mut collected: Seq<DirectoryV> = Seq::empty();
        proof {
            if let Some(id) = start {
                lemma_wf_chain_terminates(self@.dirs, id as int);
                assert(Seq::<DirectoryV>::empty() + dir_chain(self@.dirs, id as int, fuel0)
                    =~= dir_chain(self@.dirs, id as int, fuel0));
            }
            assert(crumb_views(crumbs@) =~= crumbs_of(collected));
        }
        while cur.is_some()
            invariant
                crumb_views(crumbs@) == crumbs_of(collected),
                match cur {
                    Some(c) => chain_terminates(self@.dirs, c as int, fuel) && (match id_view(
                        start,
                    ) {
                        Some(s) => dir_chain(self@.dirs, s, fuel0) == collected + dir_chain(
                            self@.dirs,
                            c as int,
                            fuel,
                        ),
                        None => false,
                    }),
                    None => (match id_view(start) {
                        Some(s) => dir_chain(self@.dirs, s, fuel0) == collected,
                        None => collected == Seq::<DirectoryV>::empty(),
                    }),
                },
            decreases fuel + (if cur is Some { 1int } else { 0int }),
        {
            let cid = cur.unwrap();
            let dopt = self.directory_by_id(cid);
            proof {
                assert(dopt is Some);
            }
            let d = dopt.unwrap();
            let ghost cprev = crumbs@;
            let crumb = Breadcrumb { path: d.path.clone(), label: d.title.clone() };
            let ghost cv = crumb@;
            crumbs.push(crumb);
            cur = d.parent_directory_id;
            proof {
                let ds = self@.dirs;
                let s = id_view(start)->Some_0;
                let prev = collected;
                collected = collected.push(d@);
                assert(cv.path == d@.path && cv.label == d@.title);
                assert(crumb_views(crumbs@).len() == crumbs@.len());
                assert(crumbs_of(collected).len() == collected.len());
                assert(crumb_views(cprev).len() == crumbs_of(prev).len());
                assert forall|k: int| 0 <= k < crumbs@.len() implies crumb_views(crumbs@)[k]
                    == crumbs_of(collected)[k] by {
                    if k < cprev.len() {
                        assert(collected[k] == prev[k]);
                        assert(crumb_views(crumbs@)[k] == crumb_views(cprev)[k]);
                        assert(crumb_views(cprev)[k] == crumbs_of(prev)[k]);
                    } else {
                        assert(crumb_views(crumbs@)[k] == cv);
                        assert(crumbs_of(collected)[k] == cv);
                    }
                }
                assert(crumb_views(crumbs@) =~= crumbs_of(collected));
                match d@.parent_directory_id {
                    None => {
                        assert(dir_chain(ds, cid as int, fuel) =~= seq![d@]);
                        assert(dir_chain(ds, s, fuel0) =~= collected);
                    },
                    Some(p) => {
                        assert(dir_chain(ds, cid as int, fuel) =~= seq![d@] + dir_chain(
                            ds,
                            p,
                            (fuel - 1) as nat,
                        ));
                        assert(prev + dir_chain(ds, cid as int, fuel) =~= collected + dir_chain(
                            ds,
                            p,
                            (fuel - 1) as nat,
                        ));
                        fuel = (fuel - 1) as nat;
                    },
                }
            }
        }
        // Reverse the collected leaf-to-root walk into root-to-leaf order.
        let ghost full: Seq<Breadcrumb> = crumbs@;
        let mut out: Vec<Breadcrumb> = Vec::new();
        proof {
            assert(crumbs@ =~= full.take(crumbs@.len() as int));
            assert(crumb_views(out@) =~= crumb_views(full).skip(crumbs@.len() as int).reverse());
        }
        while crumbs.len() > 0
            invariant
                crumbs@ == full.take(crumbs@.len() as int),
                crumbs@.len() <= full.len(),
                crumb_views(full) == crumbs_of(collected),
                crumb_views(out@) == crumb_views(full).skip(crumbs@.len() as int).reverse(),
            decreases crumbs@.len(),
        {
            let ghost before = crumbs@;
            let b = crumbs.pop().unwrap();
            out.push(b);
            proof {
                let m = crumbs@.len() as int;
                assert(before.drop_last() =~= full.take(m));
                assert(b == full[m]);
                let cv = crumb_views(full);
                let t = cv.skip(m);
                let prev_t = cv.skip(m + 1);
                assert(crumb_views(out@) =~= prev_t.reverse().push(b@));
                assert forall|k: int| 0 <= k < t.len() implies prev_t.reverse().push(b@)[k]
                    == t.reverse()[k] by {
                    if k < t.len() - 1 {
                        assert(prev_t.reverse()[k] == prev_t[prev_t.len() - 1 - k]);
                        assert(prev_t[prev_t.len() - 1 - k] == cv[cv.len() - 1 - k]);
                        assert(t.reverse()[k] == t[t.len() - 1 - k]);
                        assert(t[t.len() - 1 - k] == cv[cv.len() - 1 - k]);
                    } else {
                        assert(t.reverse()[k] == t[0]);
                        assert(t[0] == cv[m]);
                        assert(cv[m] == b@);
                    }
                }
                assert(prev_t.reverse().push(b@) =~= t.reverse());
            }
        }
        proof {
            assert(crumb_views(full).skip(0) =~= crumb_views(full));
            assert(crumb_views(out@) == crumbs_of(collected).reverse());
            match id_view(start) {
                Some(s) => {
                    assert(trail_of(self@.dirs, id_view(start)) == crumbs_of(collected).reverse());
                },
                None => {
                    assert(crumbs_of(collected) =~= Seq::<BreadcrumbV>::empty());
                    assert(trail_of(self@.dirs, id_view(start)) =~= crumbs_of(
                        collected,
                    ).reverse());
                },
            }
        }
        out
    }
}

} // verus!
