//! The text-editable snapshot of a post, and the pure parts of the editing
//! workflow: splitting a post's path into parent path and slug, planning the
//! copy of attached files into per-post storage, and appending a save error
//! to the snapshot as a comment block for the next round of editing.

use vstd::prelude::*;

use crate::resolve::{has_slash, last_slash_of, lemma_last_slash_unique};
use crate::text::{dec_digits, last_slash};

verus! {

/// A post file as it stands in the editable snapshot.
pub struct EditPostFile {
    /// Where on the local filesystem a newly attached file comes from;
    /// absent for files that are already in storage.
    pub local_path: Option<String>,
    pub alt_text: String,
}

/// The view of an [`EditPostFile`].
#[verifier::ext_equal]
pub ghost struct EditPostFileV {
    pub local_path: Option<Seq<char>>,
    pub alt_text: Seq<char>,
}

impl View for EditPostFile {
    type V = EditPostFileV;

    open spec fn view(&self) -> EditPostFileV {
        EditPostFileV {
            local_path: match self.local_path {
                Some(ref p) => Some(p@),
                None => None,
            },
            alt_text: self.alt_text@,
        }
    }
}

/// The views of a sequence of snapshot files.
pub open spec fn file_views(s: Seq<EditPostFile>) -> Seq<EditPostFileV> {
    s.map_values(|f: EditPostFile| f@)
}

/// A post's metadata as it stands in the editable snapshot.
pub struct EditPost {
    /// The full path the post should live at, parent path and slug.
    pub path: String,
    pub title: String,
    pub has_proper_title: bool,
    /// Seconds since the Unix epoch; absent to let the store date the post.
    pub timestamp: Option<i64>,
    pub description: String,
}

/// A whole editable snapshot: a post and its ordered file list.
pub struct EditPostWithFiles {
    pub post: EditPost,
    pub files: Vec<EditPostFile>,
}

/// Split a post's full path into its parent directory path and its slug at
/// the last slash: `/a/b` becomes (`/a`, `b`). A path without a slash names
/// nothing and is rejected.
pub open spec fn split_parent(s: Seq<char>) -> Option<(Seq<char>, Seq<char>)> {
    if !has_slash(s) {
        None
    } else {
        let j = last_slash_of(s);
        Some((s.take(j), s.skip(j + 1)))
    }
}

/// Split a post path into (parent directory path, slug).
pub fn split_post_path(path: &str) -> (r: Option<(String, String)>)
    ensures
        match split_parent(path@) {
            Some((dp, slug)) => r is Some && r->Some_0.0@ == dp && r->Some_0.1@ == slug,
            None => r is None,
        },
{
    match last_slash(path) {
        None => {
            proof {
                assert(!has_slash(path@));
            }
            None
        },
        Some(j) => {
            proof {
                lemma_last_slash_unique(path@, j as int);
            }
            let n: usize = path.unicode_len();
            let dir_part = path.substring_char(0, j);
            let slug_part = path.substring_char(j + 1, n);
            proof {
                assert(dir_part@ =~= path@.take(j as int));
                assert(slug_part@ =~= path@.skip(j as int + 1));
            }
            Some((String::from_str(dir_part), String::from_str(slug_part)))
        },
    }
}

/// One file copy the save has to make: a source on the local filesystem and
/// the name the copy gets inside the post's `files` directory.
pub struct FileCopy {
    pub source: String,
    /// `<display order>.png`, under the post's `files` directory.
    pub dest_name: String,
}

/// The view of a [`FileCopy`].
#[verifier::ext_equal]
pub ghost struct FileCopyV {
    pub source: Seq<char>,
    pub dest_name: Seq<char>,
}

impl View for FileCopy {
    type V = FileCopyV;

    open spec fn view(&self) -> FileCopyV {
        FileCopyV { source: self.source@, dest_name: self.dest_name@ }
    }
}

/// The views of a sequence of planned copies.
pub open spec fn copy_views(s: Seq<FileCopy>) -> Seq<FileCopyV> {
    s.map_values(|c: FileCopy| c@)
}

/// The destination name of the file at 0-based position `k`: display order
/// `k + 1`, stored as PNG.
pub open spec fn dest_name_spec(k: int) -> Seq<char> {
    dec_digits((k + 1) as nat) + ".png"@
}

/// The copies a list of snapshot files asks for, from position `from` on:
/// one per file with a local path, in order.
pub open spec fn copies_spec(files: Seq<EditPostFileV>, from: int) -> Seq<FileCopyV>
    decreases files.len() - from when from >= 0
{
    if from < 0 || from >= files.len() {
        Seq::empty()
    } else {
        (match files[from].local_path {
            Some(p) => seq![FileCopyV { source: p, dest_name: dest_name_spec(from) }],
            None => Seq::empty(),
        }) + copies_spec(files, from + 1)
    }
}

/// What saving a list of snapshot files does to local storage: which files
/// are copied in, under which names, and whether thumbnails are regenerated
/// (they are exactly when the first file was newly attached).
pub struct FilePlan {
    pub copies: Vec<FileCopy>,
    pub make_thumbnails: bool,
}

/// Plan the filesystem side of a save: each newly attached file is copied to
/// `<order>.png`, counting from one, and the thumbnails are regenerated from
/// the first file when it is newly attached.
pub fn file_copy_plan(files: &Vec<EditPostFile>) -> (r: FilePlan)
    requires
        files@.len() <= u32::MAX,
    ensures
        copy_views(r.copies@) == copies_spec(file_views(files@), 0),
        r.make_thumbnails == (files@.len() > 0 && file_views(files@)[0].local_path is Some),
{
    let n: usize = files.len();
    let mut copies: Vec<FileCopy> = Vec::new();
    let mut i: usize = 0;
    proof {
        assert(copy_views(copies@) =~= Seq::<FileCopyV>::empty());
        assert(Seq::<FileCopyV>::empty() + copies_spec(file_views(files@), 0) =~= copies_spec(
            file_views(files@),
            0,
        ));
    }
    while i < n
        invariant
            i <= n,
            n == files@.len(),
            n <= u32::MAX,
            copy_views(copies@) + copies_spec(file_views(files@), i as int) == copies_spec(
                file_views(files@),
                0,
            ),
        decreases n - i,
    {
        let ghost before = copies@;
        match files[i].local_path {
            Some(ref src) => {
                let mut name = String::new();
                let order: u32 = (i as u32) + 1;
                crate::text::push_decimal(&mut name, order);
                name.append(".png");
                let c = FileCopy { source: src.clone(), dest_name: name };
                copies.push(c);
                proof {
                    assert(copy_views(copies@) =~= copy_views(before).push(copies@.last()@));
                    assert(copies@.last()@.dest_name =~= dest_name_spec(i as int));
                    assert(copies_spec(file_views(files@), i as int) =~= seq![copies@.last()@]
                        + copies_spec(file_views(files@), i as int + 1));
                    assert(copy_views(before).push(copies@.last()@) + copies_spec(
                        file_views(files@),
                        i as int + 1,
                    ) =~= copy_views(before) + copies_spec(file_views(files@), i as int));
                }
            },
            None => {
                proof {
                    assert(file_views(files@)[i as int].local_path is None);
                    assert(copies_spec(file_views(files@), i as int) =~= Seq::<FileCopyV>::empty()
                        + copies_spec(file_views(files@), i as int + 1));
                    assert(copy_views(copies@) + copies_spec(file_views(files@), i as int + 1)
                        =~= copy_views(copies@) + copies_spec(file_views(files@), i as int));
                }
            },
        }
        i = i + 1;
    }
    proof {
        assert(copies_spec(file_views(files@), n as int) =~= Seq::<FileCopyV>::empty());
        assert(copy_views(copies@) + Seq::<FileCopyV>::empty() =~= copy_views(copies@));
    }
    let make_thumbnails = if files.len() > 0 {
        files[0].local_path.is_some()
    } else {
        false
    };
    FilePlan { copies, make_thumbnails }
}


/// The predicate "this character is a line feed".
pub open spec fn is_nl() -> spec_fn(char) -> bool {
    |c: char| c == '\n'
}

/// The marker line that opens the error block at the end of a snapshot.
pub open spec fn error_header() -> Seq<char> {
    "### ERROR ###\n"@
}

/// The first position at or after `from` where `pat` occurs in `s`.
pub open spec fn find_match_from(s: Seq<char>, pat: Seq<char>, from: int) -> Option<int>
    decreases s.len() - from when from >= 0
{
    if from < 0 || from + pat.len() > s.len() {
        None
    } else if pat.len() == 0 {
        Some(from)
    } else if s.subrange(from, from + pat.len()) == pat {
        Some(from)
    } else {
        find_match_from(s, pat, from + 1)
    }
}

/// A snapshot with any previous error block cut off.
pub open spec fn truncated_snapshot(s: Seq<char>) -> Seq<char> {
    match find_match_from(s, error_header(), 0) {
        Some(i) => s.take(i),
        None => s,
    }
}

/// A line with a trailing carriage return removed.
pub open spec fn trim_cr(l: Seq<char>) -> Seq<char> {
    if l.len() > 0 && l.last() == '\r' {
        l.drop_last()
    } else {
        l
    }
}

/// Each line of an error message as a comment line: `# `, the line without
/// its line ending, a line feed.
pub open spec fn comment_lines(e: Seq<char>) -> Seq<char>
    decreases e.len() via comment_lines_decreases
{
    if e.len() == 0 {
        Seq::empty()
    } else {
        match crate::store::find_from(e, is_nl(), 0) {
            Some(i) => "# "@ + trim_cr(e.take(i)) + "\n"@ + comment_lines(e.skip(i + 1)),
            None => "# "@ + trim_cr(e) + "\n"@,
        }
    }
}

#[via_fn]
proof fn comment_lines_decreases(e: Seq<char>) {
    if e.len() > 0 {
        crate::store::lemma_find_from(e, is_nl(), 0);
    }
}

/// Find the first line feed at or after `from`.
fn find_nl_from(s: &str, from: usize) -> (r: Option<usize>)
    requires
        from <= s@.len(),
    ensures
        match r {
            Some(i) => crate::store::find_from(s@, is_nl(), from as int) == Some(i as int),
            None => crate::store::find_from(s@, is_nl(), from as int) is None,
        },
{
    let n: usize = s.unicode_len();
    let mut i: usize = from;
    while i < n
        invariant
            from <= i <= n,
            n == s@.len(),
            crate::store::find_from(s@, is_nl(), from as int) == crate::store::find_from(
                s@,
                is_nl(),
                i as int,
            ),
        decreases n - i,
    {
        if s.get_char(i) == '\n' {
            return Some(i);
        }
        i = i + 1;
    }
    None
}

/// Find the first occurrence of `pat` in `s`.
fn find_match(s: &str, pat: &str) -> (r: Option<usize>)
    ensures
        match r {
            Some(i) => find_match_from(s@, pat@, 0) == Some(i as int) && i + pat@.len()
                <= s@.len(),
            None => find_match_from(s@, pat@, 0) is None,
        },
{
    let n: usize = s.unicode_len();
    let m: usize = pat.unicode_len();
    let mut i: usize = 0;
    if m > n {
        return None;
    }
    if m == 0 {
        return Some(0);
    }
    while i <= n - m
        invariant
            0 <= i,
            i <= n - m + 1,
            1 <= m <= n,
            n == s@.len(),
            m == pat@.len(),
            find_match_from(s@, pat@, 0) == find_match_from(s@, pat@, i as int),
        decreases n - i,
    {
        let mut j: usize = 0;
        let mut hit = true;
        while j < m
            invariant
                0 <= j <= m,
                i + m <= n,
                n == s@.len(),
                m == pat@.len(),
                hit ==> forall|k: int| 0 <= k < j ==> s@[i + k] == pat@[k],
                !hit ==> s@.subrange(i as int, i as int + m as int) != pat@,
            decreases m - j,
        {
            if s.get_char(i + j) != pat.get_char(j) {
                proof {
                    assert(s@.subrange(i as int, i as int + m as int)[j as int] != pat@[j as int]);
                }
                hit = false;
                j = m;
            } else {
                j = j + 1;
            }
        }
        if hit {
            proof {
                assert(s@.subrange(i as int, i as int + m as int) =~= pat@);
            }
            return Some(i);
        }
        i = i + 1;
    }
    None
}

/// Append a save error to a snapshot as a comment block, replacing any
/// error block from an earlier round: the snapshot is cut at the first
/// marker line, then the marker and the error's lines, each as a `# `
/// comment, are appended.
#[verifier::rlimit(50)]
pub fn append_error_comment(snapshot: &str, error: &str) -> (r: String)
    ensures
        r@ == truncated_snapshot(snapshot@) + error_header() + comment_lines(error@),
{
    let mut out: String = match find_match(snapshot, "### ERROR ###\n") {
        Some(i) => String::from_str(snapshot.substring_char(0, i)),
        None => String::from_str(snapshot),
    };
    proof {
        assert(out@ =~= truncated_snapshot(snapshot@));
    }
    out.append("### ERROR ###\n");
    let ghost base = out@;
    let n: usize = error.unicode_len();
    let mut pos: usize = 0;
    proof {
        assert(error@.skip(0) =~= error@);
    }
    while pos < n
        invariant
            0 <= pos <= n,
            n == error@.len(),
            base == truncated_snapshot(snapshot@) + error_header(),
            base + comment_lines(error@) == out@ + comment_lines(error@.skip(pos as int)),
        decreases n - pos,
    {
        let rest_end: usize = match find_nl_from(error, pos) {
            Some(i) => i,
            None => n,
        };
        let ghost e = error@;
        let ghost rel = crate::store::find_from(e.skip(pos as int), is_nl(), 0);
        proof {
            crate::store::lemma_find_from_shift(e, is_nl(), pos as int, pos as int);
            crate::store::lemma_find_from(e, is_nl(), pos as int);
        }
        // the line, without a trailing carriage return
        let line_end: usize = if rest_end > pos && error.get_char(rest_end - 1) == '\r' {
            rest_end - 1
        } else {
            rest_end
        };
        out.append("# ");
        out.append(error.substring_char(pos, line_end));
        out.append("\n");
        proof {
            let tailseq = e.skip(pos as int);
            assert(tailseq.len() > 0);
            let lineseq = if rest_end < n {
                tailseq.take(rest_end - pos as int)
            } else {
                tailseq
            };
            assert(lineseq =~= e.subrange(pos as int, rest_end as int));
            assert(trim_cr(lineseq) =~= e.subrange(pos as int, line_end as int));
            if rest_end < n {
                assert(comment_lines(tailseq) == "# "@ + trim_cr(lineseq) + "\n"@
                    + comment_lines(tailseq.skip(rest_end - pos as int + 1)));
                assert(tailseq.skip(rest_end - pos as int + 1) =~= e.skip(rest_end as int + 1));
            } else {
                assert(comment_lines(tailseq) == "# "@ + trim_cr(lineseq) + "\n"@);
                assert(e.skip(n as int) =~= Seq::<char>::empty());
            }
        }
        pos = if rest_end < n {
            rest_end + 1
        } else {
            n
        };
    }
    proof {
        assert(error@.skip(n as int) =~= Seq::<char>::empty());
        assert(comment_lines(Seq::<char>::empty()) =~= Seq::<char>::empty());
        assert(out@ + Seq::<char>::empty() =~= out@);
        assert(base + comment_lines(error@) =~= out@);
    }
    out
}

} // verus!
