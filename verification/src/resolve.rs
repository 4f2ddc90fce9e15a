//! Resolution of a URL path to one of four resource kinds.
//!
//! A request path names, in fixed priority order: an individual post file
//! (`<post-path>/files/<positive-integer>`), a thumbnail
//! (`<post-path>/thumbnail`, with an optional height out of the fixed set of
//! generated sizes, 200 by default), an exact post path, or an exact
//! directory path. The first matching kind wins; when none matches the
//! resource is absent. File and thumbnail hits are served from local storage
//! at a layout keyed by the numeric post id.

use vstd::prelude::*;

use crate::store::{Store, StoreV, dir_at_path, image_at, post_at_path, post_has_path, wf_refs,
    lemma_find_from};
use crate::text::{all_digits, dec_digits, digits_val, last_slash, parse_decimal, push_char,
    push_decimal, str_eq};

verus! {

/// `i` is the index of the last slash in `s`.
pub open spec fn is_last_slash(s: Seq<char>, i: int) -> bool {
    &&& 0 <= i < s.len()
    &&& s[i] == '/'
    &&& forall|j: int| i < j < s.len() ==> s[j] != '/'
}

/// `s` holds at least one slash.
pub open spec fn has_slash(s: Seq<char>) -> bool {
    exists|i: int| 0 <= i < s.len() && s[i] == '/'
}

/// The index of the last slash in `s` (meaningful only when `has_slash`).
pub open spec fn last_slash_of(s: Seq<char>) -> int {
    choose|i: int| is_last_slash(s, i)
}

/// The index of the last slash is what `last_slash_of` names.
pub proof fn lemma_last_slash_unique(s: Seq<char>, i: int)
    requires
        is_last_slash(s, i),
    ensures
        has_slash(s),
        last_slash_of(s) == i,
{
    assert(has_slash(s));
    assert(is_last_slash(s, last_slash_of(s)));
    let j = last_slash_of(s);
    if j < i {
        assert(s[i] == '/');
        assert(false);
    }
    if i < j {
        assert(s[j] == '/');
        assert(false);
    }
}

/// A full post path with its leading slash.
pub open spec fn abs_path(p: Seq<char>) -> Seq<char> {
    seq!['/'] + p
}

/// What a URL path must look like to name an individual post file:
/// `<prefix>/files/<positive integer that fits the order column>`. The
/// result is the prefix (empty for a request directly under the root) and
/// the requested display order.
pub open spec fn file_req(s: Seq<char>) -> Option<(Seq<char>, int)> {
    if !has_slash(s) {
        None
    } else {
        let j = last_slash_of(s);
        let digits = s.skip(j + 1);
        if !(all_digits(digits) && 1 <= digits_val(digits) <= i32::MAX) {
            None
        } else {
            let head = s.take(j);
            if !has_slash(head) {
                if head == "files"@ {
                    Some((Seq::empty(), digits_val(digits) as int))
                } else {
                    None
                }
            } else {
                let k = last_slash_of(head);
                if head.skip(k + 1) == "files"@ {
                    Some((head.take(k), digits_val(digits) as int))
                } else {
                    None
                }
            }
        }
    }
}

/// What a URL path must look like to name a thumbnail:
/// `<prefix>/thumbnail`. The result is the prefix.
pub open spec fn thumb_req(s: Seq<char>) -> Option<Seq<char>> {
    if !has_slash(s) {
        if s == "thumbnail"@ {
            Some(Seq::empty())
        } else {
            None
        }
    } else {
        let j = last_slash_of(s);
        if s.skip(j + 1) == "thumbnail"@ {
            Some(s.take(j))
        } else {
            None
        }
    }
}

/// The thumbnail sizes that are generated for every post, in pixels of
/// height.
pub open spec fn is_generated_height(h: int) -> bool {
    h == 100 || h == 200 || h == 300 || h == 400 || h == 1080
}

/// The height a thumbnail request asks for: the given one, or 200.
pub open spec fn thumb_height(height: Option<i32>) -> int {
    match height {
        Some(v) => v as int,
        None => 200,
    }
}

/// The post and display order that a URL path serves as a file, when the
/// path has the file shape, a post stands at the named path, and that post
/// has an image with the named order.
pub open spec fn file_target(s: StoreV, raw: Seq<char>) -> Option<(crate::models::PostV, int)> {
    match file_req(raw) {
        None => None,
        Some((p, v)) => match post_at_path(s.posts, abs_path(p)) {
            None => None,
            Some(post) => match image_at(s.images, post.id, v) {
                None => None,
                Some(im) => Some((post, v)),
            },
        },
    }
}

/// The post and height that a URL path serves as a thumbnail, when the path
/// has the thumbnail shape, a post stands at the named path, and the height
/// is one of the generated sizes.
pub open spec fn thumb_target(s: StoreV, raw: Seq<char>, height: Option<i32>) -> Option<
    (crate::models::PostV, int),
> {
    match thumb_req(raw) {
        None => None,
        Some(p) => match post_at_path(s.posts, abs_path(p)) {
            None => None,
            Some(post) => if is_generated_height(thumb_height(height)) {
                Some((post, thumb_height(height)))
            } else {
                None
            },
        },
    }
}

/// The file extension stored for a post file. One early post has a single
/// JPEG attachment; everything else is PNG.
pub open spec fn file_suffix_spec(slug: Seq<char>, order: int) -> Seq<char> {
    if slug == "a-bubble-blower-very-cool"@ && order == 2 {
        "jpg"@
    } else {
        "png"@
    }
}

/// The storage path of a post file, relative to the upload directory:
/// `<post id>/files/<order>.<extension>`.
pub open spec fn file_storage_rel(post_id: int, order: int, suffix: Seq<char>) -> Seq<char> {
    dec_digits(post_id as nat) + "/files/"@ + dec_digits(order as nat) + "."@ + suffix
}

/// The storage path of a thumbnail, relative to the upload directory:
/// `<post id>/thumbnails/<height>.png`.
pub open spec fn thumb_storage_rel(post_id: int, height: int) -> Seq<char> {
    dec_digits(post_id as nat) + "/thumbnails/"@ + dec_digits(height as nat) + ".png"@
}

/// The height a thumbnail request defaults to.
pub const DEFAULT_THUMBNAIL_HEIGHT: i32 = 200;

/// The fixed set of generated thumbnail heights.
pub fn thumbnail_heights() -> (r: Vec<i32>)
    ensures
        r@ == seq![100i32, 200i32, 300i32, 400i32, 1080i32],
        forall|k: int| 0 <= k < r@.len() ==> is_generated_height(#[trigger] r@[k] as int),
{
    let mut v: Vec<i32> = Vec::new();
    v.push(100);
    v.push(200);
    v.push(300);
    v.push(400);
    v.push(1080);
    proof {
        assert(v@ =~= seq![100i32, 200i32, 300i32, 400i32, 1080i32]);
    }
    v
}

/// Whether a height is one of the generated thumbnail sizes.
pub fn generated_height(h: i32) -> (r: bool)
    ensures
        r == is_generated_height(h as int),
{
    h == 100 || h == 200 || h == 300 || h == 400 || h == 1080
}

/// The stored file extension for a post file.
pub fn file_suffix(slug: &str, order: i32) -> (r: &'static str)
    ensures
        r@ == file_suffix_spec(slug@, order as int),
{
    if str_eq(slug, "a-bubble-blower-very-cool") && order == 2 {
        "jpg"
    } else {
        "png"
    }
}

/// Spell the storage path of a post file, relative to the upload directory.
pub fn file_storage_path(post_id: i32, order: i32, suffix: &str) -> (r: String)
    requires
        post_id >= 0,
        order >= 0,
    ensures
        r@ == file_storage_rel(post_id as int, order as int, suffix@),
{
    let mut out = String::new();
    push_decimal(&mut out, post_id as u32);
    out.append("/files/");
    push_decimal(&mut out, order as u32);
    out.append(".");
    out.append(suffix);
    proof {
        assert(out@ =~= file_storage_rel(post_id as int, order as int, suffix@));
    }
    out
}

/// Spell the storage path of a thumbnail, relative to the upload directory.
pub fn thumbnail_storage_path(post_id: i32, height: i32) -> (r: String)
    requires
        post_id >= 0,
        height >= 0,
    ensures
        r@ == thumb_storage_rel(post_id as int, height as int),
{
    let mut out = String::new();
    push_decimal(&mut out, post_id as u32);
    out.append("/thumbnails/");
    push_decimal(&mut out, height as u32);
    out.append(".png");
    proof {
        assert(out@ =~= thumb_storage_rel(post_id as int, height as int));
    }
    out
}

/// Parse a URL path for an individual post file.
///
/// A path `some/post/files/3` yields the full post path `/some/post` (note
/// the added leading slash) and the order 3.
pub fn parse_file_path(path: &str) -> (r: Option<(String, i32)>)
    ensures
        match file_req(path@) {
            Some((p, v)) => r is Some && r->Some_0.0@ == abs_path(p) && r->Some_0.1 == v,
            None => r is None,
        },
{
    let n: usize = path.unicode_len();
    let j = match last_slash(path) {
        None => {
            proof {
                assert(!has_slash(path@));
            }
            return None;
        },
        Some(j) => j,
    };
    proof {
        lemma_last_slash_unique(path@, j as int);
    }
    let digits = path.substring_char(j + 1, n);
    proof {
        assert(digits@ =~= path@.skip(j as int + 1));
    }
    let v = match parse_decimal(digits) {
        None => {
            return None;
        },
        Some(v) => v,
    };
    if v < 1 || v > i32::MAX as u32 {
        return None;
    }
    let head = path.substring_char(0, j);
    proof {
        assert(head@ =~= path@.take(j as int));
    }
    match last_slash(head) {
        None => {
            proof {
                assert(!has_slash(head@));
            }
            if str_eq(head, "files") {
                let mut out = String::new();
                push_char(&mut out, '/');
                proof {
                    assert(out@ =~= abs_path(Seq::<char>::empty()));
                }
                Some((out, v as i32))
            } else {
                None
            }
        },
        Some(k) => {
            proof {
                lemma_last_slash_unique(head@, k as int);
            }
            let hn: usize = head.unicode_len();
            let seg = head.substring_char(k + 1, hn);
            proof {
                assert(seg@ =~= head@.skip(k as int + 1));
            }
            if str_eq(seg, "files") {
                let prefix = head.substring_char(0, k);
                let mut out = String::new();
                push_char(&mut out, '/');
                out.append(prefix);
                proof {
                    assert(prefix@ =~= head@.take(k as int));
                    assert(out@ =~= abs_path(head@.take(k as int)));
                }
                Some((out, v as i32))
            } else {
                None
            }
        },
    }
}

/// Recognize a thumbnail request and return the full post path it names,
/// with its leading slash.
pub fn thumbnail_post_path(path: &str) -> (r: Option<String>)
    ensures
        match thumb_req(path@) {
            Some(p) => r is Some && r->Some_0@ == abs_path(p),
            None => r is None,
        },
{
    match last_slash(path) {
        None => {
            proof {
                assert(!has_slash(path@));
            }
            if str_eq(path, "thumbnail") {
                let mut out = String::new();
                push_char(&mut out, '/');
                proof {
                    assert(out@ =~= abs_path(Seq::<char>::empty()));
                }
                Some(out)
            } else {
                None
            }
        },
        Some(j) => {
            proof {
                lemma_last_slash_unique(path@, j as int);
            }
            let n: usize = path.unicode_len();
            let seg = path.substring_char(j + 1, n);
            proof {
                assert(seg@ =~= path@.skip(j as int + 1));
            }
            if str_eq(seg, "thumbnail") {
                let prefix = path.substring_char(0, j);
                let mut out = String::new();
                push_char(&mut out, '/');
                out.append(prefix);
                proof {
                    assert(prefix@ =~= path@.take(j as int));
                    assert(out@ =~= abs_path(path@.take(j as int)));
                }
                Some(out)
            } else {
                None
            }
        },
    }
}

/// The resource a URL path names.
pub enum Resolution {
    /// An individual post file, to be served from local storage.
    File { post_id: i32, order: i32, storage_path: String },
    /// A generated thumbnail, to be served from local storage.
    Thumbnail { post_id: i32, height: i32, storage_path: String },
    /// The page of the post with this id.
    PostPage { post_id: i32 },
    /// The listing of the directory with this id.
    DirectoryPage { directory_id: i32 },
    /// Nothing stands at this path.
    NotFound,
}

impl Store {
    /// Resolve a URL path, with its optional height parameter, to the
    /// resource it names, trying in fixed priority order: post file,
    /// thumbnail, post page, directory page.
    pub fn resolve(&self, path: &str, height: Option<i32>) -> (r: Resolution)
        requires
            wf_refs(self@),
        ensures
            match file_target(self@, path@) {
                Some((post, v)) => r matches Resolution::File { post_id, order, storage_path }
                    && post_id as int == post.id && order as int == v && storage_path@
                    == file_storage_rel(post.id, v, file_suffix_spec(post.slug, v)),
                None => match thumb_target(self@, path@, height) {
                    Some((post, h)) => r matches Resolution::Thumbnail {
                        post_id,
                        height: rh,
                        storage_path,
                    } && post_id as int == post.id && rh as int == h && storage_path@
                        == thumb_storage_rel(post.id, h),
                    None => match post_at_path(self@.posts, abs_path(path@)) {
                        Some(post) => r matches Resolution::PostPage { post_id } && post_id as int
                            == post.id,
                        None => match dir_at_path(self@.dirs, abs_path(path@)) {
                            Some(d) => r matches Resolution::DirectoryPage { directory_id }
                                && directory_id as int == d.id,
                            None => r is NotFound,
                        },
                    },
                },
            },
    {
        // 1. An individual post file; checked first.
        if let Some((ppath, num)) = parse_file_path(path) {
            if let Some(post) = self.post_by_path(ppath.as_str()) {
                if let Some(_image) = self.image_by(post.id, num) {
                    proof {
                        lemma_find_from(self@.posts, post_has_path(ppath@), 0);
                    }
                    let suffix = file_suffix(post.slug.as_str(), num);
                    let storage = file_storage_path(post.id, num, suffix);
                    return Resolution::File { post_id: post.id, order: num, storage_path: storage };
                }
            }
        }
        // 2. A thumbnail.
        if let Some(ppath) = thumbnail_post_path(path) {
            if let Some(post) = self.post_by_path(ppath.as_str()) {
                let h = match height {
                    Some(h) => h,
                    None => DEFAULT_THUMBNAIL_HEIGHT,
                };
                if generated_height(h) {
                    proof {
                        lemma_find_from(self@.posts, post_has_path(ppath@), 0);
                    }
                    let storage = thumbnail_storage_path(post.id, h);
                    return Resolution::Thumbnail {
                        post_id: post.id,
                        height: h,
                        storage_path: storage,
                    };
                }
            }
        }
        // 3. An exact post path.
        let mut full = String::new();
        push_char(&mut full, '/');
        full.append(path);
        proof {
            assert(full@ =~= abs_path(path@));
        }
        if let Some(post) = self.post_by_path(full.as_str()) {
            return Resolution::PostPage { post_id: post.id };
        }
        // 4. An exact directory path.
        if let Some(d) = self.directory_by_path(full.as_str()) {
            return Resolution::DirectoryPage { directory_id: d.id };
        }
        Resolution::NotFound
    }
}


/// The predicate "this character is a colon".
pub open spec fn is_colon() -> spec_fn(char) -> bool {
    |c: char| c == ':'
}

/// The predicate "this character is a commercial at".
pub open spec fn is_at() -> spec_fn(char) -> bool {
    |c: char| c == '@'
}

/// The predicate "this character is a closing bracket".
pub open spec fn is_rbracket() -> spec_fn(char) -> bool {
    |c: char| c == ']'
}

/// The predicate "this character ends the authority of a URL".
pub open spec fn is_auth_end() -> spec_fn(char) -> bool {
    |c: char| c == '/' || c == '?' || c == '#'
}

/// The host named by an absolute URL, as the Atom feed shows it: the
/// authority runs from after `://` to the first slash, question mark or
/// hash; a userinfo part up to the first at sign is dropped; a bracketed
/// address is kept whole, otherwise the host ends at the first colon. A URL
/// without `://` after its scheme, or with an empty host, names none.
pub open spec fn host_of_spec(u: Seq<char>) -> Option<Seq<char>> {
    match crate::store::find_from(u, is_colon(), 0) {
        None => None,
        Some(i) => if !(i + 3 <= u.len() && u[i + 1] == '/' && u[i + 2] == '/') {
            None
        } else {
            let a0 = i + 3;
            let a1 = match crate::store::find_from(u, is_auth_end(), a0) {
                Some(e) => e,
                None => u.len() as int,
            };
            let h0 = match crate::store::find_from(u, is_at(), a0) {
                Some(a) => if a < a1 {
                    a + 1
                } else {
                    a0
                },
                None => a0,
            };
            if h0 < a1 && u[h0] == '[' {
                let h1 = match crate::store::find_from(u, is_rbracket(), h0) {
                    Some(b) => if b < a1 {
                        b + 1
                    } else {
                        a1
                    },
                    None => a1,
                };
                Some(u.subrange(h0, h1))
            } else {
                let h1 = match crate::store::find_from(u, is_colon(), h0) {
                    Some(c) => if c < a1 {
                        c
                    } else {
                        a1
                    },
                    None => a1,
                };
                if h0 == h1 {
                    None
                } else {
                    Some(u.subrange(h0, h1))
                }
            }
        },
    }
}

/// Find the first colon at or after `from`.
fn find_colon_from(s: &str, from: usize) -> (r: Option<usize>)
    requires
        from <= s@.len(),
    ensures
        match r {
            Some(i) => crate::store::find_from(s@, is_colon(), from as int) == Some(i as int)
                && from <= i < s@.len(),
            None => crate::store::find_from(s@, is_colon(), from as int) is None,
        },
{
    let n: usize = s.unicode_len();
    let mut i: usize = from;
    while i < n
        invariant
            from <= i <= n,
            n == s@.len(),
            crate::store::find_from(s@, is_colon(), from as int) == crate::store::find_from(
                s@,
                is_colon(),
                i as int,
            ),
        decreases n - i,
    {
        if s.get_char(i) == ':' {
            return Some(i);
        }
        i = i + 1;
    }
    None
}

/// Find the first at sign at or after `from`.
fn find_at_from(s: &str, from: usize) -> (r: Option<usize>)
    requires
        from <= s@.len(),
    ensures
        match r {
            Some(i) => crate::store::find_from(s@, is_at(), from as int) == Some(i as int)
                && from <= i < s@.len(),
            None => crate::store::find_from(s@, is_at(), from as int) is None,
        },
{
    let n: usize = s.unicode_len();
    let mut i: usize = from;
    while i < n
        invariant
            from <= i <= n,
            n == s@.len(),
            crate::store::find_from(s@, is_at(), from as int) == crate::store::find_from(
                s@,
                is_at(),
                i as int,
            ),
        decreases n - i,
    {
        if s.get_char(i) == '@' {
            return Some(i);
        }
        i = i + 1;
    }
    None
}

/// Find the first closing bracket at or after `from`.
fn find_rbracket_from(s: &str, from: usize) -> (r: Option<usize>)
    requires
        from <= s@.len(),
    ensures
        match r {
            Some(i) => crate::store::find_from(s@, is_rbracket(), from as int) == Some(i as int)
                && from <= i < s@.len(),
            None => crate::store::find_from(s@, is_rbracket(), from as int) is None,
        },
{
    let n: usize = s.unicode_len();
    let mut i: usize = from;
    while i < n
        invariant
            from <= i <= n,
            n == s@.len(),
            crate::store::find_from(s@, is_rbracket(), from as int) == crate::store::find_from(
                s@,
                is_rbracket(),
                i as int,
            ),
        decreases n - i,
    {
        if s.get_char(i) == ']' {
            return Some(i);
        }
        i = i + 1;
    }
    None
}

/// Find the first character that ends a URL authority at or after `from`.
fn find_auth_end_from(s: &str, from: usize) -> (r: Option<usize>)
    requires
        from <= s@.len(),
    ensures
        match r {
            Some(i) => crate::store::find_from(s@, is_auth_end(), from as int) == Some(i as int)
                && from <= i < s@.len(),
            None => crate::store::find_from(s@, is_auth_end(), from as int) is None,
        },
{
    let n: usize = s.unicode_len();
    let mut i: usize = from;
    while i < n
        invariant
            from <= i <= n,
            n == s@.len(),
            crate::store::find_from(s@, is_auth_end(), from as int) == crate::store::find_from(
                s@,
                is_auth_end(),
                i as int,
            ),
        decreases n - i,
    {
        let c = s.get_char(i);
        if c == '/' || c == '?' || c == '#' {
            return Some(i);
        }
        i = i + 1;
    }
    None
}

/// The host named by a base URL, for the Atom feed.
pub fn host_of(base_url: &str) -> (r: Option<String>)
    ensures
        match host_of_spec(base_url@) {
            Some(h) => r is Some && r->Some_0@ == h,
            None => r is None,
        },
{
    let n: usize = base_url.unicode_len();
    let i = match find_colon_from(base_url, 0) {
        Some(i) => i,
        None => {
            return None;
        },
    };
    if n < 3 || i > n - 3 {
        proof {
            assert(!(i as int + 3 <= n as int));
        }
        return None;
    }
    if base_url.get_char(i + 1) != '/' || base_url.get_char(i + 2) != '/' {
        return None;
    }
    let a0: usize = i + 3;
    let a1: usize = match find_auth_end_from(base_url, a0) {
        Some(e) => e,
        None => n,
    };
    let h0: usize = match find_at_from(base_url, a0) {
        Some(a) => if a < a1 {
            a + 1
        } else {
            a0
        },
        None => a0,
    };
    if h0 < a1 && base_url.get_char(h0) == '[' {
        let h1: usize = match find_rbracket_from(base_url, h0) {
            Some(b) => if b < a1 {
                b + 1
            } else {
                a1
            },
            None => a1,
        };
        Some(String::from_str(base_url.substring_char(h0, h1)))
    } else {
        let h1: usize = match find_colon_from(base_url, h0) {
            Some(c) => if c < a1 {
                c
            } else {
                a1
            },
            None => a1,
        };
        if h0 == h1 {
            None
        } else {
            Some(String::from_str(base_url.substring_char(h0, h1)))
        }
    }
}

} // verus!
