//! The static-file route: which embedded asset a request path names, and the
//! content type it is served with.

use vstd::prelude::*;
use crate::text::{string_of, text_chars};

verus! {

/// `s` without its leading slashes (`str::trim_start_matches('/')`).
pub open spec fn strip_slashes(s: Seq<char>) -> Seq<char>
    decreases s.len(),
{
    if s.len() > 0 && s[0] == '/' {
        strip_slashes(s.drop_first())
    } else {
        s
    }
}

/// `index.html`.
pub open spec fn index_html() -> Seq<char> {
    seq!['i', 'n', 'd', 'e', 'x', '.', 'h', 't', 'm', 'l']
}

/// The asset that a request path names: the path without leading slashes,
/// `index.html` where nothing is left.
pub open spec fn asset_path(uri_path: Seq<char>) -> Seq<char> {
    let p = strip_slashes(uri_path);
    if p.len() == 0 {
        index_html()
    } else {
        p
    }
}

/// The asset that a request path names; looked up first as it is.
pub fn static_asset_path(uri_path: &str) -> (r: String)
    ensures
        r@ == asset_path(uri_path@),
{
    let t = text_chars(uri_path);
    let mut i: usize = 0;
    assert(t@.subrange(0, t@.len() as int) =~= t@);
    while i < t.len() && t[i] == '/'
        invariant
            i <= t.len(),
            strip_slashes(t@) == strip_slashes(t@.subrange(i as int, t@.len() as int)),
        decreases t.len() - i,
    {
        assert(t@.subrange(i as int, t@.len() as int).drop_first() =~= t@.subrange(
            i as int + 1,
            t@.len() as int,
        ));
        i = i + 1;
    }
    if i == t.len() {
        let s = String::from_str("index.html");
        proof {
            reveal_strlit("index.html");
        }
        assert(s@ =~= index_html());
        s
    } else {
        string_of(&t, i, t.len())
    }
}

/// The index page of a directory path: `path/index.html`; looked up where the
/// path itself names no asset.
pub fn directory_index_path(path: &str) -> (r: String)
    ensures
        r@ == path@ + seq!['/'] + index_html(),
{
    let mut s = String::from_str(path);
    s.append("/index.html");
    proof {
        reveal_strlit("/index.html");
    }
    assert(s@ =~= path@ + seq!['/'] + index_html());
    s
}

/// `path` names a file with extension `ext`: it ends in `.` and `ext`, and the
/// dot is not the first character of the last path component (so the file
/// name has a stem, as `Path::extension` requires).
pub open spec fn has_extension(path: Seq<char>, ext: Seq<char>) -> bool {
    let n = path.len() as int;
    let k = ext.len() as int;
    &&& n >= k + 2
    &&& path.subrange(n - k, n) == ext
    &&& path[n - k - 1] == '.'
    &&& path[n - k - 2] != '/'
}

/// The content types `mime_guess` registers first for the extensions the
/// front end ships: a path with one of them is served with that type.
pub open spec fn shipped_types_hold(path: Seq<char>, r: Seq<char>) -> bool {
    &&& has_extension(path, "html"@) ==> r == "text/html"@
    &&& has_extension(path, "js"@) ==> r == "text/javascript"@
    &&& has_extension(path, "css"@) ==> r == "text/css"@
    &&& has_extension(path, "json"@) ==> r == "application/json"@
    &&& has_extension(path, "png"@) ==> r == "image/png"@
    &&& has_extension(path, "svg"@) ==> r == "image/svg+xml"@
    &&& has_extension(path, "ico"@) ==> r == "image/x-icon"@
}

/// What `mime_guess` makes of a file path: the first MIME type registered for
/// its extension, or `application/octet-stream`.
pub uninterp spec fn guessed_content_type(path: Seq<char>) -> Seq<char>;

/// `mime_guess::from_path(path).first_or_octet_stream()`, as text. The
/// contract claims that the result is a function of the path's characters,
/// and, from the table in `mime_guess`'s `mime_types.rs`, the first type it
/// registers for `html`, `js`, `css`, `json`, `png`, `svg` and `ico`; the
/// rest of that table is not restated.
#[verifier::external_body]
fn guess_content_type(path: &str) -> (r: String)
    ensures
        r@ == guessed_content_type(path@),
        shipped_types_hold(path@, r@),
{
    mime_guess::from_path(path).first_or_octet_stream().to_string()
}

/// The content type a found asset is served with, guessed from its path.
pub fn static_content_type(asset_path: &str) -> (r: String)
    ensures
        r@ == guessed_content_type(asset_path@),
        shipped_types_hold(asset_path@, r@),
{
    guess_content_type(asset_path)
}

} // verus!
