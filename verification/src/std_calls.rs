//! Calls into std that vstd gives no specification, each behind a wrapper
//! whose contract restates what std documents.

use vstd::prelude::*;

verus! {

/// `String::push`: appends `c` to the end of `s`.
#[verifier::external_body]
pub(crate) fn push_char(s: &mut String, c: char)
    ensures
        final(s)@ == old(s)@.push(c),
{
    s.push(c);
}

/// The view of an optional string.
pub open spec fn opt_view(r: Option<String>) -> Option<Seq<char>> {
    match r {
        Some(s) => Some(s@),
        None => None,
    }
}

/// What `Path::file_name` gives for the path `p`: its final component, or
/// nothing when the path ends in `..` or has no final component.
pub uninterp spec fn path_file_name(p: Seq<char>) -> Option<Seq<char>>;

/// The extension of a file name, as `Path::extension` documents it: none
/// without a `.`, none when the only `.` starts the name, else what follows
/// the last `.`.
pub open spec fn name_extension(n: Seq<char>) -> Option<Seq<char>> {
    if !n.contains('.') {
        None
    } else {
        let k = last_dot(n);
        if k == 0 {
            None
        } else {
            Some(n.skip(k + 1))
        }
    }
}

/// The position of the last `.` in `n` (meaningful when there is one).
pub open spec fn last_dot(n: Seq<char>) -> int {
    choose|k: int| 0 <= k < n.len() && n[k] == '.' && forall|j: int| k < j < n.len() ==> n[j] != '.'
}

/// What `Path::extension` gives for the path `p`: the extension of its file
/// name, if it has one.
pub open spec fn path_extension(p: Seq<char>) -> Option<Seq<char>> {
    match path_file_name(p) {
        Some(n) => name_extension(n),
        None => None,
    }
}

/// The components that `Path::components` parses the path `p` into, each as
/// text. Std compares paths (`Path ==`) by these components.
pub uninterp spec fn path_components(p: Seq<char>) -> Seq<Seq<char>>;

/// What `Path::parent` gives for the path `p`.
pub uninterp spec fn path_parent(p: Seq<char>) -> Option<Seq<char>>;

/// What `Path::strip_prefix` gives for the path `p` and the base `base`: the
/// rest of `p` when `base` is a prefix of it component by component.
pub uninterp spec fn path_strip_prefix(p: Seq<char>, base: Seq<char>) -> Option<Seq<char>>;

/// What `Path::join` gives for the path `base` and the path `tail`.
pub uninterp spec fn path_join(base: Seq<char>, tail: Seq<char>) -> Seq<char>;

/// `Path::file_name` of the path `p`, as text (`p` is UTF-8, so is the name).
#[verifier::external_body]
pub(crate) fn file_name(p: &str) -> (r: Option<String>)
    ensures
        opt_view(r) == path_file_name(p@),
{
    std::path::Path::new(p).file_name().map(|n| n.to_string_lossy().into_owned())
}

/// `Path::components` of the path `p`, each component as text.
#[verifier::external_body]
pub(crate) fn components(p: &str) -> (r: Vec<String>)
    ensures
        r@.len() == path_components(p@).len(),
        forall|k: int| 0 <= k < r@.len() ==> #[trigger] r@[k]@ == path_components(p@)[k],
{
    std::path::Path::new(p).components().map(|c| c.as_os_str().to_string_lossy().into_owned()).collect()
}

/// `Path::extension` of the path `p`, as text.
#[verifier::external_body]
pub(crate) fn extension(p: &str) -> (r: Option<String>)
    ensures
        opt_view(r) == path_extension(p@),
{
    std::path::Path::new(p).extension().map(|e| e.to_string_lossy().into_owned())
}

/// `Path::parent` of the path `p`, as text.
#[verifier::external_body]
pub(crate) fn parent(p: &str) -> (r: Option<String>)
    ensures
        opt_view(r) == path_parent(p@),
{
    std::path::Path::new(p).parent().map(|q| q.to_string_lossy().into_owned())
}

/// `Path::strip_prefix` of the path `p` by `base`, as text; `None` for its error.
#[verifier::external_body]
pub(crate) fn strip_prefix(p: &str, base: &str) -> (r: Option<String>)
    ensures
        opt_view(r) == path_strip_prefix(p@, base@),
{
    std::path::Path::new(p).strip_prefix(base).ok().map(|q| q.to_string_lossy().into_owned())
}

/// `Path::join` of the path `base` with `tail`, as text.
#[verifier::external_body]
pub(crate) fn join(base: &str, tail: &str) -> (r: String)
    ensures
        r@ == path_join(base@, tail@),
{
    std::path::Path::new(base).join(tail).to_string_lossy().into_owned()
}

} // verus!
