//! Path operations of `std::path`, on paths held as strings.
//!
//! Paths are passed around as `String`s. Where `std` hands back an `OsStr`,
//! it is turned into a `String` with `to_string_lossy`, the conversion the
//! toolkit uses wherever it shows a path component as text.
use vstd::prelude::*;
use std::path::Path;

verus! {

/// The final component of a path as `Path::file_name` gives it.
pub uninterp spec fn file_name_of(path: Seq<char>) -> Option<Seq<char>>;

/// The path that `Path::strip_prefix` leaves once `base` is removed from the
/// front of `path`, when `base` is a prefix of it component by component.
pub uninterp spec fn stripped_prefix(path: Seq<char>, base: Seq<char>) -> Option<Seq<char>>;

/// Whether `base` is a prefix of `path`, whole components at a time, as
/// `Path::starts_with` decides.
pub uninterp spec fn lies_under(path: Seq<char>, base: Seq<char>) -> bool;

/// The path that `Path::join` builds from `base` and `tail`.
pub uninterp spec fn joined(base: Seq<char>, tail: Seq<char>) -> Seq<char>;

/// The path without its final component, as `Path::parent` gives it.
pub uninterp spec fn parent_of(path: Seq<char>) -> Option<Seq<char>>;

/// Whether two paths are equal as `Path`s are compared: component by
/// component, so that `a//b` and `a/b/` both equal `a/b`.
pub uninterp spec fn same_path(a: Seq<char>, b: Seq<char>) -> bool;

/// The view of an optional string.
pub open spec fn opt_view(o: Option<String>) -> Option<Seq<char>> {
    match o {
        Some(s) => Some(s@),
        None => None,
    }
}

/// The last position of `'.'` within `name`, if any.
pub open spec fn last_dot(name: Seq<char>) -> Option<int>
    decreases name.len(),
{
    if name.len() == 0 {
        None
    } else if name.last() == '.' {
        Some(name.len() - 1)
    } else {
        last_dot(name.drop_last())
    }
}

/// The extension of a file name: what follows its last `'.'`, unless there
/// is no `'.'` or the only one starts the name.
pub open spec fn extension_of_name(name: Seq<char>) -> Option<Seq<char>> {
    match last_dot(name) {
        None => None,
        Some(k) => if k == 0 { None } else { Some(name.skip(k + 1)) },
    }
}

/// The extension of a path: that of its file name, when it has one.
pub open spec fn extension_of(path: Seq<char>) -> Option<Seq<char>> {
    match file_name_of(path) {
        None => None,
        Some(name) => extension_of_name(name),
    }
}

/// `Path::file_name`: the final component of `path`, or `None` when the path
/// ends in `..` or is a root or empty.
#[verifier::external_body]
pub fn path_file_name(path: &str) -> (name: Option<String>)
    ensures
        opt_view(name) == file_name_of(path@),
{
    match Path::new(path).file_name() {
        Some(n) => Some(n.to_string_lossy().into_owned()),
        None => None,
    }
}

/// `Path::extension`: as its documentation states, `None` when there is no
/// file name, when the file name holds no `'.'`, or when its only `'.'`
/// starts it; otherwise the part of the file name after the final `'.'`.
#[verifier::external_body]
pub fn path_extension(path: &str) -> (ext: Option<String>)
    ensures
        opt_view(ext) == extension_of(path@),
{
    match Path::new(path).extension() {
        Some(e) => Some(e.to_string_lossy().into_owned()),
        None => None,
    }
}

/// `PartialEq for Path`: whether `a` and `b` have the same components. As
/// `Path` is `Eq`, equal texts are equal paths, the comparison is
/// symmetric, and it is transitive: a path equal to `b` is equal to `a`
/// exactly when `b` is.
#[verifier::external_body]
pub fn paths_equal(a: &str, b: &str) -> (r: bool)
    ensures
        r == same_path(a@, b@),
        r == same_path(b@, a@),
        a@ == b@ ==> r,
        forall|c: Seq<char>| #[trigger] same_path(b@, c) ==> (r == same_path(a@, c)),
        forall|c: Seq<char>| #[trigger] same_path(c, a@) ==> (r == same_path(c, b@)),
{
    Path::new(a) == Path::new(b)
}

/// `Path::strip_prefix`: the rest of `path` after `base`, or `None` when
/// `base` is not a prefix of `path`.
#[verifier::external_body]
pub fn path_strip_prefix(path: &str, base: &str) -> (rest: Option<String>)
    ensures
        opt_view(rest) == stripped_prefix(path@, base@),
{
    match Path::new(path).strip_prefix(base) {
        Ok(r) => Some(r.to_string_lossy().into_owned()),
        Err(_) => None,
    }
}

/// `Path::starts_with`: whether `base` is a prefix of `path`, only whole
/// components matching.
#[verifier::external_body]
pub fn path_starts_with(path: &str, base: &str) -> (b: bool)
    ensures
        b == lies_under(path@, base@),
{
    Path::new(path).starts_with(base)
}

/// `Path::join`: `tail` appended to `base` as a further component (a `tail`
/// that is absolute replaces `base`).
#[verifier::external_body]
pub fn path_join(base: &str, tail: &str) -> (path: String)
    ensures
        path@ == joined(base@, tail@),
{
    Path::new(base).join(tail).to_string_lossy().into_owned()
}

/// `Path::parent`: `path` without its final component, or `None` when the
/// path is a root or empty.
#[verifier::external_body]
pub fn path_parent(path: &str) -> (parent: Option<String>)
    ensures
        opt_view(parent) == parent_of(path@),
{
    match Path::new(path).parent() {
        Some(p) => Some(p.to_string_lossy().into_owned()),
        None => None,
    }
}

} // verus!
