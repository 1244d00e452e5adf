use vstd::prelude::*;

verus! {

/// The parent of a path, as path text: what Path::parent answers for it,
/// already brought back to a string. It depends on the path text alone.
pub uninterp spec fn parent_of(p: Seq<char>) -> Option<Seq<char>>;

/// Relies on std::path::Path::parent (Path::new and Path::to_str only
/// convert): the parent is computed from the path text alone.
#[verifier::external_body]
fn path_parent<'a>(p: &'a str) -> (r: Option<&'a str>)
    ensures
        match r {
            Some(q) => parent_of(p@) == Some(q@),
            None => parent_of(p@) is None,
        },
{
    std::path::Path::new(p).parent().and_then(|q| q.to_str())
}

/// Relies on std::path::Path::is_dir (Path::new only converts): the answer
/// depends on the filesystem, so nothing is promised of it.
#[verifier::external_body]
fn path_is_dir(p: &str) -> bool {
    std::path::Path::new(p).is_dir()
}

/// Relies on std::path::Path::is_file (Path::new only converts): the answer
/// depends on the filesystem, so nothing is promised of it.
#[verifier::external_body]
fn path_is_file(p: &str) -> bool {
    std::path::Path::new(p).is_file()
}

/// The decision behind `dir_or_parent`, for given answers of the filesystem:
/// a directory stands for itself, a file for its parent, anything else for
/// nothing.
pub fn dir_or_parent_from<'a>(path: &'a str, is_dir: bool, is_file: bool) -> (r: Option<&'a str>)
    ensures
        is_dir ==> r == Some(path),
        !is_dir && is_file ==> match r {
            Some(q) => parent_of(path@) == Some(q@),
            None => parent_of(path@) is None,
        },
        !is_dir && !is_file ==> r is None,
{
    if is_dir {
        Some(path)
    } else if is_file {
        path_parent(path)
    } else {
        None
    }
}

/// The directory a path points into: the path itself when it names a
/// directory on disk, its parent when it names a file, and nothing when it
/// names neither.
pub fn dir_or_parent<'a>(path: &'a str) -> (r: Option<&'a str>)
    ensures
        r matches Some(q) ==> q@ == path@ || parent_of(path@) == Some(q@),
{
    let is_dir = path_is_dir(path);
    let is_file = path_is_file(path);
    dir_or_parent_from(path, is_dir, is_file)
}

} // verus!
