//! Bounded directory traversal.
//!
//! [`walk_dir`] walks the tree under a root path and reports one
//! [`RawEntry`] per readable entry: its file name, the path of the
//! directory that holds it, its depth below the root, and whether it is
//! itself a directory.  Everything that is computed from the traversal is
//! verified elsewhere against an arbitrary sequence of such records; the
//! walk itself only promises that it respects the depth bound.

use vstd::prelude::*;

verus! {

/// One entry met during a traversal, before any interpretation: the final
/// component of its path, its parent directory, its depth below the root
/// (the root itself has depth 0), and whether it is a directory.
#[derive(Debug)]
pub struct RawEntry {
    pub file_name: String,
    pub parent: String,
    pub depth: usize,
    pub is_dir: bool,
}

/// Whether every record of a traversal lies at depth at most `max_depth`.
pub open spec fn records_bounded(records: Seq<RawEntry>, max_depth: int) -> bool {
    forall|i: int| 0 <= i < records.len() ==> (#[trigger] records[i]).depth <= max_depth
}

/// Relies on `walkdir::WalkDir`: a walk built with `max_depth(d)` yields
/// only entries at depth at most `d`, the root itself being depth 0.
/// Entries the walk cannot read, whose metadata cannot be read, or whose
/// paths are not valid UTF-8 are skipped.  What the walk yields depends on
/// the directory tree on disk, so nothing more is promised of the result.
#[verifier::external_body]
pub(crate) fn walk_dir(root: &str, max_depth: usize) -> (r: Vec<RawEntry>)
    ensures
        records_bounded(r@, max_depth as int),
{
    let mut out = Vec::new();
    for e in walkdir::WalkDir::new(root).max_depth(max_depth).into_iter().flatten() {
        let par = match e.path().parent() { Some(p) => p.to_str(), None => None };
        let (Ok(md), Some(name), Some(par)) = (e.metadata(), e.file_name().to_str(), par) else { continue };
        out.push(RawEntry { file_name: name.to_string(), parent: par.to_string(), depth: e.depth(), is_dir: md.is_dir() });
    }
    out
}

} // verus!
