//! What the file system says of a path, and whether it may be shown.

use vstd::prelude::*;
use crate::paths::{is_within, within};

verus! {

/// What the file system says of a path.
#[derive(Debug, Clone, PartialEq, Eq)]
pub struct ResolvedTarget {
    /// Where the entry really lies: its absolute path with every link
    /// followed. Without meaning if nothing exists at the path.
    pub absolute_path: Vec<u8>,
    /// Whether anything exists at the path.
    pub exists: bool,
    /// Whether what exists there is a directory.
    pub is_directory: bool,
}

/// What a [`ResolvedTarget`] holds.
pub struct ResolvedTargetView {
    pub absolute_path: Seq<u8>,
    pub exists: bool,
    pub is_directory: bool,
}

impl View for ResolvedTarget {
    type V = ResolvedTargetView;

    open spec fn view(&self) -> ResolvedTargetView {
        ResolvedTargetView {
            absolute_path: self.absolute_path@,
            exists: self.exists,
            is_directory: self.is_directory,
        }
    }
}

/// Whether what was found may be shown: it exists, and where it really lies
/// is within the base directory.
pub open spec fn admitted(base: Seq<u8>, found: ResolvedTargetView) -> bool {
    found.exists && within(found.absolute_path, base)
}

/// Decides whether what was found may be shown.
pub fn admits(base: &[u8], found: &ResolvedTarget) -> (r: bool)
    ensures
        r == admitted(base@, found@),
{
    found.exists && is_within(found.absolute_path.as_slice(), base)
}

impl ResolvedTarget {
    /// What the file system says of a path at which nothing exists.
    pub fn missing() -> (found: ResolvedTarget)
        ensures
            !found@.exists,
            !found@.is_directory,
            found@.absolute_path == Seq::<u8>::empty(),
    {
        ResolvedTarget { absolute_path: Vec::new(), exists: false, is_directory: false }
    }

    /// What the file system says of a path at which something exists, and
    /// really lies at `absolute_path`.
    pub fn existing(absolute_path: Vec<u8>, is_directory: bool) -> (found: ResolvedTarget)
        ensures
            found@ == (ResolvedTargetView {
                absolute_path: absolute_path@,
                exists: true,
                is_directory,
            }),
    {
        ResolvedTarget { absolute_path, exists: true, is_directory }
    }
}

} // verus!
