//! Error taxonomy for tree construction and lookups.

use vstd::prelude::*;

verus! {

/// One per-entry failure class met while building a tree. Each variant
/// carries the path of the entry it concerns.
///
/// `IsSymlinkErr` is a policy exclusion, not a true failure: symbolic links
/// are never added to the tree. `DuplicateNameErr` reports a second entry
/// with a name already present among its siblings; the first entry is kept.
#[derive(Debug)]
pub enum BuildErr {
    PermissionErr(String),
    NotFoundErr(String),
    InvalidPathErr(String),
    IsSymlinkErr(String),
    DuplicateNameErr(String),
    IoErr(String),
}

/// A per-entry error recorded during a partial build; the build goes on with
/// the remaining siblings.
pub type BuildWarning = BuildErr;

impl BuildErr {
    /// The path the error concerns.
    pub fn path(&self) -> (r: &String)
        ensures
            r@ == self.path_spec(),
    {
        match self {
            BuildErr::PermissionErr(p) => p,
            BuildErr::NotFoundErr(p) => p,
            BuildErr::InvalidPathErr(p) => p,
            BuildErr::IsSymlinkErr(p) => p,
            BuildErr::DuplicateNameErr(p) => p,
            BuildErr::IoErr(p) => p,
        }
    }

    pub open spec fn path_spec(self) -> Seq<char> {
        match self {
            BuildErr::PermissionErr(p) => p@,
            BuildErr::NotFoundErr(p) => p@,
            BuildErr::InvalidPathErr(p) => p@,
            BuildErr::IsSymlinkErr(p) => p@,
            BuildErr::DuplicateNameErr(p) => p@,
            BuildErr::IoErr(p) => p@,
        }
    }
}

} // verus!
