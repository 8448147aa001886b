//! The two kinds of sidecar file a directory can hold: one describing the
//! directory itself and one describing the entries inside it.

use vstd::prelude::*;

verus! {

/// Which side a sidecar file describes.
#[derive(Debug, Clone, Copy, PartialEq, Eq, Hash)]
pub enum Target {
    /// The sidecar describing the directory it sits in.
    Parent,
    /// The sidecar describing the entries inside the directory.
    Siblings,
}

/// The canonical file stem of each target's sidecar.
pub open spec fn target_stem(t: Target) -> Seq<char> {
    match t {
        Target::Parent => "self"@,
        Target::Siblings => "item"@,
    }
}

impl Target {
    /// The default file stem of this target's sidecar file.
    pub fn default_file_name(&self) -> (r: &'static str)
        ensures
            r@ == target_stem(*self),
    {
        match self {
            Target::Parent => "self",
            Target::Siblings => "item",
        }
    }
}

} // verus!
