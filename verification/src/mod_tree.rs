//! The tree of modules of a crate.

use vstd::prelude::*;

verus! {

/// A module: the crate's root module has no parent.
#[derive(Debug, Clone, Copy, PartialEq, Eq, Hash, Structural)]
pub struct ModuleId {
    pub parent: Option<usize>,
}

/// Where a module's source comes from.
#[derive(Debug, Clone, Copy, PartialEq, Eq, Structural)]
pub enum ModuleOrigin {
    /// The crate's root source file.
    File,
}

#[derive(Debug, Clone, Copy, PartialEq, Eq, Structural)]
pub struct ModuleData {
    pub origin: ModuleOrigin,
}

/// The modules of a crate: a crate is one file, its root module.
pub fn mod_tree() -> (tree: Vec<(ModuleId, ModuleData)>)
    ensures
        tree@ == seq![(ModuleId { parent: None }, ModuleData { origin: ModuleOrigin::File })],
{
    let mut tree = Vec::new();
    tree.push((ModuleId { parent: None }, ModuleData { origin: ModuleOrigin::File }));
    tree
}

} // verus!
