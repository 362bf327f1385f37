//! The errors of the library.

use vstd::prelude::*;

verus! {

/// Why no target, definition or signature could be resolved.
#[derive(Debug, PartialEq, Eq, Structural, Clone, Copy)]
pub enum ResolutionError {
    /// The target at `index` of the package's list does not report exactly
    /// one kind.
    AmbiguousTargetKind { index: usize },
    /// No target of the package is a library or a binary.
    NoSupportedTarget,
    /// The build tool's output is no JSON document.
    InvalidMetadata,
    /// The store could not list its root definitions.
    StoreFailure,
    /// The store does not resolve `id`, a root or a definition whose children
    /// were asked for.
    LookupFailure { id: u64 },
    /// A signature names `id`, which the store does not resolve.
    DanglingSignatureReference { id: u64 },
    /// The store reached `id` a second time: its children do not form a tree.
    Revisited { id: u64 },
    /// The children of `id` lie deeper than the indentation can count.
    TooDeep { id: u64 },
}

} // verus!
