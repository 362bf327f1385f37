//! Build targets of a package, and the choice of the one to analyse.

use crate::error::ResolutionError;
use crate::sequence::{first_where, lemma_first_where_is};
use crate::text::{replace_char, same_text, substituted};
use vstd::prelude::*;

verus! {

/// The kind of a build target.
#[derive(Debug, PartialEq, Eq, Structural, Clone, Copy)]
pub enum TargetKind {
    /// A `bin` target.
    Binary,
    /// A `lib` target.
    Library,
}

/// A build target of the package.
#[derive(Debug, PartialEq, Eq)]
pub struct Target {
    /// The kind of the target.
    pub kind: TargetKind,
    /// The name of the target, as the package declares it. The crate that the
    /// compiler builds from it is named by [`Target::crate_name`].
    pub name: String,
}

/// A `Target` as a contract sees it.
pub struct TargetView {
    pub kind: TargetKind,
    pub name: Seq<char>,
}

impl View for Target {
    type V = TargetView;

    open spec fn view(&self) -> TargetView {
        TargetView { kind: self.kind, name: self.name@ }
    }
}

impl Target {
    /// The name of the target's crate: the target's name with every dash
    /// replaced by an underscore.
    pub fn crate_name(&self) -> (r: String)
        ensures
            r@ == substituted(self.name@, '-', '_'),
    {
        proof {
            reveal_strlit("_");
        }
        replace_char(self.name.as_str(), '-', "_")
    }
}

/// A target as the package metadata declares it: a name and the kinds that
/// it reports.
#[derive(Debug, PartialEq, Eq)]
pub struct DeclaredTarget {
    pub name: String,
    pub kinds: Vec<String>,
}

/// A `DeclaredTarget` as a contract sees it.
pub struct DeclaredTargetView {
    pub name: Seq<char>,
    pub kinds: Seq<Seq<char>>,
}

impl View for DeclaredTarget {
    type V = DeclaredTargetView;

    open spec fn view(&self) -> DeclaredTargetView {
        DeclaredTargetView { name: self.name@, kinds: self.kinds@.map_values(|k: String| k@) }
    }
}

/// The declared targets of a list, each as a contract sees it.
pub open spec fn declared(decls: Seq<DeclaredTarget>) -> Seq<DeclaredTargetView> {
    decls.map_values(|d: DeclaredTarget| d@)
}

/// A declared target is ambiguous when it reports no kind or several.
pub open spec fn is_ambiguous(d: DeclaredTargetView) -> bool {
    d.kinds.len() != 1
}

/// A declared target whose one kind is `lib`.
pub open spec fn is_library(d: DeclaredTargetView) -> bool {
    d.kinds.len() == 1 && d.kinds[0] == "lib"@
}

/// A declared target whose one kind is `bin`.
pub open spec fn is_binary(d: DeclaredTargetView) -> bool {
    d.kinds.len() == 1 && d.kinds[0] == "bin"@
}

/// The target that a package's declared targets resolve to.
///
/// One ambiguous target makes the whole list an error, the first such target
/// being reported. Otherwise targets that are neither a library nor a binary
/// do not count. Of the rest the first library is taken, and the first binary
/// where there is no library.
pub open spec fn resolved(decls: Seq<DeclaredTargetView>) -> Result<TargetView, ResolutionError> {
    let a = first_where(decls, |d: DeclaredTargetView| is_ambiguous(d));
    let l = first_where(decls, |d: DeclaredTargetView| is_library(d));
    let b = first_where(decls, |d: DeclaredTargetView| is_binary(d));
    if a < decls.len() {
        Err(ResolutionError::AmbiguousTargetKind { index: a as usize })
    } else if l < decls.len() {
        Ok(TargetView { kind: TargetKind::Library, name: decls[l].name })
    } else if b < decls.len() {
        Ok(TargetView { kind: TargetKind::Binary, name: decls[b].name })
    } else {
        Err(ResolutionError::NoSupportedTarget)
    }
}

/// What a result of `resolve_target` is to a contract.
pub open spec fn target_result_view(r: Result<Target, ResolutionError>) -> Result<
    TargetView,
    ResolutionError,
> {
    match r {
        Ok(t) => Ok(t@),
        Err(e) => Err(e),
    }
}

/// Picks the one target to analyse among those that a package declares.
pub fn resolve_target(decls: &Vec<DeclaredTarget>) -> (r: Result<Target, ResolutionError>)
    ensures
        target_result_view(r) == resolved(declared(decls@)),
{
    let ghost views = declared(decls@);
    let ghost amb = |d: DeclaredTargetView| is_ambiguous(d);
    let ghost lib = |d: DeclaredTargetView| is_library(d);
    let ghost bin = |d: DeclaredTargetView| is_binary(d);
    let mut first_lib: Option<usize> = None;
    let mut first_bin: Option<usize> = None;
    let mut i: usize = 0;
    while i < decls.len()
        invariant
            0 <= i <= decls.len(),
            views == declared(decls@),
            views.len() == decls.len(),
            amb == |d: DeclaredTargetView| is_ambiguous(d),
            lib == |d: DeclaredTargetView| is_library(d),
            bin == |d: DeclaredTargetView| is_binary(d),
            forall|j: int| 0 <= j < i ==> !amb(#[trigger] views[j]),
            match first_lib {
                Some(l) => l < i && lib(views[l as int]) && forall|j: int|
                    0 <= j < l ==> !lib(#[trigger] views[j]),
                None => forall|j: int| 0 <= j < i ==> !lib(#[trigger] views[j]),
            },
            match first_bin {
                Some(b) => b < i && bin(views[b as int]) && forall|j: int|
                    0 <= j < b ==> !bin(#[trigger] views[j]),
                None => forall|j: int| 0 <= j < i ==> !bin(#[trigger] views[j]),
            },
        decreases decls.len() - i,
    {
        let d = &decls[i];
        assert(views[i as int] == d@);
        assert(d@.kinds.len() == d.kinds.len());
        if d.kinds.len() != 1 {
            proof {
                lemma_first_where_is(views, amb, i as int);
            }
            return Err(ResolutionError::AmbiguousTargetKind { index: i });
        }
        assert(d@.kinds[0] == d.kinds[0]@);
        let kind = d.kinds[0].as_str();
        proof {
            reveal_strlit("lib");
            reveal_strlit("bin");
            assert("lib"@[0] != "bin"@[0]);
        }
        if same_text(kind, "lib") {
            if first_lib.is_none() {
                first_lib = Some(i);
            }
        } else if same_text(kind, "bin") {
            if first_bin.is_none() {
                first_bin = Some(i);
            }
        }
        i += 1;
    }
    proof {
        lemma_first_where_is(views, amb, views.len() as int);
    }
    match first_lib {
        Some(l) => {
            proof {
                lemma_first_where_is(views, lib, l as int);
            }
            assert(views[l as int] == decls[l as int]@);
            Ok(Target { kind: TargetKind::Library, name: decls[l].name.clone() })
        },
        None => {
            proof {
                lemma_first_where_is(views, lib, views.len() as int);
            }
            match first_bin {
                Some(b) => {
                    proof {
                        lemma_first_where_is(views, bin, b as int);
                    }
                    assert(views[b as int] == decls[b as int]@);
                    Ok(Target { kind: TargetKind::Binary, name: decls[b].name.clone() })
                },
                None => {
                    proof {
                        lemma_first_where_is(views, bin, views.len() as int);
                    }
                    Err(ResolutionError::NoSupportedTarget)
                },
            }
        },
    }
}

/// A declared target that is a library or a binary.
pub open spec fn is_supported(d: DeclaredTargetView) -> bool {
    is_library(d) || is_binary(d)
}

/// Whether more than one of the declared targets is a library or a binary,
/// so that resolving them is a choice.
pub open spec fn several_supported(decls: Seq<DeclaredTargetView>) -> bool {
    exists|i: int, j: int|
        0 <= i < j < decls.len() && is_supported(#[trigger] decls[i]) && is_supported(
            #[trigger] decls[j],
        )
}

/// Whether `resolve_target` has to choose among several targets.
pub fn chosen_among_several(decls: &Vec<DeclaredTarget>) -> (r: bool)
    ensures
        r == several_supported(declared(decls@)),
{
    let ghost views = declared(decls@);
    let mut found: Option<usize> = None;
    let mut i: usize = 0;
    while i < decls.len()
        invariant
            0 <= i <= decls.len(),
            views == declared(decls@),
            views.len() == decls.len(),
            match found {
                Some(w) => w < i && is_supported(views[w as int]) && forall|j: int|
                    0 <= j < i && j != w ==> !is_supported(#[trigger] views[j]),
                None => forall|j: int| 0 <= j < i ==> !is_supported(#[trigger] views[j]),
            },
        decreases decls.len() - i,
    {
        let d = &decls[i];
        assert(views[i as int] == d@);
        assert(d@.kinds.len() == d.kinds.len());
        if d.kinds.len() == 1 {
            assert(d@.kinds[0] == d.kinds[0]@);
            let kind = d.kinds[0].as_str();
            if same_text(kind, "lib") || same_text(kind, "bin") {
                match found {
                    Some(w) => {
                        assert(is_supported(views[w as int]) && is_supported(views[i as int]));
                        return true;
                    },
                    None => {
                        found = Some(i);
                    },
                }
            }
        }
        i += 1;
    }
    assert(!several_supported(views)) by {
        if several_supported(views) {
            let (a, b) = choose|a: int, b: int|
                0 <= a < b < views.len() && is_supported(#[trigger] views[a]) && is_supported(
                    #[trigger] views[b],
                );
            assert(is_supported(views[a]) && is_supported(views[b]));
        }
    }
    false
}

} // verus!
