//! The definition store: the analysis database of `rls_analysis`, read
//! through a mathematical model of what it holds.

use crate::order::{keys_of, Listed};
use vstd::multiset::Multiset;
use vstd::prelude::*;

verus! {

/// `rls_data::DefKind`, the kinds of definition, with its variants.
#[verifier::external_type_specification]
pub struct ExDefKind(rls_data::DefKind);

/// `rls_analysis::AError`, of which nothing is read.
#[verifier::external_type_specification]
#[verifier::external_body]
pub struct ExAError(rls_analysis::AError);

/// An analysis database: an `rls_analysis::AnalysisHost`, which is generic
/// over its loader and so is held here rather than declared. What it holds
/// is `store_model`. Whoever owns the host loads it before the store is
/// handed to this library, and does not reload it while the library reads.
#[verifier::external_body]
pub struct DefinitionStore {
    pub host: rls_analysis::AnalysisHost,
}

/// One id that a signature introduces or refers to.
#[derive(Debug, Clone, Copy, PartialEq, Eq, Structural)]
pub struct SigElement {
    pub id: u64,
}

/// The signature of a definition: its text, the ids that it introduces and
/// the ids that it refers to.
#[derive(Debug, PartialEq, Eq)]
pub struct Signature {
    pub text: String,
    pub defs: Vec<SigElement>,
    pub refs: Vec<SigElement>,
}

/// A `Signature` as a contract sees it.
pub struct SignatureView {
    pub text: Seq<char>,
    pub defs: Seq<u64>,
    pub refs: Seq<u64>,
}

/// The ids of a list of signature elements.
pub open spec fn element_ids(elements: Seq<SigElement>) -> Seq<u64> {
    elements.map_values(|e: SigElement| e.id)
}

impl View for Signature {
    type V = SignatureView;

    open spec fn view(&self) -> SignatureView {
        SignatureView {
            text: self.text@,
            defs: element_ids(self.defs@),
            refs: element_ids(self.refs@),
        }
    }
}

/// A definition of the analysed project.
#[derive(Debug, PartialEq, Eq)]
pub struct Definition {
    pub kind: rls_data::DefKind,
    /// The unqualified name.
    pub name: String,
    /// The fully qualified path.
    pub qualname: String,
    /// A textual form that every definition has.
    pub value: String,
    pub signature: Option<Signature>,
}

/// A `Definition` as a contract sees it.
pub struct DefinitionView {
    pub kind: rls_data::DefKind,
    pub name: Seq<char>,
    pub qualname: Seq<char>,
    pub value: Seq<char>,
    pub signature: Option<SignatureView>,
}

impl View for Definition {
    type V = DefinitionView;

    open spec fn view(&self) -> DefinitionView {
        DefinitionView {
            kind: self.kind,
            name: self.name@,
            qualname: self.qualname@,
            value: self.value@,
            signature: match self.signature {
                Some(s) => Some(s@),
                None => None,
            },
        }
    }
}

/// A root definition as the store lists it: its id and the name of its
/// crate.
#[derive(Debug, PartialEq, Eq)]
pub struct Root {
    pub id: u64,
    pub crate_name: String,
}

/// A child as the store lists it: its id and its definition.
#[derive(Debug, PartialEq, Eq)]
pub struct Child {
    pub id: u64,
    pub def: Definition,
}

impl Listed for Root {
    open spec fn listed_id(&self) -> u64 {
        self.id
    }

    open spec fn listed_name(&self) -> Seq<char> {
        self.crate_name@
    }

    fn id(&self) -> (r: u64) {
        self.id
    }

    fn name(&self) -> (r: &str) {
        self.crate_name.as_str()
    }
}

impl Listed for Child {
    open spec fn listed_id(&self) -> u64 {
        self.id
    }

    open spec fn listed_name(&self) -> Seq<char> {
        self.def.name@
    }

    fn id(&self) -> (r: u64) {
        self.id
    }

    fn name(&self) -> (r: &str) {
        self.def.name.as_str()
    }
}

/// What a store holds.
pub ghost struct StoreModel {
    /// Whether the store answers at all: a store that was never loaded, or
    /// whose lock is poisoned, fails every query.
    pub available: bool,
    /// The root definitions: the id of each with the name of its crate.
    pub roots: Multiset<(u64, Seq<char>)>,
    /// The definitions that the store resolves.
    pub defs: Map<u64, DefinitionView>,
    /// The children that the store lists for an id, each with its
    /// definition.
    pub children: Map<u64, Map<u64, DefinitionView>>,
}

impl StoreModel {
    /// The children of `id`; none for an id that the store lists no
    /// children for.
    pub open spec fn children_of(self, id: u64) -> Map<u64, DefinitionView> {
        if self.children.contains_key(id) {
            self.children[id]
        } else {
            Map::empty()
        }
    }

    /// Whether the store resolves `id`.
    pub open spec fn resolves(self, id: u64) -> bool {
        self.available && self.defs.contains_key(id)
    }
}

/// What a store holds while it is not reloaded.
pub uninterp spec fn store_model(store: DefinitionStore) -> StoreModel;

/// The ids of listed children.
pub open spec fn child_ids(children: Seq<Child>) -> Seq<u64> {
    children.map_values(|c: Child| c.id)
}

/// The name of each of some definitions.
pub open spec fn names_of(defs: Map<u64, DefinitionView>) -> Map<u64, Seq<char>> {
    Map::new(|id: u64| defs.contains_key(id), |id: u64| defs[id].name)
}

/// `AnalysisHost::def_roots`: for each crate that has a root module, the id
/// of that module and the crate's name, in no stated order. It fails only
/// where the store answers nothing. An id prints as the number that it
/// holds, and the number is read back from that text.
#[verifier::external_body]
pub(crate) fn list_roots(store: &DefinitionStore) -> (r: Result<Vec<Root>, rls_analysis::AError>)
    ensures
        r is Ok <==> store_model(*store).available,
        r matches Ok(roots) ==> keys_of(roots@).to_multiset() == store_model(*store).roots,
{
    let listed = store.host.def_roots()?;
    let root = |(id, name): (rls_analysis::Id, String)| Root {
        id: id.to_string().parse().unwrap(),
        crate_name: name,
    };
    Ok(listed.into_iter().map(root).collect())
}

/// `AnalysisHost::get_def`: the definition of `id`, or an error where the
/// store answers nothing or holds no such definition. This version of the
/// store keeps no signatures.
#[verifier::external_body]
pub(crate) fn lookup(store: &DefinitionStore, id: u64) -> (r: Result<
    Definition,
    rls_analysis::AError,
>)
    ensures
        r is Ok <==> store_model(*store).resolves(id),
        r matches Ok(def) ==> def@ == store_model(*store).defs[id],
{
    let def = store.host.get_def(rls_analysis::Id::new(id))?;
    let (name, qualname, value) = (def.name, def.qualname, def.value);
    Ok(Definition { kind: def.kind, name, qualname, value, signature: None })
}

/// `AnalysisHost::for_each_child_def`: the children that the store lists
/// for `id`, each once and with its definition, in no stated order. It
/// fails only where the store answers nothing. An id prints as the number
/// that it holds, and the number is read back from that text.
#[verifier::external_body]
pub(crate) fn list_children(store: &DefinitionStore, id: u64) -> (r: Result<
    Vec<Child>,
    rls_analysis::AError,
>)
    ensures
        r is Ok <==> store_model(*store).available,
        r matches Ok(children) ==> {
            &&& child_ids(children@).no_duplicates()
            &&& child_ids(children@).to_set() == store_model(*store).children_of(id).dom()
            &&& forall|i: int|
                0 <= i < children.len() ==> (#[trigger] children[i]).def@ == store_model(
                    *store,
                ).children_of(id)[children[i].id]
        },
{
    let child = |child: rls_analysis::Id, def: &rls_analysis::Def| {
        let (name, qualname, value) = (def.name.clone(), def.qualname.clone(), def.value.clone());
        Child {
            id: child.to_string().parse().unwrap(),
            def: Definition { kind: def.kind, name, qualname, value, signature: None },
        }
    };
    store.host.for_each_child_def(rls_analysis::Id::new(id), child)
}

} // verus!
