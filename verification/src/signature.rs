//! Resolving the signature of a definition against the store.

use crate::error::ResolutionError;
use crate::record::{lemma_records_view_push, records_view, Record, RecordView};
use crate::store::{
    element_ids, lookup, store_model, Definition, DefinitionStore, DefinitionView, SigElement,
    StoreModel,
};
use crate::sequence::{first_where, lemma_first_where_is};
use vstd::prelude::*;

verus! {

/// An id that a signature names, with the qualified name of its definition.
#[derive(Debug, PartialEq, Eq)]
pub struct ResolvedElement {
    pub id: u64,
    pub qualname: String,
}

/// A `ResolvedElement` as a contract sees it.
pub struct ResolvedElementView {
    pub id: u64,
    pub qualname: Seq<char>,
}

impl View for ResolvedElement {
    type V = ResolvedElementView;

    open spec fn view(&self) -> ResolvedElementView {
        ResolvedElementView { id: self.id, qualname: self.qualname@ }
    }
}

/// A signature with every id that it names resolved.
#[derive(Debug, PartialEq, Eq)]
pub struct ResolvedSignature {
    pub text: String,
    pub defs: Vec<ResolvedElement>,
    pub refs: Vec<ResolvedElement>,
}

/// A `ResolvedSignature` as a contract sees it.
pub struct ResolvedSignatureView {
    pub text: Seq<char>,
    pub defs: Seq<ResolvedElementView>,
    pub refs: Seq<ResolvedElementView>,
}

/// Resolved elements as a contract sees them.
pub open spec fn elements_view(elements: Seq<ResolvedElement>) -> Seq<ResolvedElementView> {
    elements.map_values(|e: ResolvedElement| e@)
}

impl View for ResolvedSignature {
    type V = ResolvedSignatureView;

    open spec fn view(&self) -> ResolvedSignatureView {
        ResolvedSignatureView {
            text: self.text@,
            defs: elements_view(self.defs@),
            refs: elements_view(self.refs@),
        }
    }
}

/// The position of the first of `ids` that the store does not resolve, or
/// their number where it resolves them all.
pub open spec fn first_dangling(m: StoreModel, ids: Seq<u64>) -> int {
    first_where(ids, |id: u64| !m.resolves(id))
}

/// Each of `ids` with the qualified name that the store has for it, in the
/// order of `ids`.
pub open spec fn with_qualnames(m: StoreModel, ids: Seq<u64>) -> Seq<ResolvedElementView> {
    ids.map_values(|id: u64| ResolvedElementView { id: id, qualname: m.defs[id].qualname })
}

/// The ids of a list resolved: all of them, or the first that dangles.
pub open spec fn resolved_ids(m: StoreModel, ids: Seq<u64>) -> Result<
    Seq<ResolvedElementView>,
    ResolutionError,
> {
    if first_dangling(m, ids) < ids.len() {
        Err(ResolutionError::DanglingSignatureReference { id: ids[first_dangling(m, ids)] })
    } else {
        Ok(with_qualnames(m, ids))
    }
}

/// The signature of a definition resolved.
///
/// Without a signature it is the definition's value, with nothing
/// introduced and nothing referred to. With one it is the signature's text,
/// and the ids that the signature introduces and then those that it refers
/// to, each with its qualified name; the first id that the store does not
/// resolve makes it an error.
pub open spec fn resolved_signature(m: StoreModel, def: DefinitionView) -> Result<
    ResolvedSignatureView,
    ResolutionError,
> {
    match def.signature {
        None => Ok(ResolvedSignatureView { text: def.value, defs: seq![], refs: seq![] }),
        Some(sig) => match resolved_ids(m, sig.defs) {
            Err(e) => Err(e),
            Ok(defs) => match resolved_ids(m, sig.refs) {
                Err(e) => Err(e),
                Ok(refs) => Ok(ResolvedSignatureView { text: sig.text, defs: defs, refs: refs }),
            },
        },
    }
}

/// What a resolution of ids is to a contract.
pub open spec fn elements_result_view(r: Result<Vec<ResolvedElement>, ResolutionError>) -> Result<
    Seq<ResolvedElementView>,
    ResolutionError,
> {
    match r {
        Ok(elements) => Ok(elements_view(elements@)),
        Err(e) => Err(e),
    }
}

/// What a resolution of a signature is to a contract.
pub open spec fn signature_result_view(r: Result<ResolvedSignature, ResolutionError>) -> Result<
    ResolvedSignatureView,
    ResolutionError,
> {
    match r {
        Ok(s) => Ok(s@),
        Err(e) => Err(e),
    }
}

/// Resolves the ids that a signature names, in their order.
pub fn resolve_elements(elements: &Vec<SigElement>, store: &DefinitionStore) -> (r: Result<
    Vec<ResolvedElement>,
    ResolutionError,
>)
    ensures
        elements_result_view(r) == resolved_ids(store_model(*store), element_ids(elements@)),
{
    let ghost m = store_model(*store);
    let ghost ids = element_ids(elements@);
    let ghost dangling = |id: u64| !m.resolves(id);
    let mut resolved: Vec<ResolvedElement> = Vec::new();
    let mut i: usize = 0;
    while i < elements.len()
        invariant
            0 <= i <= elements.len(),
            m == store_model(*store),
            ids == element_ids(elements@),
            dangling == |id: u64| !m.resolves(id),
            resolved.len() == i,
            forall|j: int| 0 <= j < i ==> !dangling(#[trigger] ids[j]),
            forall|j: int|
                0 <= j < i ==> (#[trigger] resolved[j])@ == with_qualnames(m, ids)[j],
        decreases elements.len() - i,
    {
        let id = elements[i].id;
        assert(ids[i as int] == id);
        match lookup(store, id) {
            Ok(def) => {
                resolved.push(ResolvedElement { id: id, qualname: def.qualname });
            },
            Err(_) => {
                proof {
                    lemma_first_where_is(ids, dangling, i as int);
                }
                return Err(ResolutionError::DanglingSignatureReference { id: id });
            },
        }
        i += 1;
    }
    proof {
        lemma_first_where_is(ids, dangling, ids.len() as int);
        assert(elements_view(resolved@) =~= with_qualnames(m, ids));
    }
    Ok(resolved)
}

/// Resolves the signature of a definition against the store.
pub fn resolve_signature(defin: &Definition, store: &DefinitionStore) -> (r: Result<
    ResolvedSignature,
    ResolutionError,
>)
    ensures
        signature_result_view(r) == resolved_signature(store_model(*store), defin@),
        defin.signature is None ==> r is Ok && r->Ok_0@ == (ResolvedSignatureView {
            text: defin.value@,
            defs: seq![],
            refs: seq![],
        }),
{
    match &defin.signature {
        None => {
            let resolved = ResolvedSignature {
                text: defin.value.clone(),
                defs: Vec::new(),
                refs: Vec::new(),
            };
            assert(resolved@.defs =~= seq![]);
            assert(resolved@.refs =~= seq![]);
            Ok(resolved)
        },
        Some(sig) => {
            let defs = match resolve_elements(&sig.defs, store) {
                Ok(defs) => defs,
                Err(e) => {
                    return Err(e);
                },
            };
            let refs = match resolve_elements(&sig.refs, store) {
                Ok(refs) => refs,
                Err(e) => {
                    return Err(e);
                },
            };
            Ok(ResolvedSignature { text: sig.text.clone(), defs: defs, refs: refs })
        },
    }
}

/// Records that are emitted, and the error that ended the emission, if one
/// did.
pub ghost struct Emission {
    pub records: Seq<RecordView>,
    pub failure: Option<ResolutionError>,
}

/// The result that a failure, or none, stands for.
pub open spec fn outcome(failure: Option<ResolutionError>) -> Result<(), ResolutionError> {
    match failure {
        None => Ok(()),
        Some(e) => Err(e),
    }
}

/// The records of the ids that a signature introduces.
pub open spec fn def_records(indent: u32, elements: Seq<ResolvedElementView>) -> Seq<RecordView> {
    elements.map_values(
        |e: ResolvedElementView|
            RecordView::SignatureDef { indent: indent, id: e.id, qualname: e.qualname },
    )
}

/// The records of the ids that a signature refers to.
pub open spec fn ref_records(indent: u32, elements: Seq<ResolvedElementView>) -> Seq<RecordView> {
    elements.map_values(
        |e: ResolvedElementView|
            RecordView::SignatureRef { indent: indent, id: e.id, qualname: e.qualname },
    )
}

/// The records of a resolved signature: its text, what it introduces, what
/// it refers to; for a definition without a signature, its value alone.
pub open spec fn signature_records(
    def: DefinitionView,
    indent: u32,
    resolved: ResolvedSignatureView,
) -> Seq<RecordView> {
    if def.signature is Some {
        seq![RecordView::SignatureText { indent: indent, text: resolved.text }] + def_records(
            indent,
            resolved.defs,
        ) + ref_records(indent, resolved.refs)
    } else {
        seq![RecordView::SignatureValue { indent: indent, value: resolved.text }]
    }
}

/// What the signature of a function or method emits: its qualified name,
/// then its resolved signature, or the error of resolving it.
pub open spec fn emitted_signature(m: StoreModel, def: DefinitionView, indent: u32) -> Emission {
    let head = seq![RecordView::Qualname { indent: indent, qualname: def.qualname }];
    match resolved_signature(m, def) {
        Ok(resolved) => Emission {
            records: head + signature_records(def, indent, resolved),
            failure: None,
        },
        Err(e) => Emission { records: head, failure: Some(e) },
    }
}

/// Appends the records of resolved ids, as introduced or as referred to.
fn push_elements(out: &mut Vec<Record>, indent: u32, elements: &Vec<ResolvedElement>, introduced: bool)
    ensures
        records_view(final(out)@) == records_view(old(out)@) + (if introduced {
            def_records(indent, elements_view(elements@))
        } else {
            ref_records(indent, elements_view(elements@))
        }),
{
    let ghost views = elements_view(elements@);
    let ghost all = if introduced {
        def_records(indent, views)
    } else {
        ref_records(indent, views)
    };
    let ghost before = records_view(out@);
    let mut i: usize = 0;
    assert(records_view(out@) =~= before + all.take(0));
    while i < elements.len()
        invariant
            0 <= i <= elements.len(),
            views == elements_view(elements@),
            all == if introduced {
                def_records(indent, views)
            } else {
                ref_records(indent, views)
            },
            records_view(out@) == before + all.take(i as int),
        decreases elements.len() - i,
    {
        let element = &elements[i];
        assert(views[i as int] == element@);
        let record = if introduced {
            Record::SignatureDef { indent: indent, id: element.id, qualname: element.qualname.clone() }
        } else {
            Record::SignatureRef { indent: indent, id: element.id, qualname: element.qualname.clone() }
        };
        proof {
            lemma_records_view_push(out@, record);
            assert(record@ == all[i as int]);
            assert(all.take(i as int + 1) =~= all.take(i as int).push(all[i as int]));
            assert((before + all.take(i as int)).push(record@) =~= before + all.take(i as int + 1));
        }
        out.push(record);
        i += 1;
    }
    assert(all.take(i as int) =~= all);
}

/// Emits the signature of a function or method: its qualified name, then
/// its resolved signature. Where an id of the signature does not resolve,
/// the qualified name alone is emitted and the error is returned.
pub fn emit_sig(analysis: &DefinitionStore, defin: &Definition, indent: u32, out: &mut Vec<Record>) -> (r:
    Result<(), ResolutionError>)
    ensures
        records_view(final(out)@) == records_view(old(out)@) + emitted_signature(
            store_model(*analysis),
            defin@,
            indent,
        ).records,
        r == outcome(emitted_signature(store_model(*analysis), defin@, indent).failure),
{
    let ghost before = records_view(out@);
    let qualname = Record::Qualname { indent: indent, qualname: defin.qualname.clone() };
    proof {
        lemma_records_view_push(out@, qualname);
    }
    out.push(qualname);
    let ghost head = seq![qualname@];
    assert(records_view(out@) =~= before + head);
    let resolved = match resolve_signature(defin, analysis) {
        Ok(resolved) => resolved,
        Err(e) => {
            return Err(e);
        },
    };
    if defin.signature.is_some() {
        let text = Record::SignatureText { indent: indent, text: resolved.text.clone() };
        proof {
            lemma_records_view_push(out@, text);
        }
        out.push(text);
        push_elements(out, indent, &resolved.defs, true);
        push_elements(out, indent, &resolved.refs, false);
        assert(records_view(out@) =~= before + (head + signature_records(
            defin@,
            indent,
            resolved@,
        )));
    } else {
        let value = Record::SignatureValue { indent: indent, value: resolved.text.clone() };
        proof {
            lemma_records_view_push(out@, value);
        }
        out.push(value);
        assert(records_view(out@) =~= before + (head + signature_records(
            defin@,
            indent,
            resolved@,
        )));
    }
    Ok(())
}

} // verus!
