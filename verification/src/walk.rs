//! The walk over the definitions of a store: each definition before its
//! children, siblings in visiting order.

use crate::error::ResolutionError;
use crate::order::{
    ids_of, in_visiting_order, key_listing, key_order, keys_of, lemma_key_listing_unique,
    lemma_listing_unique, lemma_rearranged, listed_first, listing, sort_listed, visiting_order,
};
use crate::record::{lemma_records_view_push, records_view, Record, RecordView};
use crate::signature::{emit_sig, emitted_signature, outcome, Emission};
use crate::store::{
    child_ids, list_children, list_roots, lookup, names_of, store_model, Child, Definition,
    DefinitionStore, DefinitionView, Root, StoreModel,
};
use std::collections::HashSet;
use vstd::multiset::Multiset;
use vstd::prelude::*;

verus! {

/// The step by which the indentation grows from a definition to its
/// children.
pub const INDENT_STEP: u32 = 2;

/// What a walk has emitted and which ids it has visited.
pub struct Trace {
    pub records: Vec<Record>,
    pub seen: HashSet<u64>,
}

impl Trace {
    /// A trace with nothing emitted and nothing visited.
    pub fn new() -> (t: Trace)
        ensures
            t.records@ == Seq::<Record>::empty(),
            t.seen@ == Set::<u64>::empty(),
    {
        Trace { records: Vec::new(), seen: HashSet::new() }
    }
}

/// A walk: the records that it emits, the ids that are visited when it
/// ends, and the error that ended it, if one did.
pub ghost struct Walk {
    pub records: Seq<RecordView>,
    pub seen: Set<u64>,
    pub failure: Option<ResolutionError>,
}

/// The kinds of definition whose signature is emitted.
pub open spec fn has_signature(kind: rls_data::DefKind) -> bool {
    kind == rls_data::DefKind::Function || kind == rls_data::DefKind::Method
}

/// The walk of the definition `id` and of what lies below it, begun with the
/// ids of `seen` visited.
///
/// A definition that was visited before ends the walk. Otherwise the
/// definition is emitted, then its signature if it is a function or a
/// method, then its children in visiting order, each with what lies below
/// it, two columns further in. The first error ends the walk.
pub open spec fn walk_node(
    m: StoreModel,
    id: u64,
    def: DefinitionView,
    indent: u32,
    seen: Set<u64>,
) -> Walk
    decreases u32::MAX - indent, 0nat,
{
    if seen.contains(id) {
        Walk { records: seq![], seen: seen, failure: Some(ResolutionError::Revisited { id: id }) }
    } else {
        let seen = seen.insert(id);
        let node = seq![
            RecordView::Node { indent: indent, id: id, kind: def.kind, name: def.name },
        ];
        let sig = if has_signature(def.kind) {
            emitted_signature(m, def, indent)
        } else {
            Emission { records: seq![], failure: None }
        };
        let head = node + sig.records;
        if sig.failure is Some {
            Walk { records: head, seen: seen, failure: sig.failure }
        } else if indent > u32::MAX - INDENT_STEP {
            Walk { records: head, seen: seen, failure: Some(ResolutionError::TooDeep { id: id }) }
        } else if !m.available {
            Walk {
                records: head,
                seen: seen,
                failure: Some(ResolutionError::LookupFailure { id: id }),
            }
        } else {
            let kids = m.children_of(id);
            let below = walk_children(
                m,
                kids,
                listing(names_of(kids)),
                (indent + INDENT_STEP) as u32,
                seen,
            );
            Walk { records: head + below.records, seen: below.seen, failure: below.failure }
        }
    }
}

/// The walks of the siblings `order`, one after the other, each with the
/// definition that `kids` has for it.
pub open spec fn walk_children(
    m: StoreModel,
    kids: Map<u64, DefinitionView>,
    order: Seq<u64>,
    indent: u32,
    seen: Set<u64>,
) -> Walk
    decreases u32::MAX - indent, 1 + order.len(),
{
    if order.len() == 0 {
        Walk { records: seq![], seen: seen, failure: None }
    } else {
        let first = walk_node(m, order[0], kids[order[0]], indent, seen);
        if first.failure is Some {
            first
        } else {
            let rest = walk_children(m, kids, order.drop_first(), indent, first.seen);
            Walk {
                records: first.records + rest.records,
                seen: rest.seen,
                failure: rest.failure,
            }
        }
    }
}

/// Whether a trace went from `before` to `after`, with the result `r`, as
/// the walk `w` says.
pub open spec fn follows(before: Trace, after: Trace, r: Result<(), ResolutionError>, w: Walk) -> bool {
    &&& records_view(after.records@) == records_view(before.records@) + w.records
    &&& after.seen@ == w.seen
    &&& r == outcome(w.failure)
}

/// Children that were listed in any order and then sorted are the listing
/// of the children, each with its definition.
proof fn lemma_sorted_children(
    listed: Seq<Child>,
    sorted: Seq<Child>,
    kids: Map<u64, DefinitionView>,
)
    requires
        child_ids(listed).no_duplicates(),
        child_ids(listed).to_set() == kids.dom(),
        forall|i: int| 0 <= i < listed.len() ==> (#[trigger] listed[i]).def@ == kids[listed[i].id],
        sorted.to_multiset() == listed.to_multiset(),
        ids_of(sorted).to_multiset() == ids_of(listed).to_multiset(),
        in_visiting_order(sorted),
    ensures
        child_ids(sorted) == listing(names_of(kids)),
        forall|k: int| 0 <= k < sorted.len() ==> (#[trigger] sorted[k]).def@ == kids[sorted[k].id],
{
    broadcast use vstd::seq_lib::group_to_multiset_ensures;

    let names = names_of(kids);
    assert(ids_of(sorted) =~= child_ids(sorted));
    assert(ids_of(listed) =~= child_ids(listed));
    lemma_rearranged(child_ids(listed), child_ids(sorted));
    assert forall|k: int| 0 <= k < sorted.len() implies (#[trigger] sorted[k]).def@
        == kids[sorted[k].id] by {
        assert(sorted.contains(sorted[k]));
        assert(listed.to_multiset().count(sorted[k]) > 0);
        assert(listed.contains(sorted[k]));
        let i = choose|i: int| 0 <= i < listed.len() && listed[i] == sorted[k];
        assert(listed[i].def@ == kids[listed[i].id]);
    }
    assert(names.dom() =~= kids.dom());
    assert forall|i: int, j: int| 0 <= i < j < sorted.len() implies #[trigger] visiting_order(
        names,
    )(child_ids(sorted)[i], child_ids(sorted)[j]) by {
        assert(listed_first(sorted[i], sorted[j]));
        assert(child_ids(sorted).to_set().contains(child_ids(sorted)[i]));
        assert(child_ids(sorted).to_set().contains(child_ids(sorted)[j]));
    }
    lemma_listing_unique(names, child_ids(sorted));
}

/// Roots that were sorted are the listing of the roots.
proof fn lemma_sorted_roots(sorted: Seq<Root>, roots: Multiset<(u64, Seq<char>)>)
    requires
        keys_of(sorted).to_multiset() == roots,
        in_visiting_order(sorted),
    ensures
        keys_of(sorted) == key_listing(roots),
{
    assert forall|i: int, j: int| 0 <= i < j < sorted.len() implies #[trigger] key_order()(
        keys_of(sorted)[i],
        keys_of(sorted)[j],
    ) by {
        assert(listed_first(sorted[i], sorted[j]));
    }
    lemma_key_listing_unique(roots, keys_of(sorted));
}

/// Walks the definition `id` and what lies below it, appending what is
/// emitted to the trace.
#[verifier::loop_isolation(false)]
pub fn traverse(
    id: u64,
    defin: &Definition,
    analysis: &DefinitionStore,
    indent: u32,
    trace: &mut Trace,
) -> (r: Result<(), ResolutionError>)
    ensures
        follows(
            *old(trace),
            *final(trace),
            r,
            walk_node(store_model(*analysis), id, defin@, indent, old(trace).seen@),
        ),
    decreases u32::MAX - indent,
{
    broadcast use vstd::std_specs::hash::group_hash_axioms;

    let ghost m = store_model(*analysis);
    let ghost before = records_view(trace.records@);
    let ghost seen_before = trace.seen@;
    if !trace.seen.insert(id) {
        assert(trace.seen@ =~= seen_before);
        assert(records_view(trace.records@) =~= before + Seq::<RecordView>::empty());
        return Err(ResolutionError::Revisited { id: id });
    }
    let node = Record::Node { indent: indent, id: id, kind: defin.kind, name: defin.name.clone() };
    proof {
        lemma_records_view_push(trace.records@, node);
    }
    trace.records.push(node);
    let ghost sig = if has_signature(defin@.kind) {
        emitted_signature(m, defin@, indent)
    } else {
        Emission { records: seq![], failure: None }
    };
    let ghost head = seq![node@] + sig.records;
    let callable = match defin.kind {
        rls_data::DefKind::Function | rls_data::DefKind::Method => true,
        _ => false,
    };
    if callable {
        let emitted = emit_sig(analysis, defin, indent, &mut trace.records);
        assert(records_view(trace.records@) =~= before + head);
        match emitted {
            Ok(()) => {},
            Err(e) => {
                return Err(e);
            },
        }
    }
    assert(records_view(trace.records@) =~= before + head);
    if indent > u32::MAX - INDENT_STEP {
        return Err(ResolutionError::TooDeep { id: id });
    }
    let children = match list_children(analysis, id) {
        Ok(children) => children,
        Err(_) => {
            return Err(ResolutionError::LookupFailure { id: id });
        },
    };
    let ghost kids = m.children_of(id);
    let ghost listed = children@;
    let sorted = sort_listed(children);
    proof {
        lemma_sorted_children(listed, sorted@, kids);
    }
    let ghost order = child_ids(sorted@);
    let ghost below = walk_children(m, kids, order, (indent + INDENT_STEP) as u32, seen_before.insert(id));
    let mut k: usize = 0;
    assert(order.skip(0) =~= order);
    assert(before + head + Seq::<RecordView>::empty() =~= before + head);
    while k < sorted.len()
        invariant
            0 <= k <= sorted.len(),
            indent <= u32::MAX - INDENT_STEP,
            m == store_model(*analysis),
            order == child_ids(sorted@),
            forall|j: int|
                0 <= j < sorted.len() ==> (#[trigger] sorted[j]).def@ == kids[sorted[j].id],
            ({
                let rest = walk_children(
                    m,
                    kids,
                    order.skip(k as int),
                    (indent + INDENT_STEP) as u32,
                    trace.seen@,
                );
                &&& records_view(trace.records@) + rest.records == before + head + below.records
                &&& rest.seen == below.seen
                &&& rest.failure == below.failure
            }),
        decreases sorted.len() - k,
    {
        let child = &sorted[k];
        let ghost seen_now = trace.seen@;
        let ghost records_now = records_view(trace.records@);
        let ghost remaining = order.skip(k as int);
        let ghost first = walk_node(
            m,
            child.id,
            child.def@,
            (indent + INDENT_STEP) as u32,
            seen_now,
        );
        proof {
            assert(remaining[0] == child.id);
            assert(remaining.drop_first() =~= order.skip(k as int + 1));
            assert(sorted[k as int].def@ == kids[sorted[k as int].id]);
            assert(first.failure is Some ==> walk_children(
                m,
                kids,
                remaining,
                (indent + INDENT_STEP) as u32,
                seen_now,
            ) == first);
        }
        let walked = traverse(child.id, &child.def, analysis, indent + INDENT_STEP, trace);
        match walked {
            Ok(()) => {},
            Err(e) => {
                assert(records_view(trace.records@) =~= before + head + below.records);
                assert(before + head + below.records =~= before + (head + below.records));
                return Err(e);
            },
        }
        proof {
            let rest = walk_children(
                m,
                kids,
                order.skip(k as int + 1),
                (indent + INDENT_STEP) as u32,
                trace.seen@,
            );
            assert(records_now + first.records + rest.records =~= records_now + (first.records
                + rest.records));
        }
        k += 1;
    }
    assert(order.skip(k as int) =~= Seq::<u64>::empty());
    assert(records_view(trace.records@) =~= before + (head + below.records));
    Ok(())
}

/// The walks of the roots `order`, one after the other: each root is
/// resolved and announced, then walked from the left margin.
pub open spec fn walk_roots(m: StoreModel, order: Seq<(u64, Seq<char>)>, seen: Set<u64>) -> Walk
    decreases order.len(),
{
    if order.len() == 0 {
        Walk { records: seq![], seen: seen, failure: None }
    } else if !m.resolves(order[0].0) {
        Walk {
            records: seq![],
            seen: seen,
            failure: Some(ResolutionError::LookupFailure { id: order[0].0 }),
        }
    } else {
        let id = order[0].0;
        let def = m.defs[id];
        let root = seq![
            RecordView::Root { id: id, kind: def.kind, name: def.name, crate_name: order[0].1 },
        ];
        let first = walk_node(m, id, def, 0, seen);
        if first.failure is Some {
            Walk { records: root + first.records, seen: first.seen, failure: first.failure }
        } else {
            let rest = walk_roots(m, order.drop_first(), first.seen);
            Walk {
                records: root + first.records + rest.records,
                seen: rest.seen,
                failure: rest.failure,
            }
        }
    }
}

/// The walk of a whole store: of its roots in visiting order, by the names
/// of their crates.
pub open spec fn walk_store(m: StoreModel, seen: Set<u64>) -> Walk {
    if m.available {
        walk_roots(m, key_listing(m.roots), seen)
    } else {
        Walk { records: seq![], seen: seen, failure: Some(ResolutionError::StoreFailure) }
    }
}

/// Walks every definition of the store, root by root, appending what is
/// emitted to the trace.
#[verifier::loop_isolation(false)]
pub fn walk(analysis: &DefinitionStore, trace: &mut Trace) -> (r: Result<(), ResolutionError>)
    ensures
        follows(
            *old(trace),
            *final(trace),
            r,
            walk_store(store_model(*analysis), old(trace).seen@),
        ),
{
    let ghost m = store_model(*analysis);
    let ghost before = records_view(trace.records@);
    assert(before + Seq::<RecordView>::empty() =~= before);
    let roots = match list_roots(analysis) {
        Ok(roots) => roots,
        Err(_) => {
            return Err(ResolutionError::StoreFailure);
        },
    };
    let sorted = sort_listed(roots);
    proof {
        lemma_sorted_roots(sorted@, m.roots);
    }
    let ghost order = keys_of(sorted@);
    let ghost whole = walk_roots(m, order, trace.seen@);
    let mut k: usize = 0;
    assert(order.skip(0) =~= order);
    while k < sorted.len()
        invariant
            0 <= k <= sorted.len(),
            ({
                let rest = walk_roots(m, order.skip(k as int), trace.seen@);
                &&& records_view(trace.records@) + rest.records == before + whole.records
                &&& rest.seen == whole.seen
                &&& rest.failure == whole.failure
            }),
        decreases sorted.len() - k,
    {
        let root = &sorted[k];
        let ghost records_now = records_view(trace.records@);
        let ghost remaining = order.skip(k as int);
        proof {
            assert(remaining[0] == (root.id, root.crate_name@));
            assert(remaining.drop_first() =~= order.skip(k as int + 1));
        }
        let def = match lookup(analysis, root.id) {
            Ok(def) => def,
            Err(_) => {
                assert(records_now + Seq::<RecordView>::empty() =~= records_now);
                return Err(ResolutionError::LookupFailure { id: root.id });
            },
        };
        let announced = Record::Root {
            id: root.id,
            kind: def.kind,
            name: def.name.clone(),
            crate_name: root.crate_name.clone(),
        };
        proof {
            lemma_records_view_push(trace.records@, announced);
        }
        trace.records.push(announced);
        let ghost first = walk_node(m, root.id, def@, 0, trace.seen@);
        let walked = traverse(root.id, &def, analysis, 0, trace);
        proof {
            assert(records_view(trace.records@) =~= records_now + (seq![announced@]
                + first.records));
            let rest = walk_roots(m, order.skip(k as int + 1), trace.seen@);
            assert(records_now + (seq![announced@] + first.records) + rest.records
                =~= records_now + (seq![announced@] + first.records + rest.records));
        }
        match walked {
            Ok(()) => {},
            Err(e) => {
                return Err(e);
            },
        }
        k += 1;
    }
    assert(order.skip(k as int) =~= Seq::<(u64, Seq<char>)>::empty());
    assert(records_view(trace.records@) + Seq::<RecordView>::empty() =~= records_view(
        trace.records@,
    ));
    Ok(())
}

} // verus!
