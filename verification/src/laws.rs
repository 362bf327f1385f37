//! What holds of every walk: two walks of one store agree, siblings are
//! visited by name, no definition is visited twice, a walk that ends without
//! an error has visited everything below its start, and an id that a
//! signature names in vain ends the walk at once.

use crate::error::ResolutionError;
use crate::order::{key_listing, lemma_key_listing_sorted, lemma_listing_sorted, listing};
use crate::record::{records_view, RecordView};
use crate::signature::{emitted_signature, first_dangling, resolved_ids, resolved_signature};
use crate::store::{names_of, DefinitionView, StoreModel};
use crate::sequence::{lemma_first_where, lemma_first_where_is};
use crate::text::name_le;
use crate::walk::{
    follows, has_signature, walk_children, walk_node, walk_roots, walk_store, Trace, Walk,
    INDENT_STEP,
};
use vstd::prelude::*;
use vstd::seq_lib::lemma_no_dup_in_concat;

verus! {

/// Two walks of one store agree: begun with the same records emitted and
/// the same ids visited, they end with the same records, the same ids and
/// the same result. What the store holds decides all three; the order in
/// which it hands out roots and children decides nothing.
pub proof fn lemma_walks_agree(
    m: StoreModel,
    first_before: Trace,
    first_after: Trace,
    first_result: Result<(), ResolutionError>,
    second_before: Trace,
    second_after: Trace,
    second_result: Result<(), ResolutionError>,
)
    requires
        follows(first_before, first_after, first_result, walk_store(m, first_before.seen@)),
        follows(second_before, second_after, second_result, walk_store(m, second_before.seen@)),
        records_view(first_before.records@) == records_view(second_before.records@),
        first_before.seen@ == second_before.seen@,
    ensures
        records_view(first_after.records@) == records_view(second_after.records@),
        first_after.seen@ == second_after.seen@,
        first_result == second_result,
{
}

/// The ids of the definitions that records visit, in the order of the
/// records.
pub open spec fn node_ids(records: Seq<RecordView>) -> Seq<u64>
    decreases records.len(),
{
    if records.len() == 0 {
        seq![]
    } else {
        node_ids(records.drop_last()) + (match records.last() {
            RecordView::Node { id, .. } => seq![id],
            _ => seq![],
        })
    }
}

/// The ids that records visit, one run of records after another.
pub proof fn lemma_node_ids_concat(a: Seq<RecordView>, b: Seq<RecordView>)
    ensures
        node_ids(a + b) == node_ids(a) + node_ids(b),
    decreases b.len(),
{
    if b.len() == 0 {
        assert(a + b =~= a);
        assert(node_ids(a) + node_ids(b) =~= node_ids(a));
    } else {
        lemma_node_ids_concat(a, b.drop_last());
        assert((a + b).drop_last() =~= a + b.drop_last());
        let last = match b.last() {
            RecordView::Node { id, .. } => seq![id],
            _ => Seq::<u64>::empty(),
        };
        assert(node_ids(a) + node_ids(b.drop_last()) + last =~= node_ids(a) + (node_ids(
            b.drop_last(),
        ) + last));
    }
}

/// Records of which none visits a definition visit no id.
pub proof fn lemma_node_ids_none(records: Seq<RecordView>)
    requires
        forall|i: int| 0 <= i < records.len() ==> !(#[trigger] records[i] is Node),
    ensures
        node_ids(records) == Seq::<u64>::empty(),
    decreases records.len(),
{
    if records.len() != 0 {
        lemma_node_ids_none(records.drop_last());
        assert(node_ids(records) =~= Seq::<u64>::empty());
    }
}

/// The records of a signature visit no definition.
pub proof fn lemma_signature_visits_nothing(m: StoreModel, def: DefinitionView, indent: u32)
    ensures
        node_ids(emitted_signature(m, def, indent).records) == Seq::<u64>::empty(),
{
    lemma_node_ids_none(emitted_signature(m, def, indent).records);
}

/// What one of two sequences holds, the two put together hold, and nothing
/// else.
pub proof fn lemma_concat_contains<A>(a: Seq<A>, b: Seq<A>, x: A)
    ensures
        (a + b).contains(x) <==> (a.contains(x) || b.contains(x)),
{
    if (a + b).contains(x) {
        let i = choose|i: int| 0 <= i < (a + b).len() && (a + b)[i] == x;
        if i < a.len() {
            assert(a[i] == x);
        } else {
            assert(b[i - a.len()] == x);
        }
    }
    if a.contains(x) {
        let i = choose|i: int| 0 <= i < a.len() && a[i] == x;
        assert((a + b)[i] == x);
    }
    if b.contains(x) {
        let j = choose|j: int| 0 <= j < b.len() && b[j] == x;
        assert((a + b)[a.len() + j] == x);
    }
}

/// The ids that a walk begun with `seen` has newly visited when it ends
/// with `after`.
pub open spec fn newly_seen(seen: Set<u64>, after: Set<u64>) -> Set<u64> {
    after.difference(seen)
}

/// A walk visits no definition twice: the ids that its records visit are
/// exactly those that it has newly seen, each once, and none that was seen
/// before.
pub open spec fn visits_once(seen: Set<u64>, w: Walk) -> bool {
    &&& seen.subset_of(w.seen)
    &&& node_ids(w.records).no_duplicates()
    &&& node_ids(w.records).to_set() == newly_seen(seen, w.seen)
}

/// The walk of a definition visits no definition twice.
pub proof fn lemma_walk_visits_once(
    m: StoreModel,
    id: u64,
    def: DefinitionView,
    indent: u32,
    seen: Set<u64>,
)
    ensures
        visits_once(seen, walk_node(m, id, def, indent, seen)),
    decreases u32::MAX - indent, 0nat,
{
    let w = walk_node(m, id, def, indent, seen);
    if seen.contains(id) {
        assert(node_ids(w.records).to_set() =~= newly_seen(seen, w.seen));
    } else {
        let seen1 = seen.insert(id);
        let node = seq![
            RecordView::Node { indent: indent, id: id, kind: def.kind, name: def.name },
        ];
        assert(node.drop_last() =~= Seq::<RecordView>::empty());
        assert(node_ids(Seq::<RecordView>::empty()) =~= Seq::<u64>::empty());
        assert(node_ids(node) =~= seq![id]);
        let sig_records = if has_signature(def.kind) {
            emitted_signature(m, def, indent).records
        } else {
            Seq::<RecordView>::empty()
        };
        if has_signature(def.kind) {
            lemma_signature_visits_nothing(m, def, indent);
        }
        let head = node + sig_records;
        lemma_node_ids_concat(node, sig_records);
        assert(node_ids(head) =~= seq![id]);
        if w.records == head && w.seen == seen1 {
            assert(node_ids(w.records).to_set() =~= newly_seen(seen, w.seen)) by {
                assert forall|x: u64|
                    node_ids(w.records).to_set().contains(x) <==> newly_seen(
                        seen,
                        w.seen,
                    ).contains(x) by {
                    assert(node_ids(head)[0] == id);
                }
            }
        } else {
            let kids = m.children_of(id);
            let below = walk_children(
                m,
                kids,
                listing(names_of(kids)),
                (indent + INDENT_STEP) as u32,
                seen1,
            );
            lemma_children_visit_once(
                m,
                kids,
                listing(names_of(kids)),
                (indent + INDENT_STEP) as u32,
                seen1,
            );
            lemma_node_ids_concat(head, below.records);
            assert(!node_ids(below.records).contains(id)) by {
                assert(node_ids(below.records).contains(id) <==> node_ids(
                    below.records,
                ).to_set().contains(id));
            }
            lemma_no_dup_in_concat(node_ids(head), node_ids(below.records));
            assert(node_ids(w.records).to_set() =~= newly_seen(seen, w.seen)) by {
                assert forall|x: u64|
                    node_ids(w.records).to_set().contains(x) <==> newly_seen(
                        seen,
                        w.seen,
                    ).contains(x) by {
                    lemma_concat_contains(node_ids(head), node_ids(below.records), x);
                    assert(node_ids(below.records).contains(x) <==> node_ids(
                        below.records,
                    ).to_set().contains(x));
                    assert(node_ids(head).contains(x) <==> x == id) by {
                        assert(node_ids(head)[0] == id);
                    }
                }
            }
        }
    }
}

/// The walks of siblings visit no definition twice.
pub proof fn lemma_children_visit_once(
    m: StoreModel,
    kids: Map<u64, DefinitionView>,
    order: Seq<u64>,
    indent: u32,
    seen: Set<u64>,
)
    ensures
        visits_once(seen, walk_children(m, kids, order, indent, seen)),
    decreases u32::MAX - indent, 1 + order.len(),
{
    let w = walk_children(m, kids, order, indent, seen);
    if order.len() == 0 {
        assert(node_ids(w.records).to_set() =~= newly_seen(seen, w.seen));
    } else {
        let first = walk_node(m, order[0], kids[order[0]], indent, seen);
        lemma_walk_visits_once(m, order[0], kids[order[0]], indent, seen);
        if first.failure is None {
            let rest = walk_children(m, kids, order.drop_first(), indent, first.seen);
            lemma_children_visit_once(m, kids, order.drop_first(), indent, first.seen);
            lemma_join_visits(seen, first, rest);
        }
    }
}

/// Two walks, the second begun where the first ended, visit no definition
/// twice between them.
pub proof fn lemma_join_visits(seen: Set<u64>, first: Walk, rest: Walk)
    requires
        visits_once(seen, first),
        visits_once(first.seen, rest),
    ensures
        visits_once(
            seen,
            Walk { records: first.records + rest.records, seen: rest.seen, failure: rest.failure },
        ),
{
    let a = node_ids(first.records);
    let b = node_ids(rest.records);
    lemma_node_ids_concat(first.records, rest.records);
    assert forall|i: int, j: int| 0 <= i < a.len() && 0 <= j < b.len() implies a[i] != b[j] by {
        assert(a.to_set().contains(a[i]));
        assert(b.to_set().contains(b[j]));
    }
    lemma_no_dup_in_concat(a, b);
    assert((a + b).to_set() =~= newly_seen(seen, rest.seen)) by {
        assert forall|x: u64| (a + b).to_set().contains(x) <==> newly_seen(
            seen,
            rest.seen,
        ).contains(x) by {
            lemma_concat_contains(a, b, x);
            assert(a.contains(x) <==> a.to_set().contains(x));
            assert(b.contains(x) <==> b.to_set().contains(x));
        }
    }
}

/// The walks of roots visit no definition twice.
pub proof fn lemma_roots_visit_once(m: StoreModel, order: Seq<(u64, Seq<char>)>, seen: Set<u64>)
    ensures
        visits_once(seen, walk_roots(m, order, seen)),
    decreases order.len(),
{
    let w = walk_roots(m, order, seen);
    if order.len() == 0 || !m.resolves(order[0].0) {
        assert(node_ids(w.records).to_set() =~= newly_seen(seen, w.seen));
    } else {
        let id = order[0].0;
        let def = m.defs[id];
        let root = seq![
            RecordView::Root { id: id, kind: def.kind, name: def.name, crate_name: order[0].1 },
        ];
        let first = walk_node(m, id, def, 0, seen);
        lemma_walk_visits_once(m, id, def, 0, seen);
        lemma_node_ids_none(root);
        lemma_node_ids_concat(root, first.records);
        assert(node_ids(root + first.records) =~= node_ids(first.records));
        if first.failure is None {
            let rest = walk_roots(m, order.drop_first(), first.seen);
            lemma_roots_visit_once(m, order.drop_first(), first.seen);
            lemma_join_visits(
                seen,
                Walk { records: root + first.records, seen: first.seen, failure: None },
                rest,
            );
        }
    }
}

/// The walk of a whole store visits no definition twice.
pub proof fn lemma_store_visits_once(m: StoreModel, seen: Set<u64>)
    ensures
        visits_once(seen, walk_store(m, seen)),
{
    if m.available {
        lemma_roots_visit_once(m, key_listing(m.roots), seen);
    } else {
        assert(node_ids(walk_store(m, seen).records).to_set() =~= newly_seen(
            seen,
            walk_store(m, seen).seen,
        ));
    }
}

/// A store that lists finitely many children for every id.
pub open spec fn lists_finitely(m: StoreModel) -> bool {
    forall|id: u64| #[trigger] m.children_of(id).dom().finite()
}

/// A set of ids that holds, with each of its ids, the children of that id.
pub open spec fn closed(m: StoreModel, s: Set<u64>) -> bool {
    forall|x: u64, c: u64| s.contains(x) && #[trigger] m.children_of(x).contains_key(c) ==> s.contains(c)
}

/// Whether the id after position `i` of a path is a child of the id at `i`.
pub open spec fn is_step(m: StoreModel, path: Seq<u64>, i: int) -> bool {
    m.children_of(path[i]).contains_key(path[i + 1])
}

/// A path through the store: ids of which each is a child of the one
/// before.
pub open spec fn is_path(m: StoreModel, path: Seq<u64>) -> bool {
    &&& path.len() > 0
    &&& forall|i: int| 0 <= i < path.len() - 1 ==> #[trigger] is_step(m, path, i)
}

/// A closed set that holds the start of a path holds its end.
pub proof fn lemma_closed_holds_path(m: StoreModel, s: Set<u64>, path: Seq<u64>)
    requires
        closed(m, s),
        is_path(m, path),
        s.contains(path[0]),
    ensures
        s.contains(path.last()),
    decreases path.len(),
{
    if path.len() > 1 {
        let shorter = path.drop_last();
        assert forall|i: int| 0 <= i < shorter.len() - 1 implies #[trigger] is_step(
            m,
            shorter,
            i,
        ) by {
            assert(is_step(m, path, i));
        }
        lemma_closed_holds_path(m, s, shorter);
        assert(is_step(m, path, path.len() - 2));
    }
}

/// What a walk that ended without an error has newly seen is closed, and
/// holds the definition that the walk began at.
pub proof fn lemma_walk_closed(
    m: StoreModel,
    id: u64,
    def: DefinitionView,
    indent: u32,
    seen: Set<u64>,
)
    requires
        lists_finitely(m),
        walk_node(m, id, def, indent, seen).failure is None,
    ensures
        newly_seen(seen, walk_node(m, id, def, indent, seen).seen).contains(id),
        closed(m, newly_seen(seen, walk_node(m, id, def, indent, seen).seen)),
    decreases u32::MAX - indent, 0nat,
{
    let w = walk_node(m, id, def, indent, seen);
    let seen1 = seen.insert(id);
    let kids = m.children_of(id);
    let order = listing(names_of(kids));
    let below = walk_children(m, kids, order, (indent + INDENT_STEP) as u32, seen1);
    lemma_children_closed(m, kids, order, (indent + INDENT_STEP) as u32, seen1);
    lemma_children_visit_once(m, kids, order, (indent + INDENT_STEP) as u32, seen1);
    assert(kids.dom().finite());
    assert(names_of(kids).dom() =~= kids.dom());
    lemma_listing_sorted(names_of(kids));
    let fresh = newly_seen(seen, w.seen);
    let fresh_below = newly_seen(seen1, below.seen);
    assert forall|x: u64, c: u64|
        fresh.contains(x) && #[trigger] m.children_of(x).contains_key(c) implies fresh.contains(
        c,
    ) by {
        if x == id {
            assert(order.to_set().contains(c));
            assert(order.contains(c));
            let i = choose|i: int| 0 <= i < order.len() && order[i] == c;
            assert(fresh_below.contains(order[i]));
        } else {
            assert(fresh_below.contains(x));
            assert(fresh_below.contains(c));
        }
    }
}

/// What walks of siblings that ended without an error have newly seen is
/// closed, and holds each of the siblings.
pub proof fn lemma_children_closed(
    m: StoreModel,
    kids: Map<u64, DefinitionView>,
    order: Seq<u64>,
    indent: u32,
    seen: Set<u64>,
)
    requires
        lists_finitely(m),
        walk_children(m, kids, order, indent, seen).failure is None,
    ensures
        forall|i: int|
            0 <= i < order.len() ==> newly_seen(
                seen,
                walk_children(m, kids, order, indent, seen).seen,
            ).contains(#[trigger] order[i]),
        closed(m, newly_seen(seen, walk_children(m, kids, order, indent, seen).seen)),
    decreases u32::MAX - indent, 1 + order.len(),
{
    let w = walk_children(m, kids, order, indent, seen);
    if order.len() != 0 {
        let first = walk_node(m, order[0], kids[order[0]], indent, seen);
        let rest = walk_children(m, kids, order.drop_first(), indent, first.seen);
        lemma_walk_closed(m, order[0], kids[order[0]], indent, seen);
        lemma_children_closed(m, kids, order.drop_first(), indent, first.seen);
        lemma_walk_visits_once(m, order[0], kids[order[0]], indent, seen);
        lemma_children_visit_once(m, kids, order.drop_first(), indent, first.seen);
        let fresh = newly_seen(seen, w.seen);
        let fresh_first = newly_seen(seen, first.seen);
        let fresh_rest = newly_seen(first.seen, rest.seen);
        assert forall|i: int| 0 <= i < order.len() implies fresh.contains(#[trigger] order[i]) by {
            if i > 0 {
                assert(order[i] == order.drop_first()[i - 1]);
                assert(fresh_rest.contains(order.drop_first()[i - 1]));
            }
        }
        assert forall|x: u64, c: u64|
            fresh.contains(x) && #[trigger] m.children_of(x).contains_key(c) implies fresh.contains(
            c,
        ) by {
            if fresh_first.contains(x) {
                assert(fresh_first.contains(c));
            } else {
                assert(fresh_rest.contains(x));
                assert(fresh_rest.contains(c));
            }
        }
    }
}

/// A walk that ends without an error has visited every definition that a
/// path leads to from the definition at which it began, and by
/// `lemma_walk_visits_once` has visited it once.
pub proof fn lemma_walk_complete(
    m: StoreModel,
    id: u64,
    def: DefinitionView,
    indent: u32,
    seen: Set<u64>,
    path: Seq<u64>,
)
    requires
        lists_finitely(m),
        walk_node(m, id, def, indent, seen).failure is None,
        is_path(m, path),
        path[0] == id,
    ensures
        node_ids(walk_node(m, id, def, indent, seen).records).contains(path.last()),
        node_ids(walk_node(m, id, def, indent, seen).records).no_duplicates(),
{
    let w = walk_node(m, id, def, indent, seen);
    lemma_walk_closed(m, id, def, indent, seen);
    lemma_walk_visits_once(m, id, def, indent, seen);
    lemma_closed_holds_path(m, newly_seen(seen, w.seen), path);
    assert(node_ids(w.records).to_set().contains(path.last()));
}

/// What walks of roots that ended without an error have newly seen is
/// closed, and holds each of the roots.
pub proof fn lemma_roots_closed(m: StoreModel, order: Seq<(u64, Seq<char>)>, seen: Set<u64>)
    requires
        lists_finitely(m),
        walk_roots(m, order, seen).failure is None,
    ensures
        forall|i: int|
            0 <= i < order.len() ==> newly_seen(seen, walk_roots(m, order, seen).seen).contains(
                (#[trigger] order[i]).0,
            ),
        closed(m, newly_seen(seen, walk_roots(m, order, seen).seen)),
    decreases order.len(),
{
    let w = walk_roots(m, order, seen);
    if order.len() != 0 {
        let id = order[0].0;
        let def = m.defs[id];
        let first = walk_node(m, id, def, 0, seen);
        let rest = walk_roots(m, order.drop_first(), first.seen);
        lemma_walk_closed(m, id, def, 0, seen);
        lemma_roots_closed(m, order.drop_first(), first.seen);
        lemma_walk_visits_once(m, id, def, 0, seen);
        lemma_roots_visit_once(m, order.drop_first(), first.seen);
        let fresh = newly_seen(seen, w.seen);
        let fresh_first = newly_seen(seen, first.seen);
        let fresh_rest = newly_seen(first.seen, rest.seen);
        assert forall|i: int| 0 <= i < order.len() implies fresh.contains(
            (#[trigger] order[i]).0,
        ) by {
            if i > 0 {
                assert(order[i] == order.drop_first()[i - 1]);
                assert(fresh_rest.contains(order.drop_first()[i - 1].0));
            }
        }
        assert forall|x: u64, c: u64|
            fresh.contains(x) && #[trigger] m.children_of(x).contains_key(c) implies fresh.contains(
            c,
        ) by {
            if fresh_first.contains(x) {
                assert(fresh_first.contains(c));
            } else {
                assert(fresh_rest.contains(x));
                assert(fresh_rest.contains(c));
            }
        }
    }
}

/// The walk of a whole store, where it ends without an error, has visited
/// every definition that a path leads to from a root, and has visited it
/// once.
pub proof fn lemma_store_walk_complete(
    m: StoreModel,
    seen: Set<u64>,
    crate_name: Seq<char>,
    path: Seq<u64>,
)
    requires
        lists_finitely(m),
        walk_store(m, seen).failure is None,
        is_path(m, path),
        m.roots.contains((path[0], crate_name)),
    ensures
        node_ids(walk_store(m, seen).records).contains(path.last()),
        node_ids(walk_store(m, seen).records).no_duplicates(),
{
    broadcast use vstd::seq_lib::group_to_multiset_ensures;

    let order = key_listing(m.roots);
    let w = walk_store(m, seen);
    lemma_key_listing_sorted(m.roots);
    lemma_roots_closed(m, order, seen);
    lemma_roots_visit_once(m, order, seen);
    assert(order.to_multiset().count((path[0], crate_name)) > 0);
    assert(order.contains((path[0], crate_name)));
    let i = choose|i: int| 0 <= i < order.len() && order[i] == (path[0], crate_name);
    assert(newly_seen(seen, w.seen).contains(order[i].0));
    lemma_closed_holds_path(m, newly_seen(seen, w.seen), path);
    assert(node_ids(w.records).to_set().contains(path.last()));
}

/// Resolution keeps the ids of a signature in their order: where every id
/// that a signature names resolves, the resolved lists are as long as the
/// signature's own, and hold at each position the id of that position with
/// the qualified name that the store has for it.
pub proof fn lemma_resolution_keeps_order(m: StoreModel, def: DefinitionView)
    requires
        def.signature is Some,
        forall|i: int|
            0 <= i < def.signature->Some_0.defs.len() ==> m.resolves(
                #[trigger] def.signature->Some_0.defs[i],
            ),
        forall|i: int|
            0 <= i < def.signature->Some_0.refs.len() ==> m.resolves(
                #[trigger] def.signature->Some_0.refs[i],
            ),
    ensures
        resolved_signature(m, def) matches Ok(resolved) && {
            let sig = def.signature->Some_0;
            &&& resolved.text == sig.text
            &&& resolved.defs.len() == sig.defs.len()
            &&& resolved.refs.len() == sig.refs.len()
            &&& forall|i: int|
                0 <= i < sig.defs.len() ==> (#[trigger] resolved.defs[i]).id == sig.defs[i]
                    && resolved.defs[i].qualname == m.defs[sig.defs[i]].qualname
            &&& forall|i: int|
                0 <= i < sig.refs.len() ==> (#[trigger] resolved.refs[i]).id == sig.refs[i]
                    && resolved.refs[i].qualname == m.defs[sig.refs[i]].qualname
        },
{
    let sig = def.signature->Some_0;
    lemma_first_where_is(sig.defs, |id: u64| !m.resolves(id), sig.defs.len() as int);
    lemma_first_where_is(sig.refs, |id: u64| !m.resolves(id), sig.refs.len() as int);
}

/// A list of ids of which one does not resolve resolves to an error that
/// names such an id of the list.
pub proof fn lemma_dangling_id(m: StoreModel, ids: Seq<u64>, i: int)
    requires
        0 <= i < ids.len(),
        !m.resolves(ids[i]),
    ensures
        resolved_ids(m, ids) matches Err(ResolutionError::DanglingSignatureReference { id })
            && ids.contains(id) && !m.resolves(id),
{
    lemma_first_where(ids, |id: u64| !m.resolves(id));
    let stop = first_dangling(m, ids);
    if stop >= ids.len() {
        assert(m.resolves(ids[i]));
    }
    assert(ids[stop] == ids[stop]);
}

/// An id that the signature of a function or method refers to, and that the
/// store does not resolve, ends the walk of that definition with a dangling
/// reference, after the definition and its qualified name and before
/// anything below it.
pub proof fn lemma_dangling_ends_walk(
    m: StoreModel,
    id: u64,
    def: DefinitionView,
    indent: u32,
    seen: Set<u64>,
    i: int,
)
    requires
        !seen.contains(id),
        has_signature(def.kind),
        def.signature is Some,
        0 <= i < def.signature->Some_0.refs.len(),
        !m.resolves(def.signature->Some_0.refs[i]),
    ensures
        walk_node(m, id, def, indent, seen).failure matches Some(
            ResolutionError::DanglingSignatureReference { id: named },
        ) && !m.resolves(named),
        walk_node(m, id, def, indent, seen).records == seq![
            RecordView::Node { indent: indent, id: id, kind: def.kind, name: def.name },
            RecordView::Qualname { indent: indent, qualname: def.qualname },
        ],
{
    let sig = def.signature->Some_0;
    lemma_dangling_id(m, sig.refs, i);
    if first_dangling(m, sig.defs) < sig.defs.len() {
        lemma_first_where(sig.defs, |id: u64| !m.resolves(id));
    }
    assert(walk_node(m, id, def, indent, seen).records =~= seq![
        RecordView::Node { indent: indent, id: id, kind: def.kind, name: def.name },
        RecordView::Qualname { indent: indent, qualname: def.qualname },
    ]);
}

/// After a walk that failed nothing is emitted: siblings that come after
/// the failing one change nothing of what the walk of the siblings emits.
pub proof fn lemma_failure_ends_siblings(
    m: StoreModel,
    kids: Map<u64, DefinitionView>,
    order: Seq<u64>,
    later: Seq<u64>,
    indent: u32,
    seen: Set<u64>,
)
    requires
        walk_children(m, kids, order, indent, seen).failure is Some,
    ensures
        walk_children(m, kids, order + later, indent, seen) == walk_children(
            m,
            kids,
            order,
            indent,
            seen,
        ),
    decreases order.len(),
{
    if order.len() != 0 {
        let first = walk_node(m, order[0], kids[order[0]], indent, seen);
        assert((order + later)[0] == order[0]);
        assert((order + later).drop_first() =~= order.drop_first() + later);
        if first.failure is None {
            lemma_failure_ends_siblings(m, kids, order.drop_first(), later, indent, first.seen);
        }
    }
}

/// The ids of the definitions that records visit at one indentation, in
/// the order of the records.
pub open spec fn node_ids_at(records: Seq<RecordView>, indent: u32) -> Seq<u64>
    decreases records.len(),
{
    if records.len() == 0 {
        seq![]
    } else {
        node_ids_at(records.drop_last(), indent) + (match records.last() {
            RecordView::Node { indent: at, id, .. } => if at == indent {
                seq![id]
            } else {
                seq![]
            },
            _ => seq![],
        })
    }
}

/// The ids that records visit at one indentation, one run of records after
/// another.
pub proof fn lemma_node_ids_at_concat(a: Seq<RecordView>, b: Seq<RecordView>, indent: u32)
    ensures
        node_ids_at(a + b, indent) == node_ids_at(a, indent) + node_ids_at(b, indent),
    decreases b.len(),
{
    if b.len() == 0 {
        assert(a + b =~= a);
        assert(node_ids_at(a, indent) + node_ids_at(b, indent) =~= node_ids_at(a, indent));
    } else {
        lemma_node_ids_at_concat(a, b.drop_last(), indent);
        assert((a + b).drop_last() =~= a + b.drop_last());
        let last = node_ids_at(b, indent).skip(node_ids_at(b.drop_last(), indent).len() as int);
        assert(node_ids_at(b, indent) =~= node_ids_at(b.drop_last(), indent) + last);
        assert(node_ids_at(a + b, indent) =~= node_ids_at(a, indent) + node_ids_at(
            b.drop_last(),
            indent,
        ) + last);
        assert(node_ids_at(a, indent) + node_ids_at(b.drop_last(), indent) + last
            =~= node_ids_at(a, indent) + (node_ids_at(b.drop_last(), indent) + last));
    }
}

/// Records of which none visits a definition visit no id at any
/// indentation.
pub proof fn lemma_node_ids_at_none(records: Seq<RecordView>, indent: u32)
    requires
        forall|i: int| 0 <= i < records.len() ==> !(#[trigger] records[i] is Node),
    ensures
        node_ids_at(records, indent) == Seq::<u64>::empty(),
    decreases records.len(),
{
    if records.len() != 0 {
        lemma_node_ids_at_none(records.drop_last(), indent);
        assert(node_ids_at(records, indent) =~= Seq::<u64>::empty());
    }
}

/// The walk of a definition visits, at the indentation of the definition,
/// the definition alone, and visits nothing further out.
pub proof fn lemma_walk_visits_at(
    m: StoreModel,
    id: u64,
    def: DefinitionView,
    indent: u32,
    seen: Set<u64>,
    at: u32,
)
    requires
        at <= indent,
    ensures
        node_ids_at(walk_node(m, id, def, indent, seen).records, at) == (if at == indent
            && !seen.contains(id) {
            seq![id]
        } else {
            Seq::<u64>::empty()
        }),
    decreases u32::MAX - indent, 0nat,
{
    let w = walk_node(m, id, def, indent, seen);
    if seen.contains(id) {
        assert(node_ids_at(w.records, at) =~= Seq::<u64>::empty());
    } else {
        let seen1 = seen.insert(id);
        let node = seq![
            RecordView::Node { indent: indent, id: id, kind: def.kind, name: def.name },
        ];
        let alone = if at == indent {
            seq![id]
        } else {
            Seq::<u64>::empty()
        };
        assert(node.drop_last() =~= Seq::<RecordView>::empty());
        assert(node_ids_at(Seq::<RecordView>::empty(), at) =~= Seq::<u64>::empty());
        assert(node_ids_at(node, at) =~= alone);
        let sig_records = if has_signature(def.kind) {
            emitted_signature(m, def, indent).records
        } else {
            Seq::<RecordView>::empty()
        };
        lemma_node_ids_at_none(sig_records, at);
        let head = node + sig_records;
        lemma_node_ids_at_concat(node, sig_records, at);
        assert(node_ids_at(head, at) =~= alone);
        if w.records != head {
            let kids = m.children_of(id);
            let below = walk_children(
                m,
                kids,
                listing(names_of(kids)),
                (indent + INDENT_STEP) as u32,
                seen1,
            );
            lemma_children_visit_at(
                m,
                kids,
                listing(names_of(kids)),
                (indent + INDENT_STEP) as u32,
                seen1,
                at,
            );
            lemma_node_ids_at_concat(head, below.records, at);
            assert(node_ids_at(w.records, at) =~= alone);
        }
    }
}

/// The walks of siblings visit, at the indentation of the siblings, the
/// siblings in their order, as far as the walks get, and all of them where
/// no error ends the walks. They visit nothing further out.
pub proof fn lemma_children_visit_at(
    m: StoreModel,
    kids: Map<u64, DefinitionView>,
    order: Seq<u64>,
    indent: u32,
    seen: Set<u64>,
    at: u32,
)
    requires
        at <= indent,
    ensures
        at < indent ==> node_ids_at(walk_children(m, kids, order, indent, seen).records, at)
            == Seq::<u64>::empty(),
        node_ids_at(walk_children(m, kids, order, indent, seen).records, indent).is_prefix_of(
            order,
        ),
        walk_children(m, kids, order, indent, seen).failure is None ==> node_ids_at(
            walk_children(m, kids, order, indent, seen).records,
            indent,
        ) == order,
    decreases u32::MAX - indent, 1 + order.len(),
{
    let w = walk_children(m, kids, order, indent, seen);
    if order.len() == 0 {
        assert(node_ids_at(w.records, at) =~= Seq::<u64>::empty());
        assert(node_ids_at(w.records, indent) =~= order);
    } else {
        let first = walk_node(m, order[0], kids[order[0]], indent, seen);
        lemma_walk_visits_at(m, order[0], kids[order[0]], indent, seen, at);
        lemma_walk_visits_at(m, order[0], kids[order[0]], indent, seen, indent);
        if first.failure is None {
            let rest = walk_children(m, kids, order.drop_first(), indent, first.seen);
            lemma_children_visit_at(m, kids, order.drop_first(), indent, first.seen, at);
            lemma_node_ids_at_concat(first.records, rest.records, at);
            lemma_node_ids_at_concat(first.records, rest.records, indent);
            let later = node_ids_at(rest.records, indent);
            assert(node_ids_at(w.records, indent) =~= seq![order[0]] + later);
            assert(later =~= order.drop_first().subrange(0, later.len() as int));
            assert(seq![order[0]] + later =~= order.subrange(0, later.len() as int + 1));
            if at < indent {
                assert(node_ids_at(w.records, at) =~= Seq::<u64>::empty());
            }
            if w.failure is None {
                assert(seq![order[0]] + order.drop_first() =~= order);
            }
        } else {
            let emitted = node_ids_at(w.records, indent);
            assert(emitted =~= order.subrange(0, emitted.len() as int));
        }
    }
}

/// The children of a definition are visited in visiting order: the ids that
/// a walk visits one step below the definition at which it began are the
/// listing of the children, as far as the walk got, and names never
/// decrease along them.
pub proof fn lemma_siblings_in_order(
    m: StoreModel,
    id: u64,
    def: DefinitionView,
    indent: u32,
    seen: Set<u64>,
)
    requires
        lists_finitely(m),
        indent <= u32::MAX - INDENT_STEP,
    ensures
        ({
            let below = node_ids_at(
                walk_node(m, id, def, indent, seen).records,
                (indent + INDENT_STEP) as u32,
            );
            let kids = m.children_of(id);
            &&& below.is_prefix_of(listing(names_of(kids)))
            &&& walk_node(m, id, def, indent, seen).failure is None ==> below == listing(
                names_of(kids),
            )
            &&& forall|i: int, j: int|
                0 <= i < j < below.len() ==> name_le(
                    kids[#[trigger] below[i]].name,
                    kids[#[trigger] below[j]].name,
                )
        }),
{
    let w = walk_node(m, id, def, indent, seen);
    let deeper = (indent + INDENT_STEP) as u32;
    let kids = m.children_of(id);
    let order = listing(names_of(kids));
    let below = node_ids_at(w.records, deeper);
    assert(names_of(kids).dom() =~= kids.dom());
    assert(kids.dom().finite());
    lemma_listing_sorted(names_of(kids));
    if seen.contains(id) {
        assert(below =~= Seq::<u64>::empty());
    } else {
        let seen1 = seen.insert(id);
        let node = seq![
            RecordView::Node { indent: indent, id: id, kind: def.kind, name: def.name },
        ];
        assert(node.drop_last() =~= Seq::<RecordView>::empty());
        assert(node_ids_at(Seq::<RecordView>::empty(), deeper) =~= Seq::<u64>::empty());
        assert(node_ids_at(node, deeper) =~= Seq::<u64>::empty());
        let sig_records = if has_signature(def.kind) {
            emitted_signature(m, def, indent).records
        } else {
            Seq::<RecordView>::empty()
        };
        lemma_node_ids_at_none(sig_records, deeper);
        let head = node + sig_records;
        lemma_node_ids_at_concat(node, sig_records, deeper);
        assert(node_ids_at(head, deeper) =~= Seq::<u64>::empty());
        let sig_fails = has_signature(def.kind) && emitted_signature(
            m,
            def,
            indent,
        ).failure is Some;
        if sig_fails || !m.available {
            assert(below =~= Seq::<u64>::empty());
        } else {
            let walked = walk_children(m, kids, order, deeper, seen1);
            lemma_children_visit_at(m, kids, order, deeper, seen1, deeper);
            lemma_node_ids_at_concat(head, walked.records, deeper);
            assert(below =~= node_ids_at(walked.records, deeper));
        }
    }
    assert forall|i: int, j: int| 0 <= i < j < below.len() implies name_le(
        kids[#[trigger] below[i]].name,
        kids[#[trigger] below[j]].name,
    ) by {
        assert(below[i] == order[i] && below[j] == order[j]);
        assert(order.to_set().contains(order[i]) && order.to_set().contains(order[j]));
    }
}

} // verus!
