use defwalk::order::{comes_first, sort_listed};
use defwalk::record::Record;
use defwalk::signature::{emit_sig, resolve_signature, ResolvedElement, ResolvedSignature};
use defwalk::store::{Child, Definition, DefinitionStore, Root, SigElement, Signature};
use defwalk::error::ResolutionError;
use defwalk::walk::{traverse, walk, Trace};
use rls_data::DefKind;

/// One definition of a crate under test: kind, index, name, and the indices
/// of its children.
struct Entry {
    kind: &'static str,
    index: u32,
    name: &'static str,
    children: Vec<u32>,
}

fn entry(kind: &'static str, index: u32, name: &'static str, children: &[u32]) -> Entry {
    Entry { kind, index, name, children: children.to_vec() }
}

fn span_text() -> String {
    "{\"file_name\":\"src/lib.rs\",\"byte_start\":1,\"byte_end\":9,\"line_start\":1,\"line_end\":1,\"column_start\":1,\"column_end\":9}".to_string()
}

fn analysis_text(crate_name: &str, disambiguator: u64, entries: &[Entry]) -> String {
    let mut defs = Vec::new();
    for e in entries {
        let children: Vec<String> =
            e.children.iter().map(|c| format!("{{\"krate\":0,\"index\":{}}}", c)).collect();
        defs.push(format!(
            "{{\"kind\":\"{}\",\"id\":{{\"krate\":0,\"index\":{}}},\"span\":{},\"name\":\"{}\",\"qualname\":\"::{}\",\"value\":\"value of {}\",\"parent\":null,\"children\":[{}],\"decl_id\":null,\"docs\":\"\",\"sig\":null,\"attributes\":[]}}",
            e.kind,
            e.index,
            span_text(),
            e.name,
            e.name,
            e.name,
            children.join(",")
        ));
    }
    format!(
        "{{\"config\":{{\"output_file\":null,\"full_docs\":false,\"pub_only\":false,\"reachable_only\":false,\"distro_crate\":false,\"signatures\":true,\"borrow_data\":false}},\"version\":\"0.19.1\",\"compilation\":null,\"prelude\":{{\"crate_id\":{{\"name\":\"{}\",\"disambiguator\":[{},0]}},\"crate_root\":\"src\",\"external_crates\":[],\"span\":{}}},\"imports\":[],\"defs\":[{}],\"impls\":[],\"refs\":[],\"macro_refs\":[],\"relations\":[]}}",
        crate_name,
        disambiguator,
        span_text(),
        defs.join(",")
    )
}

fn store_of(texts: &[String]) -> DefinitionStore {
    let host = rls_analysis::AnalysisHost::new(rls_analysis::Target::Debug);
    let analyses: Vec<rls_data::Analysis> = texts
        .iter()
        .map(|t| rls_analysis::deserialize_crate_data(t).expect("the text is an analysis"))
        .collect();
    let none: [&str; 0] = [];
    let nowhere = std::path::Path::new("/nowhere/at/all");
    host.reload_from_analysis(analyses, nowhere, nowhere, &none).expect("the analysis loads");
    DefinitionStore { host }
}

fn unloaded_store() -> DefinitionStore {
    DefinitionStore { host: rls_analysis::AnalysisHost::new(rls_analysis::Target::Debug) }
}

/// A crate `demo`: root module 0 with the children `zeta` (function 1),
/// `alpha` (struct 2, with the field `x` 4 and the method `get` 5) and
/// `mid` (module 3, with the function `alpha` 6).
fn demo_entries() -> Vec<Entry> {
    vec![
        entry("Mod", 0, "", &[1, 2, 3]),
        entry("Function", 1, "zeta", &[]),
        entry("Struct", 2, "alpha", &[5, 4]),
        entry("Mod", 3, "mid", &[6]),
        entry("Field", 4, "x", &[]),
        entry("Method", 5, "get", &[]),
        entry("Function", 6, "alpha", &[]),
    ]
}

fn demo_store() -> DefinitionStore {
    store_of(&[analysis_text("demo", 1, &demo_entries())])
}

fn definition(kind: DefKind, name: &str, signature: Option<Signature>) -> Definition {
    Definition {
        kind,
        name: name.to_string(),
        qualname: format!("demo::{}", name),
        value: format!("value of {}", name),
        signature,
    }
}

fn node(indent: u32, id: u64, kind: DefKind, name: &str) -> Record {
    Record::Node { indent, id, kind, name: name.to_string() }
}

fn qualname(indent: u32, name: &str) -> Record {
    Record::Qualname { indent, qualname: format!("demo::{}", name) }
}

fn value(indent: u32, name: &str) -> Record {
    Record::SignatureValue { indent, value: format!("value of {}", name) }
}

fn demo_records() -> Vec<Record> {
    vec![
        Record::Root {
            id: 0,
            kind: DefKind::Mod,
            name: String::new(),
            crate_name: "demo".to_string(),
        },
        node(0, 0, DefKind::Mod, ""),
        node(2, 2, DefKind::Struct, "alpha"),
        node(4, 5, DefKind::Method, "get"),
        qualname(4, "get"),
        value(4, "get"),
        node(4, 4, DefKind::Field, "x"),
        node(2, 3, DefKind::Mod, "mid"),
        node(4, 6, DefKind::Function, "alpha"),
        qualname(4, "alpha"),
        value(4, "alpha"),
        node(2, 1, DefKind::Function, "zeta"),
        qualname(2, "zeta"),
        value(2, "zeta"),
    ]
}

fn visited_ids(records: &[Record]) -> Vec<u64> {
    let mut ids = Vec::new();
    for r in records {
        if let Record::Node { id, .. } = r {
            ids.push(*id);
        }
    }
    ids
}

#[test]
fn walk_emits_the_tree_in_order() {
    let store = demo_store();
    let mut trace = Trace::new();
    assert_eq!(walk(&store, &mut trace), Ok(()));
    assert_eq!(trace.records, demo_records());
}

#[test]
fn walk_does_not_depend_on_the_order_of_the_data() {
    let mut reversed = demo_entries();
    reversed.reverse();
    for e in reversed.iter_mut() {
        e.children.reverse();
    }
    let store = store_of(&[analysis_text("demo", 1, &reversed)]);
    let mut trace = Trace::new();
    assert_eq!(walk(&store, &mut trace), Ok(()));
    assert_eq!(trace.records, demo_records());
}

#[test]
fn two_walks_of_one_store_emit_the_same() {
    let store = demo_store();
    let mut first = Trace::new();
    let mut second = Trace::new();
    assert_eq!(walk(&store, &mut first), Ok(()));
    assert_eq!(walk(&store, &mut second), Ok(()));
    assert_eq!(first.records, second.records);
    assert_eq!(format!("{:?}", first.records), format!("{:?}", second.records));
}

#[test]
fn walk_visits_every_definition_once() {
    let store = demo_store();
    let mut trace = Trace::new();
    assert_eq!(walk(&store, &mut trace), Ok(()));
    let mut ids = visited_ids(&trace.records);
    ids.sort();
    assert_eq!(ids, vec![0, 1, 2, 3, 4, 5, 6]);
    assert_eq!(trace.seen.len(), 7);
    for id in 0..7u64 {
        assert!(trace.seen.contains(&id));
    }
}

#[test]
fn siblings_are_emitted_by_name() {
    let entries = vec![
        entry("Mod", 0, "", &[1, 2, 3, 4, 5]),
        entry("Struct", 1, "b", &[]),
        entry("Struct", 2, "Z", &[]),
        entry("Struct", 3, "a", &[]),
        entry("Struct", 4, "ab", &[]),
        entry("Struct", 5, "B", &[]),
    ];
    let store = store_of(&[analysis_text("names", 1, &entries)]);
    let mut trace = Trace::new();
    assert_eq!(walk(&store, &mut trace), Ok(()));
    assert_eq!(visited_ids(&trace.records), vec![0, 5, 2, 3, 4, 1]);
    let names: Vec<String> = trace
        .records
        .iter()
        .filter_map(|r| match r {
            Record::Node { indent: 2, name, .. } => Some(name.clone()),
            _ => None,
        })
        .collect();
    assert_eq!(names, vec!["B", "Z", "a", "ab", "b"]);
    for pair in names.windows(2) {
        assert!(pair[0] <= pair[1]);
    }
}

#[test]
fn siblings_of_one_name_are_emitted_by_id() {
    let entries = vec![
        entry("Mod", 0, "", &[9, 3, 7, 5]),
        entry("Struct", 9, "same", &[]),
        entry("Struct", 3, "same", &[]),
        entry("Struct", 7, "other", &[]),
        entry("Struct", 5, "same", &[]),
    ];
    let store = store_of(&[analysis_text("ties", 1, &entries)]);
    let mut trace = Trace::new();
    assert_eq!(walk(&store, &mut trace), Ok(()));
    assert_eq!(visited_ids(&trace.records), vec![0, 7, 3, 5, 9]);
}

#[test]
fn roots_are_walked_by_crate_name() {
    let zebra = analysis_text("zebra", 1, &[entry("Mod", 0, "", &[1]), entry("Struct", 1, "s", &[])]);
    let apple = analysis_text("apple", 2, &[entry("Mod", 0, "", &[1]), entry("Struct", 1, "t", &[])]);
    let store = store_of(&[zebra, apple]);
    let mut trace = Trace::new();
    assert_eq!(walk(&store, &mut trace), Ok(()));
    let roots: Vec<String> = trace
        .records
        .iter()
        .filter_map(|r| match r {
            Record::Root { crate_name, .. } => Some(crate_name.clone()),
            _ => None,
        })
        .collect();
    assert_eq!(roots, vec!["apple", "zebra"]);
    assert_eq!(trace.records.len(), 6);
    let ids = visited_ids(&trace.records);
    assert_eq!(ids.len(), 4);
    let first_crate = ids[0] >> 32;
    assert_eq!(ids[1] >> 32, first_crate);
    assert_ne!(ids[2] >> 32, first_crate);
    assert_eq!(ids[3] >> 32, ids[2] >> 32);
}

#[test]
fn traverse_walks_below_one_definition() {
    let store = demo_store();
    let mut trace = Trace::new();
    let alpha = definition(DefKind::Struct, "alpha", None);
    assert_eq!(traverse(2, &alpha, &store, 6, &mut trace), Ok(()));
    assert_eq!(
        trace.records,
        vec![
            node(6, 2, DefKind::Struct, "alpha"),
            node(8, 5, DefKind::Method, "get"),
            qualname(8, "get"),
            value(8, "get"),
            node(8, 4, DefKind::Field, "x"),
        ]
    );
}

#[test]
fn traverse_of_a_definition_without_children() {
    let store = demo_store();
    let mut trace = Trace::new();
    let zeta = definition(DefKind::Function, "zeta", None);
    assert_eq!(traverse(1, &zeta, &store, 0, &mut trace), Ok(()));
    assert_eq!(
        trace.records,
        vec![node(0, 1, DefKind::Function, "zeta"), qualname(0, "zeta"), value(0, "zeta")]
    );
}

#[test]
fn only_functions_and_methods_emit_a_signature() {
    let store = demo_store();
    for kind in [
        DefKind::Enum,
        DefKind::Struct,
        DefKind::Mod,
        DefKind::Local,
        DefKind::Trait,
        DefKind::ForeignFunction,
        DefKind::Const,
    ] {
        let mut trace = Trace::new();
        let def = definition(kind, "thing", None);
        assert_eq!(traverse(77, &def, &store, 0, &mut trace), Ok(()));
        assert_eq!(trace.records, vec![node(0, 77, kind, "thing")]);
    }
    for kind in [DefKind::Function, DefKind::Method] {
        let mut trace = Trace::new();
        let def = definition(kind, "thing", None);
        assert_eq!(traverse(77, &def, &store, 0, &mut trace), Ok(()));
        assert_eq!(
            trace.records,
            vec![node(0, 77, kind, "thing"), qualname(0, "thing"), value(0, "thing")]
        );
    }
}

#[test]
fn a_definition_without_signature_resolves_to_its_value() {
    let store = demo_store();
    let def = definition(DefKind::Function, "zeta", None);
    assert_eq!(
        resolve_signature(&def, &store),
        Ok(ResolvedSignature {
            text: "value of zeta".to_string(),
            defs: Vec::new(),
            refs: Vec::new(),
        })
    );
    assert_eq!(
        resolve_signature(&def, &unloaded_store()),
        Ok(ResolvedSignature {
            text: "value of zeta".to_string(),
            defs: Vec::new(),
            refs: Vec::new(),
        })
    );
}

fn signature(text: &str, defs: &[u64], refs: &[u64]) -> Signature {
    Signature {
        text: text.to_string(),
        defs: defs.iter().map(|id| SigElement { id: *id }).collect(),
        refs: refs.iter().map(|id| SigElement { id: *id }).collect(),
    }
}

fn resolved(id: u64, qualname: &str) -> ResolvedElement {
    ResolvedElement { id, qualname: qualname.to_string() }
}

#[test]
fn resolution_keeps_length_and_order() {
    let store = demo_store();
    let def = definition(
        DefKind::Function,
        "zeta",
        Some(signature("fn zeta(x: alpha) -> alpha", &[4, 1], &[2, 6, 2])),
    );
    assert_eq!(
        resolve_signature(&def, &store),
        Ok(ResolvedSignature {
            text: "fn zeta(x: alpha) -> alpha".to_string(),
            defs: vec![resolved(4, "demo::x"), resolved(1, "demo::zeta")],
            refs: vec![
                resolved(2, "demo::alpha"),
                resolved(6, "demo::alpha"),
                resolved(2, "demo::alpha"),
            ],
        })
    );
}

#[test]
fn a_signature_that_names_nothing_resolves_to_its_text() {
    let store = demo_store();
    let def = definition(DefKind::Method, "get", Some(signature("fn get()", &[], &[])));
    assert_eq!(
        resolve_signature(&def, &store),
        Ok(ResolvedSignature { text: "fn get()".to_string(), defs: Vec::new(), refs: Vec::new() })
    );
    let mut out = Vec::new();
    assert_eq!(emit_sig(&store, &def, 4, &mut out), Ok(()));
    assert_eq!(
        out,
        vec![
            qualname(4, "get"),
            Record::SignatureText { indent: 4, text: "fn get()".to_string() },
        ]
    );
}

#[test]
fn emit_sig_emits_text_then_defs_then_refs() {
    let store = demo_store();
    let def = definition(
        DefKind::Function,
        "zeta",
        Some(signature("fn zeta(x: alpha)", &[4], &[2, 3])),
    );
    let mut out = vec![node(0, 1, DefKind::Function, "zeta")];
    assert_eq!(emit_sig(&store, &def, 0, &mut out), Ok(()));
    assert_eq!(
        out,
        vec![
            node(0, 1, DefKind::Function, "zeta"),
            qualname(0, "zeta"),
            Record::SignatureText { indent: 0, text: "fn zeta(x: alpha)".to_string() },
            Record::SignatureDef { indent: 0, id: 4, qualname: "demo::x".to_string() },
            Record::SignatureRef { indent: 0, id: 2, qualname: "demo::alpha".to_string() },
            Record::SignatureRef { indent: 0, id: 3, qualname: "demo::mid".to_string() },
        ]
    );
}

#[test]
fn a_dangling_reference_ends_the_walk() {
    let store = demo_store();
    let def = definition(
        DefKind::Function,
        "zeta",
        Some(signature("fn zeta()", &[4], &[2, 99, 3])),
    );
    assert_eq!(
        resolve_signature(&def, &store),
        Err(ResolutionError::DanglingSignatureReference { id: 99 })
    );
    let mut trace = Trace::new();
    assert_eq!(
        traverse(0, &definition(DefKind::Method, "", Some(signature("fn ()", &[], &[99]))), &store, 0, &mut trace),
        Err(ResolutionError::DanglingSignatureReference { id: 99 })
    );
    assert_eq!(trace.records, vec![node(0, 0, DefKind::Method, ""), qualname(0, "")]);
}

#[test]
fn the_first_dangling_id_is_reported() {
    let store = demo_store();
    let def = definition(
        DefKind::Function,
        "zeta",
        Some(signature("fn zeta()", &[4, 50, 51], &[60])),
    );
    assert_eq!(
        resolve_signature(&def, &store),
        Err(ResolutionError::DanglingSignatureReference { id: 50 })
    );
    let refs_only = definition(
        DefKind::Function,
        "zeta",
        Some(signature("fn zeta()", &[4], &[2, 61, 60])),
    );
    assert_eq!(
        resolve_signature(&refs_only, &store),
        Err(ResolutionError::DanglingSignatureReference { id: 61 })
    );
    let mut out = Vec::new();
    assert_eq!(
        emit_sig(&store, &refs_only, 2, &mut out),
        Err(ResolutionError::DanglingSignatureReference { id: 61 })
    );
    assert_eq!(out, vec![qualname(2, "zeta")]);
}

#[test]
fn a_store_that_was_not_loaded_fails() {
    let store = unloaded_store();
    let mut trace = Trace::new();
    assert_eq!(walk(&store, &mut trace), Err(ResolutionError::StoreFailure));
    assert!(trace.records.is_empty());
    let mut trace = Trace::new();
    let def = definition(DefKind::Struct, "alpha", None);
    assert_eq!(
        traverse(2, &def, &store, 0, &mut trace),
        Err(ResolutionError::LookupFailure { id: 2 })
    );
    assert_eq!(trace.records, vec![node(0, 2, DefKind::Struct, "alpha")]);
    let with_ref = definition(DefKind::Function, "f", Some(signature("fn f()", &[], &[2])));
    assert_eq!(
        resolve_signature(&with_ref, &store),
        Err(ResolutionError::DanglingSignatureReference { id: 2 })
    );
}

#[test]
fn a_definition_is_not_visited_twice() {
    let store = demo_store();
    let mut trace = Trace::new();
    let alpha = definition(DefKind::Struct, "alpha", None);
    assert_eq!(traverse(2, &alpha, &store, 0, &mut trace), Ok(()));
    let emitted = trace.records.len();
    assert_eq!(
        traverse(2, &alpha, &store, 0, &mut trace),
        Err(ResolutionError::Revisited { id: 2 })
    );
    assert_eq!(trace.records.len(), emitted);
    let root = definition(DefKind::Mod, "", None);
    assert_eq!(
        traverse(0, &root, &store, 0, &mut trace),
        Err(ResolutionError::Revisited { id: 2 })
    );
    assert_eq!(visited_ids(&trace.records), vec![2, 5, 4, 0]);
}

#[test]
fn a_cycle_of_children_ends_the_walk() {
    let entries = vec![
        entry("Mod", 0, "", &[1]),
        entry("Mod", 1, "a", &[2]),
        entry("Mod", 2, "b", &[1]),
    ];
    let store = store_of(&[analysis_text("cycle", 1, &entries)]);
    let mut trace = Trace::new();
    assert_eq!(walk(&store, &mut trace), Err(ResolutionError::Revisited { id: 1 }));
    assert_eq!(visited_ids(&trace.records), vec![0, 1, 2]);
}

#[test]
fn the_indentation_does_not_overflow() {
    let store = demo_store();
    let mut trace = Trace::new();
    let alpha = definition(DefKind::Struct, "alpha", None);
    assert_eq!(
        traverse(2, &alpha, &store, u32::MAX - 1, &mut trace),
        Err(ResolutionError::TooDeep { id: 2 })
    );
    assert_eq!(trace.records, vec![node(u32::MAX - 1, 2, DefKind::Struct, "alpha")]);
    let mut trace = Trace::new();
    assert_eq!(
        traverse(2, &alpha, &store, u32::MAX - 3, &mut trace),
        Err(ResolutionError::TooDeep { id: 5 })
    );
    assert_eq!(
        trace.records,
        vec![
            node(u32::MAX - 3, 2, DefKind::Struct, "alpha"),
            node(u32::MAX - 1, 5, DefKind::Method, "get"),
            qualname(u32::MAX - 1, "get"),
            value(u32::MAX - 1, "get"),
        ]
    );
    let mut trace = Trace::new();
    let zeta = definition(DefKind::Struct, "zeta", None);
    assert_eq!(traverse(1, &zeta, &store, u32::MAX - 2, &mut trace), Ok(()));
}

#[test]
fn an_unknown_root_has_no_children() {
    let store = demo_store();
    let mut trace = Trace::new();
    let stranger = definition(DefKind::Mod, "stranger", None);
    assert_eq!(traverse(4242, &stranger, &store, 0, &mut trace), Ok(()));
    assert_eq!(trace.records, vec![node(0, 4242, DefKind::Mod, "stranger")]);
}

fn root(id: u64, name: &str) -> Root {
    Root { id, crate_name: name.to_string() }
}

#[test]
fn sort_listed_orders_by_name_then_id() {
    let sorted = sort_listed(vec![
        root(4, "b"),
        root(9, "a"),
        root(2, "b"),
        root(7, ""),
        root(1, "ab"),
        root(3, "a"),
    ]);
    assert_eq!(
        sorted,
        vec![root(7, ""), root(3, "a"), root(9, "a"), root(1, "ab"), root(2, "b"), root(4, "b")]
    );
    assert_eq!(sort_listed(Vec::<Root>::new()), Vec::new());
    assert_eq!(sort_listed(vec![root(1, "x")]), vec![root(1, "x")]);
}

#[test]
fn sort_listed_orders_children_by_the_name_of_the_definition() {
    let child = |id: u64, name: &str| Child { id, def: definition(DefKind::Struct, name, None) };
    let sorted = sort_listed(vec![child(1, "y"), child(2, "x"), child(3, "\u{e9}"), child(4, "z")]);
    let ids: Vec<u64> = sorted.iter().map(|c| c.id).collect();
    assert_eq!(ids, vec![2, 1, 4, 3]);
}

#[test]
fn comes_first_compares_names_then_ids() {
    assert!(comes_first(&root(5, "a"), &root(1, "b")));
    assert!(!comes_first(&root(1, "b"), &root(5, "a")));
    assert!(comes_first(&root(1, "a"), &root(5, "a")));
    assert!(!comes_first(&root(5, "a"), &root(1, "a")));
    assert!(comes_first(&root(5, "a"), &root(5, "a")));
    assert!(comes_first(&root(5, "a"), &root(1, "aa")));
    assert!(comes_first(&root(5, "Z"), &root(1, "a")));
}
