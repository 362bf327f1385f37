use defwalk::error::ResolutionError;
use defwalk::target::{
    chosen_among_several, resolve_target, DeclaredTarget, Target, TargetKind,
};

fn declared(name: &str, kinds: &[&str]) -> DeclaredTarget {
    DeclaredTarget {
        name: name.to_string(),
        kinds: kinds.iter().map(|k| k.to_string()).collect(),
    }
}

fn target(kind: TargetKind, name: &str) -> Target {
    Target { kind, name: name.to_string() }
}

#[test]
fn crate_name_replaces_every_dash() {
    assert_eq!(target(TargetKind::Library, "my-own-crate").crate_name(), "my_own_crate");
}

#[test]
fn crate_name_keeps_a_name_without_dashes() {
    assert_eq!(target(TargetKind::Binary, "plain_name").crate_name(), "plain_name");
}

#[test]
fn crate_name_of_edge_names() {
    assert_eq!(target(TargetKind::Binary, "").crate_name(), "");
    assert_eq!(target(TargetKind::Binary, "-").crate_name(), "_");
    assert_eq!(target(TargetKind::Binary, "--a--").crate_name(), "__a__");
    assert_eq!(target(TargetKind::Binary, "caf\u{e9}-\u{3b1}").crate_name(), "caf\u{e9}_\u{3b1}");
}

#[test]
fn library_is_preferred_over_an_earlier_binary() {
    let decls = vec![declared("b", &["bin"]), declared("l", &["lib"])];
    assert_eq!(resolve_target(&decls), Ok(target(TargetKind::Library, "l")));
}

#[test]
fn first_binary_is_taken_without_a_library() {
    let decls = vec![declared("b1", &["bin"]), declared("b2", &["bin"])];
    assert_eq!(resolve_target(&decls), Ok(target(TargetKind::Binary, "b1")));
}

#[test]
fn no_targets_is_no_supported_target() {
    assert_eq!(resolve_target(&Vec::new()), Err(ResolutionError::NoSupportedTarget));
}

#[test]
fn single_target_is_returned() {
    assert_eq!(
        resolve_target(&vec![declared("only", &["bin"])]),
        Ok(target(TargetKind::Binary, "only"))
    );
    assert_eq!(
        resolve_target(&vec![declared("only", &["lib"])]),
        Ok(target(TargetKind::Library, "only"))
    );
}

#[test]
fn first_library_is_taken_among_several() {
    let decls = vec![
        declared("b", &["bin"]),
        declared("first", &["lib"]),
        declared("second", &["lib"]),
    ];
    assert_eq!(resolve_target(&decls), Ok(target(TargetKind::Library, "first")));
}

#[test]
fn unsupported_kinds_are_passed_over() {
    let decls = vec![
        declared("t", &["test"]),
        declared("e", &["example"]),
        declared("b", &["bin"]),
    ];
    assert_eq!(resolve_target(&decls), Ok(target(TargetKind::Binary, "b")));
}

#[test]
fn only_unsupported_kinds_is_no_supported_target() {
    let decls = vec![declared("t", &["test"]), declared("m", &["proc-macro"])];
    assert_eq!(resolve_target(&decls), Err(ResolutionError::NoSupportedTarget));
}

#[test]
fn a_target_without_a_kind_is_ambiguous() {
    let decls = vec![declared("l", &["lib"]), declared("odd", &[])];
    assert_eq!(
        resolve_target(&decls),
        Err(ResolutionError::AmbiguousTargetKind { index: 1 })
    );
}

#[test]
fn a_target_with_two_kinds_is_ambiguous() {
    let decls = vec![declared("both", &["lib", "bin"]), declared("b", &["bin"])];
    assert_eq!(
        resolve_target(&decls),
        Err(ResolutionError::AmbiguousTargetKind { index: 0 })
    );
}

#[test]
fn the_first_ambiguous_target_is_reported() {
    let decls = vec![
        declared("l", &["lib"]),
        declared("x", &["lib", "rlib"]),
        declared("y", &[]),
    ];
    assert_eq!(
        resolve_target(&decls),
        Err(ResolutionError::AmbiguousTargetKind { index: 1 })
    );
}

#[test]
fn kinds_are_compared_exactly() {
    let decls = vec![declared("a", &["Lib"]), declared("b", &["lib "]), declared("c", &["bin"])];
    assert_eq!(resolve_target(&decls), Ok(target(TargetKind::Binary, "c")));
}

#[test]
fn a_choice_takes_several_supported_targets() {
    assert!(!chosen_among_several(&Vec::new()));
    assert!(!chosen_among_several(&vec![declared("l", &["lib"])]));
    assert!(!chosen_among_several(&vec![declared("t", &["test"]), declared("b", &["bin"])]));
    assert!(!chosen_among_several(&vec![declared("x", &["lib", "bin"])]));
    assert!(chosen_among_several(&vec![declared("b", &["bin"]), declared("l", &["lib"])]));
    assert!(chosen_among_several(&vec![
        declared("b1", &["bin"]),
        declared("t", &["test"]),
        declared("b2", &["bin"]),
    ]));
    assert!(chosen_among_several(&vec![declared("l1", &["lib"]), declared("l2", &["lib"])]));
}
