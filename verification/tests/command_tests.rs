use defwalk::command::{analysis_environment, cargo_arguments, Setting};
use defwalk::target::{Target, TargetKind};

#[test]
fn arguments_for_a_library() {
    let target = Target { kind: TargetKind::Library, name: "my-lib".to_string() };
    assert_eq!(
        cargo_arguments(&target, "/work/Cargo.toml"),
        vec!["check", "--manifest-path", "/work/Cargo.toml", "--lib"]
    );
}

#[test]
fn arguments_for_a_binary() {
    let target = Target { kind: TargetKind::Binary, name: "my-tool".to_string() };
    assert_eq!(
        cargo_arguments(&target, "Cargo.toml"),
        vec!["check", "--manifest-path", "Cargo.toml", "--bin", "my-tool"]
    );
}

#[test]
fn environment_asks_for_the_analysis_with_signatures() {
    let settings = analysis_environment("/work/target/rls").expect("the configuration has a text");
    assert_eq!(settings.len(), 3);
    assert_eq!(
        settings[0],
        Setting { name: "RUSTFLAGS".to_string(), value: "-Z save-analysis".to_string() }
    );
    assert_eq!(
        settings[1],
        Setting { name: "CARGO_TARGET_DIR".to_string(), value: "/work/target/rls".to_string() }
    );
    assert_eq!(settings[2].name, "RUST_SAVE_ANALYSIS_CONFIG");
    let config: serde_json::Value = serde_json::from_str(&settings[2].value).expect("JSON");
    assert_eq!(config["signatures"], serde_json::Value::Bool(true));
    assert_eq!(config["full_docs"], serde_json::Value::Bool(false));
    assert_eq!(config["pub_only"], serde_json::Value::Bool(false));
    assert_eq!(config["output_file"], serde_json::Value::Null);
}
