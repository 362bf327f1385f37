//! The run of the build tool that produces the analysis of a target: its
//! arguments and its environment.

use crate::target::{Target, TargetKind, TargetView};
use vstd::prelude::*;

verus! {

/// The texts of a list of strings.
pub open spec fn texts(strings: Seq<String>) -> Seq<Seq<char>> {
    strings.map_values(|s: String| s@)
}

/// The arguments that make the build tool check one target of the package
/// at `manifest_path`: `--lib` for the library, `--bin` and its name for a
/// binary.
pub open spec fn check_arguments(target: TargetView, manifest_path: Seq<char>) -> Seq<Seq<char>> {
    seq!["check"@, "--manifest-path"@, manifest_path] + (match target.kind {
        TargetKind::Library => seq!["--lib"@],
        TargetKind::Binary => seq!["--bin"@, target.name],
    })
}

/// The arguments of the build tool's run that produces the analysis of
/// `target`.
pub fn cargo_arguments(target: &Target, manifest_path: &str) -> (r: Vec<String>)
    ensures
        texts(r@) == check_arguments(target@, manifest_path@),
{
    let mut arguments: Vec<String> = Vec::new();
    arguments.push("check".to_owned());
    arguments.push("--manifest-path".to_owned());
    arguments.push(manifest_path.to_owned());
    match target.kind {
        TargetKind::Library => {
            arguments.push("--lib".to_owned());
        },
        TargetKind::Binary => {
            arguments.push("--bin".to_owned());
            arguments.push(target.name.clone());
        },
    }
    assert(texts(arguments@) =~= check_arguments(target@, manifest_path@));
    arguments
}

/// The JSON text of the analysis configuration that asks for signatures or
/// not, every other setting at its default; `None` where it has none.
pub uninterp spec fn config_text(signatures: bool) -> Option<Seq<char>>;

/// `serde_json::to_string` of an `rls_data` configuration that differs from
/// the default one in `signatures` alone.
#[verifier::external_body]
fn serialize_config(signatures: bool) -> (r: Result<String, serde_json::Error>)
    ensures
        match r {
            Ok(text) => config_text(signatures) == Some(text@),
            Err(_) => config_text(signatures) is None,
        },
{
    serde_json::to_string(&rls_data::config::Config { signatures, ..Default::default() })
}

/// A variable of the environment with its value.
#[derive(Debug, PartialEq, Eq)]
pub struct Setting {
    pub name: String,
    pub value: String,
}

/// A `Setting` as a contract sees it.
pub struct SettingView {
    pub name: Seq<char>,
    pub value: Seq<char>,
}

impl View for Setting {
    type V = SettingView;

    open spec fn view(&self) -> SettingView {
        SettingView { name: self.name@, value: self.value@ }
    }
}

/// Settings as a contract sees them.
pub open spec fn settings_view(settings: Seq<Setting>) -> Seq<SettingView> {
    settings.map_values(|s: Setting| s@)
}

/// The environment that makes the compiler save its analysis, with
/// signatures, below `target_dir`.
pub open spec fn analysis_settings(target_dir: Seq<char>) -> Option<Seq<SettingView>> {
    match config_text(true) {
        Some(config) => Some(
            seq![
                SettingView { name: "RUSTFLAGS"@, value: "-Z save-analysis"@ },
                SettingView { name: "CARGO_TARGET_DIR"@, value: target_dir },
                SettingView { name: "RUST_SAVE_ANALYSIS_CONFIG"@, value: config },
            ],
        ),
        None => None,
    }
}

/// What optional settings are to a contract.
pub open spec fn optional_settings_view(r: Option<Vec<Setting>>) -> Option<Seq<SettingView>> {
    match r {
        Some(settings) => Some(settings_view(settings@)),
        None => None,
    }
}

/// The environment of the build tool's run that produces the analysis.
pub fn analysis_environment(target_dir: &str) -> (r: Option<Vec<Setting>>)
    ensures
        optional_settings_view(r) == analysis_settings(target_dir@),
{
    let config = match serialize_config(true) {
        Ok(config) => config,
        Err(_) => {
            return None;
        },
    };
    let mut settings: Vec<Setting> = Vec::new();
    settings.push(Setting { name: "RUSTFLAGS".to_owned(), value: "-Z save-analysis".to_owned() });
    settings.push(Setting { name: "CARGO_TARGET_DIR".to_owned(), value: target_dir.to_owned() });
    settings.push(Setting { name: "RUST_SAVE_ANALYSIS_CONFIG".to_owned(), value: config });
    assert(settings_view(settings@) =~= analysis_settings(target_dir@)->Some_0);
    Some(settings)
}

} // verus!
