//! Where diagrams go and when they are rewritten.

use std::path::PathBuf;

use rust2seq::callbacks::{crate_root_of, needs_write, output_plan, resolve_output, OutputPlan, Rust2SeqCallbacks};
use rust2seq::discover::FlowDecl;
use rust2seq::plugin::{fingerprint_dir, plugin_dir_name, Rust2SeqPlugin};

fn decl(output: Option<&str>) -> FlowDecl {
    FlowDecl {
        name: "demo".to_string(),
        title: None,
        entry_path: "A::b".to_string(),
        output: output.map(str::to_string),
        call_site_mod: 0,
    }
}

#[test]
fn plan_for_each_kind_of_output() {
    match output_plan(&decl(None), false) {
        OutputPlan::UnderRoot(v) => assert_eq!(v, vec!["diagrams".to_string(), "demo.puml".to_string()]),
        OutputPlan::AsGiven(_) => panic!("default output goes under the root"),
    }
    match output_plan(&decl(Some("docs/x.puml")), false) {
        OutputPlan::UnderRoot(v) => assert_eq!(v, vec!["docs/x.puml".to_string()]),
        OutputPlan::AsGiven(_) => panic!("relative output goes under the root"),
    }
    match output_plan(&decl(Some("/abs/x.puml")), true) {
        OutputPlan::AsGiven(p) => assert_eq!(p, "/abs/x.puml"),
        OutputPlan::UnderRoot(_) => panic!("absolute output is kept"),
    }
}

#[test]
fn resolved_output_paths() {
    let root = PathBuf::from("/work/crate");
    assert_eq!(resolve_output(&root, &decl(None)), PathBuf::from("/work/crate/diagrams/demo.puml"));
    assert_eq!(resolve_output(&root, &decl(Some("docs/x.puml"))), PathBuf::from("/work/crate/docs/x.puml"));
    assert_eq!(resolve_output(&root, &decl(Some("/abs/x.puml"))), PathBuf::from("/abs/x.puml"));
}

#[test]
fn write_only_when_text_changes() {
    let text = "@startuml x\n@enduml\n".to_string();
    assert!(needs_write(&None, &text));
    assert!(!needs_write(&Some(text.clone()), &text));
    assert!(needs_write(&Some("old".to_string()), &text));
}

#[test]
fn default_callbacks_equal_new() {
    let _a = Rust2SeqCallbacks::new();
    let _b: Rust2SeqCallbacks = Default::default();
}

#[test]
fn plugin_names_and_fingerprints() {
    assert_eq!(Rust2SeqPlugin.driver_name(), "rust2seq-driver");
    assert_eq!(plugin_dir_name("nightly-2025-01-01"), "plugin-nightly-2025-01-01");
    assert_eq!(
        fingerprint_dir(&PathBuf::from("/t"), "nightly"),
        PathBuf::from("/t/plugin-nightly/debug/.fingerprint")
    );
}

#[test]
fn crate_root_is_two_levels_above_the_source_file() {
    assert_eq!(crate_root_of(&PathBuf::from("/work/crate/src/lib.rs")), Some(PathBuf::from("/work/crate")));
    assert_eq!(crate_root_of(&PathBuf::from("src/lib.rs")), Some(PathBuf::from("")));
    assert_eq!(crate_root_of(&PathBuf::from("lib.rs")), None);
    assert_eq!(crate_root_of(&PathBuf::from("/")), None);
}

#[test]
fn relative_outputs_go_under_the_root() {
    let root = PathBuf::from("/w/ex");
    assert_eq!(resolve_output(&root, &decl(None)), PathBuf::from("/w/ex/diagrams/demo.puml"));
    assert_eq!(resolve_output(&root, &decl(Some("/tmp/x.puml"))), PathBuf::from("/tmp/x.puml"));
    assert_eq!(resolve_output(&root, &decl(Some("out/x.puml"))), PathBuf::from("/w/ex/out/x.puml"));
    assert_eq!(resolve_output(&root, &decl(Some(""))), PathBuf::from("/w/ex/"));
}
