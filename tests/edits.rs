use cargo_feature::edit::try_process_dependency;
use cargo_feature::features::{edit_features, unknown_features, Capabilities, DeclaredDependency};
use cargo_feature::request::{DefaultToggle, DependencyType, EditPlan};
use toml_edit::Document;

fn caps() -> Capabilities {
    Capabilities {
        features: vec!["a".to_string(), "b".to_string(), "c".to_string()],
        dependencies: vec![
            DeclaredDependency { name: "opt".to_string(), optional: true },
            DeclaredDependency { name: "req".to_string(), optional: false },
        ],
    }
}

fn words(args: &[&str]) -> Vec<String> {
    args.iter().map(|a| a.to_string()).collect()
}

fn edit(text: &str, kind: DependencyType, args: &[&str], disable: bool, enable: bool) -> String {
    let plan = EditPlan::new(&words(args), kind, disable, enable);
    let mut doc: Document = text.parse().unwrap();
    try_process_dependency(&mut doc, "foo", &plan, &caps()).unwrap();
    doc.to_string()
}

#[test]
fn add_twice_same_as_once() {
    let once = edit("[dependencies]\nfoo = \"1.0\"\n", DependencyType::Normal, &["a"], false, false);
    let plan = EditPlan::new(&words(&["a"]), DependencyType::Normal, false, false);
    let mut doc: Document = once.parse().unwrap();
    try_process_dependency(&mut doc, "foo", &plan, &caps()).unwrap();
    assert_eq!(doc.to_string(), once);
    assert_eq!(once, "[dependencies]\nfoo = { version = \"1.0\", features = [\"a\"] }\n");
}

#[test]
fn add_then_remove_restores_shorthand() {
    let plan = EditPlan {
        kind: DependencyType::Normal,
        requests: vec![
            cargo_feature::request::FeatureRequest {
                kind: DependencyType::Normal,
                name: "a".to_string(),
                command: cargo_feature::request::DependencyCommand::Add,
            },
            cargo_feature::request::FeatureRequest {
                kind: DependencyType::Normal,
                name: "a".to_string(),
                command: cargo_feature::request::DependencyCommand::Remove,
            },
        ],
        default_toggle: DefaultToggle::Keep,
    };
    let mut doc: Document = "[dependencies]\nfoo = \"1.0\"\n".parse().unwrap();
    try_process_dependency(&mut doc, "foo", &plan, &caps()).unwrap();
    assert_eq!(doc.to_string(), "[dependencies]\nfoo = \"1.0\"\n");
}

#[test]
fn shorthand_gains_then_loses_feature() {
    let added = edit("[dependencies]\nfoo = \"1.0\"\n", DependencyType::Normal, &["+b"], false, false);
    assert_eq!(added, "[dependencies]\nfoo = { version = \"1.0\", features = [\"b\"] }\n");
    let plan = EditPlan::new(&words(&["^b"]), DependencyType::Normal, false, false);
    let mut doc: Document = added.parse().unwrap();
    try_process_dependency(&mut doc, "foo", &plan, &caps()).unwrap();
    assert_eq!(doc.to_string(), "[dependencies]\nfoo = \"1.0\"\n");
}

#[test]
fn dev_request_leaves_other_kinds() {
    let text = "[dependencies]\nfoo = \"1\"\n\n[build-dependencies]\nfoo = \"2\"\n\n[dev-dependencies]\nfoo = \"3\"\n\n[target.x.dependencies]\nfoo = \"4\"\n";
    let out = edit(text, DependencyType::Dev, &["a"], true, false);
    assert_eq!(
        out,
        "[dependencies]\nfoo = \"1\"\n\n[build-dependencies]\nfoo = \"2\"\n\n[dev-dependencies]\nfoo = { version = \"3\", default-features = false, features = [\"a\"] }\n\n[target.x.dependencies]\nfoo = \"4\"\n"
    );
}

#[test]
fn unknown_feature_is_skipped_and_reported() {
    let text = "[dependencies]\nfoo = { version = \"1\", features = [\"a\"] }\n";
    let out = edit(text, DependencyType::Normal, &["zzz", "req"], false, false);
    assert_eq!(out, text);
    let plan = EditPlan::new(&words(&["zzz", "a", "req"]), DependencyType::Normal, false, false);
    let skipped = unknown_features(&plan.requests, DependencyType::Normal, &caps());
    assert_eq!(skipped, words(&["zzz", "req"]));
}

#[test]
fn optional_dependency_is_a_feature() {
    let out = edit("[dependencies]\nfoo = \"1\"\n", DependencyType::Normal, &["opt"], false, false);
    assert_eq!(out, "[dependencies]\nfoo = { version = \"1\", features = [\"opt\"] }\n");
}

#[test]
fn target_sections_are_edited_alike() {
    let text = "[dependencies]\nfoo = \"1\"\n\n[target.x.dependencies]\nfoo = \"1\"\n\n[target.y.dependencies]\nbar = \"2\"\n\n[target.z]\nrustflags = 1\n";
    let out = edit(text, DependencyType::Normal, &["c"], false, false);
    assert_eq!(
        out,
        "[dependencies]\nfoo = { version = \"1\", features = [\"c\"] }\n\n[target.x.dependencies]\nfoo = { version = \"1\", features = [\"c\"] }\n\n[target.y.dependencies]\nbar = \"2\"\n\n[target.z]\nrustflags = 1\n"
    );
}

#[test]
fn disable_default_and_add_do_both() {
    let out = edit("[dependencies]\nfoo = { version = \"1\", features = [\"a\"] }\n", DependencyType::Normal, &["b", "default"], true, false);
    assert_eq!(out, "[dependencies]\nfoo = { version = \"1\", features = [\"a\", \"b\"], default-features = false }\n");
}

#[test]
fn enable_default_removes_marker() {
    let out = edit("[dependencies]\nfoo = { version = \"1\", default-features = false }\n", DependencyType::Normal, &["+default"], false, false);
    assert_eq!(out, "[dependencies]\nfoo = \"1\"\n");
}

#[test]
fn block_table_declaration() {
    let text = "[dependencies.foo]\nversion = \"1\"\nfeatures = [\"a\", \"b\"]\n";
    let out = edit(text, DependencyType::Normal, &["^a", "c"], false, false);
    assert_eq!(out, "[dependencies.foo]\nversion = \"1\"\nfeatures = [\"b\", \"c\"]\n");
}

#[test]
fn removing_last_feature_collapses() {
    let out = edit("[dependencies]\nfoo = { version = \"0.3\", features = [\"a\"] }\n", DependencyType::Normal, &["^a"], false, false);
    assert_eq!(out, "[dependencies]\nfoo = \"0.3\"\n");
}

#[test]
fn edit_features_in_order() {
    let mut list = words(&["b", "a"]);
    let plan = EditPlan::new(&words(&["c", "^b", "a", "+opt", "^zzz", "c"]), DependencyType::Build, false, false);
    edit_features(&mut list, &plan.requests, DependencyType::Build, &caps());
    assert_eq!(list, words(&["a", "c", "opt"]));
    let mut other = words(&["b"]);
    edit_features(&mut other, &plan.requests, DependencyType::Dev, &caps());
    assert_eq!(other, words(&["b"]));
}

#[test]
fn key_held_without_value_keeps_its_place() {
    let mut doc: Document = "[dependencies.foo]\nversion = \"1\"\n".parse().unwrap();
    let _ = &mut doc["dependencies"]["foo"]["features"];
    doc["dependencies"]["foo"]["path"] = toml_edit::value("../foo");
    let plan = EditPlan::new(&words(&["a"]), DependencyType::Normal, false, false);
    try_process_dependency(&mut doc, "foo", &plan, &caps()).unwrap();
    let keys: Vec<String> = doc["dependencies"]["foo"].as_table().unwrap().iter().map(|(k, _)| k.to_string()).collect();
    assert_eq!(keys, words(&["version", "features", "path"]));
    assert_eq!(doc["dependencies"]["foo"]["path"].as_str(), Some("../foo"));
}

#[test]
fn other_fields_survive_round_trip() {
    let text = "[dependencies]\nfoo = { version = \"1\", git = \"https://example.org/foo\", optional = true }\n";
    let added = edit(text, DependencyType::Normal, &["b"], false, false);
    assert_eq!(added, "[dependencies]\nfoo = { version = \"1\", git = \"https://example.org/foo\", optional = true, features = [\"b\"] }\n");
    let back = edit(&added, DependencyType::Normal, &["^b"], false, false);
    assert_eq!(back, "[dependencies]\nfoo = { version = \"1\", git = \"https://example.org/foo\", optional = true }\n");
}

#[test]
fn comments_around_features_survive() {
    let text = "[dependencies.foo]\nversion = \"1\"\n# chosen features\nfeatures = [\"a\"] # keep\n";
    let out = edit(text, DependencyType::Normal, &["b"], false, false);
    assert_eq!(out, "[dependencies.foo]\nversion = \"1\"\n# chosen features\nfeatures = [\"a\", \"b\"] # keep\n");
}

#[test]
fn failed_pass_leaves_other_kinds() {
    let text = "target = 1\n\n[dependencies]\nfoo = \"1\"\n\n[dev-dependencies]\nfoo = { version = \"2\", path = \"x\" }\n";
    let plan = EditPlan::new(&words(&["a"]), DependencyType::Normal, false, false);
    let mut doc: Document = text.parse().unwrap();
    assert!(try_process_dependency(&mut doc, "foo", &plan, &caps()).is_err());
    assert_eq!(doc["dev-dependencies"]["foo"]["path"].as_str(), Some("x"));
    assert_eq!(doc["dev-dependencies"]["foo"]["version"].as_str(), Some("2"));
    assert!(doc["dev-dependencies"]["foo"].get("features").is_none());
}
