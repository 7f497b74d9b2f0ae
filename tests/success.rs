use cargo_feature::edit::{try_process_dependency, ShapeError};
use cargo_feature::features::{Capabilities, DeclaredDependency};
use cargo_feature::names::find_package;
use cargo_feature::request::{DependencyType, EditPlan};
use toml_edit::Document;

const WORKSPACE_MANIFEST: &str = r#"[package]
name = "test-ws"
version = "0.1.0"
authors = ["Riey <creeper844@gmail.com>"]
edition = "2018"

# See more keys and their definitions at https://doc.rust-lang.org/cargo/reference/manifest.html

[dependencies]
test-lib = { path = "../test-lib", features = ["bar"] }

[target.'cfg(target_arch = "wasm32")'.dependencies]
# issue #9, #11
test-lib-dep = { path = "../test-lib-dep" }
"#;

fn test_lib_caps() -> Capabilities {
    Capabilities {
        features: vec!["bar".to_string(), "default".to_string(), "foo".to_string()],
        dependencies: vec![],
    }
}

fn test_lib_dep_caps() -> Capabilities {
    Capabilities {
        features: vec![],
        dependencies: vec![DeclaredDependency { name: "test-lib".to_string(), optional: true }],
    }
}

fn run(krate: &str, args: &[&str], disable: bool, caps: &Capabilities) -> String {
    let args: Vec<String> = args.iter().map(|a| a.to_string()).collect();
    let plan = EditPlan::new(&args, DependencyType::Normal, disable, false);
    let mut doc: Document = WORKSPACE_MANIFEST.parse().unwrap();
    try_process_dependency(&mut doc, krate, &plan, caps).unwrap();
    doc.to_string()
}

fn workspace_packages() -> Vec<String> {
    vec!["test-ws".to_string(), "test-lib".to_string(), "test-lib-dep".to_string()]
}

#[test]
fn hypen_underline() {
    let packages = workspace_packages();
    assert_eq!(find_package(&packages, "test_lib"), Some(1));
    assert_eq!(find_package(&packages, "test-lib"), Some(1));
}

#[test]
fn default_add() {
    let out = run("test-lib", &["foo"], false, &test_lib_caps());
    assert_eq!(
        out,
        r#"[package]
name = "test-ws"
version = "0.1.0"
authors = ["Riey <creeper844@gmail.com>"]
edition = "2018"

# See more keys and their definitions at https://doc.rust-lang.org/cargo/reference/manifest.html

[dependencies]
test-lib = { path = "../test-lib", features = ["bar", "foo"] }

[target.'cfg(target_arch = "wasm32")'.dependencies]
# issue #9, #11
test-lib-dep = { path = "../test-lib-dep" }
"#
    );
}

#[test]
fn remove_feature() {
    let out = run("test-lib", &["^bar"], false, &test_lib_caps());
    assert_eq!(
        out,
        r#"[package]
name = "test-ws"
version = "0.1.0"
authors = ["Riey <creeper844@gmail.com>"]
edition = "2018"

# See more keys and their definitions at https://doc.rust-lang.org/cargo/reference/manifest.html

[dependencies]
test-lib = { path = "../test-lib" }

[target.'cfg(target_arch = "wasm32")'.dependencies]
# issue #9, #11
test-lib-dep = { path = "../test-lib-dep" }
"#
    );
}

#[test]
fn disable_default_features() {
    let out = run("test-lib", &["^default"], true, &test_lib_caps());
    assert_eq!(
        out,
        r#"[package]
name = "test-ws"
version = "0.1.0"
authors = ["Riey <creeper844@gmail.com>"]
edition = "2018"

# See more keys and their definitions at https://doc.rust-lang.org/cargo/reference/manifest.html

[dependencies]
test-lib = { path = "../test-lib", features = ["bar"], default-features = false }

[target.'cfg(target_arch = "wasm32")'.dependencies]
# issue #9, #11
test-lib-dep = { path = "../test-lib-dep" }
"#
    );
}

#[test]
fn add_target_feature() {
    let out = run("test-lib-dep", &["+test-lib"], false, &test_lib_dep_caps());
    assert_eq!(
        out,
        r#"[package]
name = "test-ws"
version = "0.1.0"
authors = ["Riey <creeper844@gmail.com>"]
edition = "2018"

# See more keys and their definitions at https://doc.rust-lang.org/cargo/reference/manifest.html

[dependencies]
test-lib = { path = "../test-lib", features = ["bar"] }

[target.'cfg(target_arch = "wasm32")'.dependencies]
# issue #9, #11
test-lib-dep = { path = "../test-lib-dep", features = ["test-lib"] }
"#
    );
}

#[test]
fn ui_not_exist() {
    let packages = workspace_packages();
    assert_eq!(find_package(&packages, "not-exists"), None);
}

#[test]
fn unknown_dependency_leaves_manifest() {
    let out = run("not-exists", &["+foo"], false, &test_lib_caps());
    assert_eq!(out, WORKSPACE_MANIFEST);
}

#[test]
fn pass_reports_bad_shapes() {
    let caps = test_lib_caps();
    let plan = EditPlan::new(&vec!["foo".to_string()], DependencyType::Normal, false, false);
    let cases: Vec<(&str, &str)> = vec![
        ("dependencies = 1\n", "section"),
        ("target = 1\n", "section"),
        ("[target]\nx = 1\n", "target"),
        ("[target.x]\ndependencies = 1\n", "target-section"),
        ("[dependencies]\nfoo = 1\n", "entry"),
        ("[dependencies]\nfoo = { version = \"1\", features = \"a\" }\n", "entry"),
        ("[target.x.dependencies]\nfoo = true\n", "entry"),
    ];
    for (text, want) in cases {
        let mut doc: Document = text.parse().unwrap();
        let got = match try_process_dependency(&mut doc, "foo", &plan, &caps) {
            Err(ShapeError::Section(_)) => "section",
            Err(ShapeError::Target(_)) => "target",
            Err(ShapeError::TargetSection(_)) => "target-section",
            Err(ShapeError::Entry(_)) => "entry",
            Ok(()) => "ok",
        };
        assert_eq!(got, want, "{}", text);
    }
}

#[test]
fn build_section_error_only_matters_for_its_shape() {
    let caps = test_lib_caps();
    let plan = EditPlan::new(&vec!["foo".to_string()], DependencyType::Normal, false, false);
    let mut doc: Document = "[build-dependencies]\nfoo = 1\n[target.x]\nother = 2\n".parse().unwrap();
    assert!(try_process_dependency(&mut doc, "foo", &plan, &caps).is_ok());
    assert_eq!(doc.to_string(), "[build-dependencies]\nfoo = 1\n[target.x]\nother = 2\n");
}
