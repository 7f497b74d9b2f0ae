use cargo_feature::names::{find_feature, normalize_name, package_matches, str_eq};
use cargo_feature::request::{parse_feature, DefaultToggle, DependencyCommand, DependencyType, EditPlan};

fn words(args: &[&str]) -> Vec<String> {
    args.iter().map(|a| a.to_string()).collect()
}

#[test]
fn dependency_type_from_str() {
    assert_eq!(DependencyType::from_str("normal"), Ok(DependencyType::Normal));
    assert_eq!(DependencyType::from_str("dev"), Ok(DependencyType::Dev));
    assert_eq!(DependencyType::from_str("build"), Ok(DependencyType::Build));
    assert_eq!(DependencyType::from_str("Normal"), Err("Normal is not valid dependency type".to_string()));
    assert_eq!(DependencyType::from_str("Dev"), Err("Dev is not valid dependency type".to_string()));
}

#[test]
fn parse_feature_prefixes() {
    assert_eq!(parse_feature("+foo"), (DependencyCommand::Add, "foo"));
    assert_eq!(parse_feature("^foo"), (DependencyCommand::Remove, "foo"));
    assert_eq!(parse_feature("foo"), (DependencyCommand::Add, "foo"));
    assert_eq!(parse_feature("+"), (DependencyCommand::Add, ""));
    assert_eq!(parse_feature(""), (DependencyCommand::Add, ""));
    assert_eq!(parse_feature("^+x"), (DependencyCommand::Remove, "+x"));
}

#[test]
fn normalize_and_match_names() {
    assert_eq!(normalize_name("a-b-c"), "a_b_c");
    assert_eq!(normalize_name("plain"), "plain");
    assert!(package_matches("foo-bar", "foo_bar"));
    assert!(!package_matches("foo-bar", "foobar"));
    assert!(str_eq("déjà", "déjà"));
    assert!(!str_eq("ab", "abc"));
}

#[test]
fn find_feature_first_position() {
    let list = words(&["x", "y", "x"]);
    assert_eq!(find_feature(&list, "x"), Some(0));
    assert_eq!(find_feature(&list, "y"), Some(1));
    assert_eq!(find_feature(&list, "z"), None);
}

#[test]
fn plan_from_words() {
    let plan = EditPlan::new(&words(&["a", "^default", "+b", "a", "default", "^c"]), DependencyType::Dev, false, false);
    assert_eq!(plan.kind, DependencyType::Dev);
    assert_eq!(plan.default_toggle, DefaultToggle::Disable);
    let got: Vec<(String, DependencyCommand)> = plan.requests.iter().map(|r| (r.name.clone(), r.command)).collect();
    assert_eq!(
        got,
        vec![
            ("a".to_string(), DependencyCommand::Add),
            ("b".to_string(), DependencyCommand::Add),
            ("c".to_string(), DependencyCommand::Remove),
        ]
    );
    assert!(plan.requests.iter().all(|r| r.kind == DependencyType::Dev));
    assert!(!plan.is_listing());
}

#[test]
fn plan_toggles() {
    let enable = EditPlan::new(&words(&["+default"]), DependencyType::Normal, false, false);
    assert_eq!(enable.default_toggle, DefaultToggle::Enable);
    assert!(enable.requests.is_empty());
    let both = EditPlan::new(&words(&[]), DependencyType::Normal, true, true);
    assert_eq!(both.default_toggle, DefaultToggle::Disable);
    let nothing = EditPlan::new(&words(&[]), DependencyType::Normal, false, false);
    assert_eq!(nothing.default_toggle, DefaultToggle::Keep);
    assert!(nothing.is_listing());
}
