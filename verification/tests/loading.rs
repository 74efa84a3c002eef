use npump::workspace::{matched_path_is_manifest, root_tab_name, tab_name_for};
use npump::{
    build_entries, dependency_candidates, extract_first_semver, workspace_patterns, DependencySection,
    JsonMember, JsonValue, SemVersion,
};

fn to_json(v: &serde_json::Value) -> JsonValue {
    match v {
        serde_json::Value::Null => JsonValue::Null,
        serde_json::Value::Bool(b) => JsonValue::Bool(*b),
        serde_json::Value::Number(n) => JsonValue::Number(n.to_string()),
        serde_json::Value::String(s) => JsonValue::Str(s.clone()),
        serde_json::Value::Array(items) => JsonValue::Array(items.iter().map(to_json).collect()),
        serde_json::Value::Object(map) => JsonValue::Object(
            map.iter()
                .map(|(k, v)| JsonMember { key: k.clone(), value: to_json(v) })
                .collect(),
        ),
    }
}

fn parse(text: &str) -> JsonValue {
    to_json(&serde_json::from_str(text).unwrap())
}

fn v(text: &str) -> SemVersion {
    extract_first_semver(text).unwrap()
}

#[test]
fn patterns_from_workspaces_array() {
    let root = parse(r#"{"workspaces": ["packages/*", 3, "apps/web"]}"#);
    assert_eq!(workspace_patterns(&root), vec!["packages/*".to_string(), "apps/web".to_string()]);
}

#[test]
fn patterns_from_workspaces_object() {
    let root = parse(r#"{"workspaces": {"packages": ["libs/*"], "nohoist": ["x"]}}"#);
    assert_eq!(workspace_patterns(&root), vec!["libs/*".to_string()]);
}

#[test]
fn no_patterns_otherwise() {
    assert!(workspace_patterns(&parse(r#"{"name": "x"}"#)).is_empty());
    assert!(workspace_patterns(&parse(r#"{"workspaces": "packages/*"}"#)).is_empty());
    assert!(workspace_patterns(&parse(r#"{"workspaces": {"packages": "x"}}"#)).is_empty());
    assert!(workspace_patterns(&parse(r#"[1]"#)).is_empty());
}

#[test]
fn manifest_path_detection() {
    assert!(matched_path_is_manifest(false, Some("package.json")));
    assert!(!matched_path_is_manifest(true, Some("package.json")));
    assert!(!matched_path_is_manifest(false, Some("README.md")));
    assert!(!matched_path_is_manifest(false, None));
}

#[test]
fn tab_names() {
    let named = parse(r#"{"name": "@acme/web"}"#);
    let unnamed = parse(r#"{"name": 5}"#);
    assert_eq!(tab_name_for(Some("root".to_string()), &named, Some("dir".to_string())), "root");
    assert_eq!(tab_name_for(None, &named, Some("dir".to_string())), "@acme/web");
    assert_eq!(tab_name_for(None, &unnamed, Some("dir".to_string())), "dir");
    assert_eq!(tab_name_for(None, &unnamed, None), "workspace");
    assert_eq!(root_tab_name(Some("proj".to_string())), "proj");
    assert_eq!(root_tab_name(None), "workspace");
}

#[test]
fn candidates_skip_local_and_unversioned_specs() {
    let manifest = parse(
        r#"{
        "dependencies": {
            "a": "^1.2.3",
            "b": "workspace:*",
            "c": "  file:../c",
            "d": "latest",
            "e": 7,
            "f": "git+https://x/y.git#1.2.3",
            "g": " ~2.0.0 ",
            "h": "npm:other@1.0.0",
            "i": "github:u/r",
            "j": "link:../j",
            "k": "http://x/1.2.3.tgz",
            "l": "https://x/1.2.3.tgz"
        },
        "devDependencies": {"m": ">=3.0.0-rc.1"},
        "peerDependencies": "nope",
        "optionalDependencies": {"n": "01.2.3"}
    }"#,
    );
    let cs = dependency_candidates(&manifest);
    let got: Vec<(&str, DependencySection, &str, String)> = cs
        .iter()
        .map(|c| (c.name.as_str(), c.section, c.spec.as_str(), c.current_version.to_string()))
        .collect();
    assert_eq!(
        got,
        vec![
            ("a", DependencySection::Dependencies, "^1.2.3", "1.2.3".to_string()),
            ("g", DependencySection::Dependencies, " ~2.0.0 ", "2.0.0".to_string()),
            ("m", DependencySection::DevDependencies, ">=3.0.0-rc.1", "3.0.0-rc.1".to_string()),
        ]
    );
}

#[test]
fn candidates_of_non_object_manifest() {
    assert!(dependency_candidates(&parse("[]")).is_empty());
    assert!(dependency_candidates(&JsonValue::Null).is_empty());
}

#[test]
fn entries_keep_only_newer_releases_sorted() {
    let manifest = parse(
        r#"{
        "dependencies": {"zeta": "^1.0.0", "alpha": "2.0.0", "same": "3.0.0", "gone": "1.0.0"},
        "devDependencies": {"alpha": "~1.0.0", "pre": "1.0.0"}
    }"#,
    );
    let cs = dependency_candidates(&manifest);
    let names: Vec<&str> = cs.iter().map(|c| c.name.as_str()).collect();
    assert_eq!(names, vec!["alpha", "gone", "same", "zeta", "alpha", "pre"]);
    let latest = vec![
        Some(v("2.0.0")),
        None,
        Some(v("3.0.0")),
        Some(v("1.5.0")),
        Some(v("1.2.0")),
        Some(v("1.0.0-beta")),
    ];
    let entries = build_entries(cs, latest);
    let got: Vec<(String, DependencySection, String, String, bool)> = entries
        .iter()
        .map(|e| (e.name.clone(), e.section, e.current_version.to_string(), e.latest_version.to_string(), e.selected))
        .collect();
    assert_eq!(
        got,
        vec![
            ("alpha".to_string(), DependencySection::DevDependencies, "1.0.0".to_string(), "1.2.0".to_string(), false),
            ("zeta".to_string(), DependencySection::Dependencies, "1.0.0".to_string(), "1.5.0".to_string(), false),
        ]
    );
}

#[test]
fn entries_sort_by_name_then_section_key() {
    let manifest = parse(
        r#"{
        "optionalDependencies": {"b": "1.0.0"},
        "dependencies": {"b": "1.0.0", "a": "1.0.0"},
        "peerDependencies": {"b": "1.0.0"},
        "devDependencies": {"b": "1.0.0", "B": "1.0.0"}
    }"#,
    );
    let cs = dependency_candidates(&manifest);
    let n = cs.len();
    let entries = build_entries(cs, (0..n).map(|_| Some(v("2.0.0"))).collect());
    let got: Vec<(&str, &str)> = entries.iter().map(|e| (e.name.as_str(), e.section.key())).collect();
    assert_eq!(
        got,
        vec![
            ("B", "devDependencies"),
            ("a", "dependencies"),
            ("b", "dependencies"),
            ("b", "devDependencies"),
            ("b", "optionalDependencies"),
            ("b", "peerDependencies"),
        ]
    );
}

#[test]
fn prerelease_is_older_than_release() {
    let manifest = parse(r#"{"dependencies": {"a": "1.0.0-rc.1", "b": "1.0.0"}}"#);
    let cs = dependency_candidates(&manifest);
    let entries = build_entries(cs, vec![Some(v("1.0.0")), Some(v("1.0.0-rc.2"))]);
    assert_eq!(entries.len(), 1);
    assert_eq!(entries[0].name, "a");
}

#[test]
fn build_metadata_orders_versions_too() {
    let manifest = parse(r#"{"dependencies": {"a": "1.0.0"}}"#);
    let cs = dependency_candidates(&manifest);
    let entries = build_entries(cs, vec![Some(v("1.0.0+build.1"))]);
    assert_eq!(entries.len(), 1);
}

#[test]
fn entries_with_same_name_and_section_keep_their_order() {
    let make = |spec: &str| npump::DependencyCandidate {
        name: "dup".to_string(),
        section: DependencySection::Dependencies,
        spec: spec.to_string(),
        current_version: v(spec),
    };
    let cs = vec![make("1.0.0"), make("1.1.0"), make("1.2.0")];
    let entries = build_entries(cs, vec![Some(v("9.0.0")), Some(v("9.0.0")), Some(v("9.0.0"))]);
    let specs: Vec<&str> = entries.iter().map(|e| e.current_spec.as_str()).collect();
    assert_eq!(specs, vec!["1.0.0", "1.1.0", "1.2.0"]);
}

#[test]
fn candidates_of_parsed_manifest_name_each_dependency_once() {
    let manifest = parse(
        r#"{
        "dependencies": {"a": "^1.0.0", "b": "2.0.0", "a": "^1.5.0"},
        "devDependencies": {"a": "~1.1.0"}
    }"#,
    );
    let cs = dependency_candidates(&manifest);
    let got: Vec<(&str, DependencySection, &str)> =
        cs.iter().map(|c| (c.name.as_str(), c.section, c.spec.as_str())).collect();
    assert_eq!(
        got,
        vec![
            ("a", DependencySection::Dependencies, "^1.5.0"),
            ("b", DependencySection::Dependencies, "2.0.0"),
            ("a", DependencySection::DevDependencies, "~1.1.0"),
        ]
    );
    let n = cs.len();
    let entries = build_entries(cs, (0..n).map(|_| Some(v("3.0.0"))).collect());
    let keys: Vec<(&str, &str)> = entries.iter().map(|e| (e.name.as_str(), e.section.key())).collect();
    assert_eq!(keys, vec![("a", "dependencies"), ("a", "devDependencies"), ("b", "dependencies")]);
    for w in keys.windows(2) {
        assert!(w[0] < w[1]);
    }
}
