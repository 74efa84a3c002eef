use std::path::PathBuf;

use npump::json::{field, find_member, set_dependency, set_member};
use npump::model::PackageEntry;
use npump::{extract_first_semver, DependencySection, JsonMember, JsonValue, WorkspaceState};

fn to_json(v: &serde_json::Value) -> JsonValue {
    match v {
        serde_json::Value::Null => JsonValue::Null,
        serde_json::Value::Bool(b) => JsonValue::Bool(*b),
        serde_json::Value::Number(n) => JsonValue::Number(n.to_string()),
        serde_json::Value::String(s) => JsonValue::Str(s.clone()),
        serde_json::Value::Array(items) => JsonValue::Array(items.iter().map(to_json).collect()),
        serde_json::Value::Object(map) => JsonValue::Object(
            map.iter()
                .map(|(k, v)| JsonMember { key: k.clone(), value: to_json(v) })
                .collect(),
        ),
    }
}

fn to_serde(v: &JsonValue) -> serde_json::Value {
    match v {
        JsonValue::Null => serde_json::Value::Null,
        JsonValue::Bool(b) => serde_json::Value::Bool(*b),
        JsonValue::Number(n) => serde_json::from_str(n).unwrap(),
        JsonValue::Str(s) => serde_json::Value::String(s.clone()),
        JsonValue::Array(items) => serde_json::Value::Array(items.iter().map(to_serde).collect()),
        JsonValue::Object(ms) => {
            let mut map = serde_json::Map::new();
            for m in ms {
                map.insert(m.key.clone(), to_serde(&m.value));
            }
            serde_json::Value::Object(map)
        }
    }
}

fn parse(text: &str) -> JsonValue {
    to_json(&serde_json::from_str(text).unwrap())
}

fn entry(name: &str, section: DependencySection, spec: &str, latest: &str, selected: bool) -> PackageEntry {
    PackageEntry {
        name: name.to_string(),
        section,
        current_spec: spec.to_string(),
        current_version: extract_first_semver(spec).unwrap(),
        latest_version: extract_first_semver(latest).unwrap(),
        selected,
    }
}

fn workspace(json: &str, entries: Vec<PackageEntry>, selected_index: usize) -> WorkspaceState {
    WorkspaceState {
        tab_name: "app".to_string(),
        package_path: PathBuf::from("/tmp/app/package.json"),
        package_json: parse(json),
        entries,
        selected_index,
    }
}

fn s(text: &str) -> String {
    text.to_string()
}

#[test]
fn field_looks_up_object_members() {
    let doc = parse(r#"{"name": "app", "version": "1.0.0"}"#);
    assert!(matches!(field(&doc, &s("name")), Some(JsonValue::Str(n)) if n == "app"));
    assert!(field(&doc, &s("missing")).is_none());
    assert!(field(&parse("[1, 2]"), &s("name")).is_none());
}

#[test]
fn first_member_with_key_wins() {
    let ms = vec![
        JsonMember { key: s("a"), value: JsonValue::Bool(true) },
        JsonMember { key: s("b"), value: JsonValue::Null },
        JsonMember { key: s("a"), value: JsonValue::Bool(false) },
    ];
    assert_eq!(find_member(&ms, &s("a")), Some(0));
    assert_eq!(find_member(&ms, &s("b")), Some(1));
    assert_eq!(find_member(&ms, &s("c")), None);
}

#[test]
fn set_member_replaces_or_appends() {
    let mut ms = vec![JsonMember { key: s("a"), value: JsonValue::Null }];
    set_member(&mut ms, &s("a"), JsonValue::Str(s("x")));
    set_member(&mut ms, &s("b"), JsonValue::Str(s("y")));
    assert_eq!(ms.len(), 2);
    assert!(matches!(&ms[0].value, JsonValue::Str(v) if v == "x"));
    assert_eq!(ms[1].key, "b");
}

fn expect(doc: &JsonValue, text: &str) {
    let expected: serde_json::Value = serde_json::from_str(text).unwrap();
    assert_eq!(to_serde(doc), expected);
}

#[test]
fn set_dependency_in_existing_section() {
    let mut doc = parse(r#"{"dependencies": {"a": "^1.0.0", "b": "2.0.0"}, "name": "x"}"#);
    set_dependency(&mut doc, &s("dependencies"), &s("a"), &s("^1.5.0"));
    expect(&doc, r#"{"dependencies": {"a": "^1.5.0", "b": "2.0.0"}, "name": "x"}"#);
}

#[test]
fn set_dependency_creates_missing_section() {
    let mut doc = parse(r#"{"name": "x"}"#);
    set_dependency(&mut doc, &s("devDependencies"), &s("jest"), &s("^29.0.0"));
    expect(&doc, r#"{"name": "x", "devDependencies": {"jest": "^29.0.0"}}"#);
}

#[test]
fn set_dependency_turns_null_document_into_object() {
    let mut doc = JsonValue::Null;
    set_dependency(&mut doc, &s("dependencies"), &s("a"), &s("1.0.0"));
    expect(&doc, r#"{"dependencies": {"a": "1.0.0"}}"#);
}

#[test]
fn set_dependency_leaves_non_object_section_alone() {
    let mut doc = parse(r#"{"dependencies": "none"}"#);
    set_dependency(&mut doc, &s("dependencies"), &s("a"), &s("1.0.0"));
    expect(&doc, r#"{"dependencies": "none"}"#);
}

#[test]
fn set_dependency_matches_serde_json_edit() {
    let text = r#"{"dependencies": {"a": "^1.0.0"}, "devDependencies": {"b": 3}, "x": [1, 2.5, null]}"#;
    let edits = [("dependencies", "a", "^2.0.0"), ("devDependencies", "b", "4.0.0"), ("peerDependencies", "c", "1.0.0")];
    let mut ours = parse(text);
    let mut theirs: serde_json::Value = serde_json::from_str(text).unwrap();
    for (section, name, spec) in edits {
        set_dependency(&mut ours, &s(section), &s(name), &s(spec));
        if theirs.get(section).is_none() {
            theirs[section] = serde_json::Value::Object(serde_json::Map::new());
        }
        if let Some(deps) = theirs.get_mut(section).and_then(serde_json::Value::as_object_mut) {
            deps.insert(name.to_string(), serde_json::Value::String(spec.to_string()));
        }
    }
    assert_eq!(to_serde(&ours), theirs);
}

#[test]
fn stage_writes_selected_specs() {
    let mut ws = workspace(
        r#"{"dependencies": {"a": "^1.0.0", "b": "~2.0.0"}, "devDependencies": {"c": "3.0.0"}}"#,
        vec![
            entry("a", DependencySection::Dependencies, "^1.0.0", "1.4.0", true),
            entry("b", DependencySection::Dependencies, "~2.0.0", "2.1.0", false),
            entry("c", DependencySection::DevDependencies, "3.0.0", "4.0.0-rc.1", true),
        ],
        1,
    );
    let count = ws.stage_selected_updates();
    assert_eq!(count, 2);
    expect(
        &ws.package_json,
        r#"{"dependencies": {"a": "^1.4.0", "b": "~2.0.0"}, "devDependencies": {"c": "4.0.0-rc.1"}}"#,
    );
    assert_eq!(ws.entries.len(), 3);
    assert_eq!(ws.selected_index, 1);
}

#[test]
fn stage_with_nothing_selected_changes_nothing() {
    let text = r#"{"dependencies": {"a": "^1.0.0"}}"#;
    let mut ws = workspace(text, vec![entry("a", DependencySection::Dependencies, "^1.0.0", "2.0.0", false)], 0);
    assert_eq!(ws.stage_selected_updates(), 0);
    expect(&ws.package_json, text);
}

#[test]
fn stage_creates_missing_section() {
    let mut ws = workspace(r#"{}"#, vec![entry("p", DependencySection::PeerDependencies, ">=1.0.0", "1.1.0", true)], 0);
    assert_eq!(ws.stage_selected_updates(), 1);
    expect(&ws.package_json, r#"{"peerDependencies": {"p": ">=1.1.0"}}"#);
}

#[test]
fn retain_keeps_unselected_in_order_and_clamps_cursor() {
    let mut ws = workspace(
        "{}",
        vec![
            entry("a", DependencySection::Dependencies, "1.0.0", "2.0.0", false),
            entry("b", DependencySection::Dependencies, "1.0.0", "2.0.0", true),
            entry("c", DependencySection::Dependencies, "1.0.0", "2.0.0", false),
            entry("d", DependencySection::Dependencies, "1.0.0", "2.0.0", true),
        ],
        3,
    );
    ws.retain_unselected();
    let names: Vec<&str> = ws.entries.iter().map(|e| e.name.as_str()).collect();
    assert_eq!(names, vec!["a", "c"]);
    assert_eq!(ws.selected_index, 1);
}

#[test]
fn retain_everything_selected_resets_cursor() {
    let mut ws = workspace(
        "{}",
        vec![entry("a", DependencySection::Dependencies, "1.0.0", "2.0.0", true)],
        0,
    );
    ws.retain_unselected();
    assert!(ws.entries.is_empty());
    assert_eq!(ws.selected_index, 0);
}

#[test]
fn retain_keeps_cursor_in_range() {
    let mut ws = workspace(
        "{}",
        vec![
            entry("a", DependencySection::Dependencies, "1.0.0", "2.0.0", true),
            entry("b", DependencySection::Dependencies, "1.0.0", "2.0.0", false),
            entry("c", DependencySection::Dependencies, "1.0.0", "2.0.0", false),
        ],
        1,
    );
    ws.retain_unselected();
    assert_eq!(ws.entries.len(), 2);
    assert_eq!(ws.selected_index, 1);
}
