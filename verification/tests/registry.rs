use npump::registry::interpret_reply;
use npump::{extract_first_semver, registry_url, JsonMember, JsonValue, Registry, RegistryReply};

fn body(version: Option<&str>) -> JsonValue {
    let mut members = vec![JsonMember { key: "name".to_string(), value: JsonValue::Str("x".to_string()) }];
    if let Some(v) = version {
        members.push(JsonMember { key: "version".to_string(), value: JsonValue::Str(v.to_string()) });
    }
    JsonValue::Object(members)
}

fn ok(status: u16, version: Option<&str>) -> RegistryReply {
    RegistryReply::Response { status, body: Some(body(version)) }
}

#[test]
fn url_for_plain_name() {
    assert_eq!(registry_url("react"), "https://registry.npmjs.org/react/latest");
}

#[test]
fn url_encodes_scoped_name() {
    assert_eq!(registry_url("@types/node"), "https://registry.npmjs.org/%40types%2Fnode/latest");
    assert_eq!(registry_url("lodash.get"), "https://registry.npmjs.org/lodash%2Eget/latest");
    assert_eq!(registry_url("é"), "https://registry.npmjs.org/%C3%A9/latest");
}

#[test]
fn found_release() {
    let r = interpret_reply("x", "u", ok(200, Some("2.3.4-beta.1")));
    assert_eq!(r.unwrap().unwrap().to_string(), "2.3.4-beta.1");
}

#[test]
fn not_found_is_no_release() {
    assert!(interpret_reply("x", "u", RegistryReply::Response { status: 404, body: None }).unwrap().is_none());
}

#[test]
fn missing_version_field_is_no_release() {
    assert!(interpret_reply("x", "u", ok(200, None)).unwrap().is_none());
    let numeric = JsonValue::Object(vec![JsonMember { key: "version".to_string(), value: JsonValue::Number("1".to_string()) }]);
    assert!(interpret_reply("x", "u", RegistryReply::Response { status: 200, body: Some(numeric) }).unwrap().is_none());
}

#[test]
fn unreachable_registry() {
    assert_eq!(
        interpret_reply("x", "https://r/x/latest", RegistryReply::Unreachable).unwrap_err(),
        "request failed: https://r/x/latest"
    );
}

#[test]
fn error_status() {
    assert_eq!(interpret_reply("x", "u", ok(500, Some("1.0.0"))).unwrap_err(), "registry returned error for x");
    assert_eq!(interpret_reply("x", "u", ok(403, None)).unwrap_err(), "registry returned error for x");
}

#[test]
fn invalid_body() {
    assert_eq!(
        interpret_reply("x", "u", RegistryReply::Response { status: 200, body: None }).unwrap_err(),
        "invalid registry response for x"
    );
}

#[test]
fn invalid_version() {
    assert_eq!(
        interpret_reply("x", "u", ok(200, Some("v1"))).unwrap_err(),
        "invalid latest version 'v1' for x"
    );
}

#[test]
fn redirect_status_reads_body() {
    assert_eq!(interpret_reply("x", "u", ok(304, Some("1.0.0"))).unwrap().unwrap().to_string(), "1.0.0");
}

#[test]
fn registry_remembers_answers() {
    let mut reg = Registry::new();
    assert!(reg.cached("a").is_none());
    let got = reg.record_reply("a", "u", ok(200, Some("1.2.3")));
    assert_eq!(got.unwrap().to_string(), "1.2.3");
    assert_eq!(reg.cached("a").unwrap().unwrap().to_string(), "1.2.3");
    assert!(reg.cached("b").is_none());
    assert!(reg.record_reply("b", "u", RegistryReply::Response { status: 404, body: None }).is_none());
    assert!(reg.cached("b").unwrap().is_none());
    assert!(reg.take_warnings().is_empty());
}

#[test]
fn failed_lookup_is_remembered_and_warned() {
    let mut reg = Registry::new();
    assert!(reg.record_reply("left-pad", "https://r", RegistryReply::Unreachable).is_none());
    assert!(reg.cached("left-pad").unwrap().is_none());
    reg.record_reply("b", "u", ok(200, Some("nope")));
    assert_eq!(
        reg.take_warnings(),
        vec![
            "left-pad: failed to fetch latest version (request failed: https://r)".to_string(),
            "b: failed to fetch latest version (invalid latest version 'nope' for b)".to_string(),
        ]
    );
    assert!(reg.take_warnings().is_empty());
}

#[test]
fn later_answer_replaces_earlier() {
    let mut reg = Registry::new();
    reg.record_reply("a", "u", ok(200, Some("1.0.0")));
    reg.record_reply("a", "u", ok(200, Some("2.0.0")));
    assert_eq!(reg.cached("a").unwrap().unwrap().to_string(), "2.0.0");
}

#[test]
fn parsed_versions_are_semver() {
    let v = extract_first_semver("1.2.3").unwrap();
    assert_eq!((v.major(), v.minor(), v.patch()), (1, 2, 3));
}

fn lookup(reg: &mut Registry, name: &str, reply: RegistryReply, requests: &mut usize) -> Option<String> {
    match reg.begin_lookup(name) {
        npump::registry::Lookup::Answered(answer) => answer.map(|v| v.to_string()),
        npump::registry::Lookup::Ask(url) => {
            *requests += 1;
            assert_eq!(url, registry_url(name));
            reg.record_reply(name, &url, reply).map(|v| v.to_string())
        }
    }
}

#[test]
fn repeated_lookups_are_answered_from_memory() {
    let mut reg = Registry::new();
    let mut requests = 0;
    assert_eq!(lookup(&mut reg, "a", ok(200, Some("1.2.3")), &mut requests), Some("1.2.3".to_string()));
    assert_eq!(lookup(&mut reg, "b", RegistryReply::Unreachable, &mut requests), None);
    assert_eq!(lookup(&mut reg, "c", ok(404, None), &mut requests), None);
    assert_eq!(requests, 3);
    // Later lookups send nothing and give the first answers, whatever the
    // registry would now say.
    assert_eq!(lookup(&mut reg, "b", ok(200, Some("9.9.9")), &mut requests), None);
    assert_eq!(lookup(&mut reg, "a", ok(200, Some("2.0.0")), &mut requests), Some("1.2.3".to_string()));
    assert_eq!(lookup(&mut reg, "c", ok(200, Some("1.0.0")), &mut requests), None);
    assert_eq!(lookup(&mut reg, "b", RegistryReply::Unreachable, &mut requests), None);
    assert_eq!(requests, 3);
    let warnings = reg.take_warnings();
    assert_eq!(warnings, vec!["b: failed to fetch latest version (request failed: https://registry.npmjs.org/b/latest)".to_string()]);
}
