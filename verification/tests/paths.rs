use npump::paths::{distinct_sorted_paths, path_before, PathPart};
use npump::workspace::{choose_manifests, ManifestChoice};

fn parts(text: &str) -> Vec<PathPart> {
    let mut out = Vec::new();
    if text.starts_with('/') {
        out.push(PathPart::RootDir);
    }
    for (k, piece) in text.split('/').enumerate() {
        match piece {
            "" => {}
            "." if k == 0 => out.push(PathPart::CurDir),
            "." => {}
            ".." => out.push(PathPart::ParentDir),
            name => out.push(PathPart::Normal(name.as_bytes().to_vec())),
        }
    }
    out
}

fn order(texts: &[&str]) -> Vec<usize> {
    let all: Vec<Vec<PathPart>> = texts.iter().map(|t| parts(t)).collect();
    distinct_sorted_paths(&all)
}

#[test]
fn repeated_paths_are_kept_once_at_their_first_position() {
    let texts = ["/r/b/package.json", "/r/a/package.json", "/r//b/package.json", "/r/a/./package.json"];
    assert_eq!(order(&texts), vec![1, 0]);
}

#[test]
fn paths_sort_by_components() {
    let texts = ["/r/b-c/package.json", "/r/b/package.json", "/r/B/package.json", "/r/b/c/package.json"];
    assert_eq!(order(&texts), vec![2, 3, 1, 0]);
}

#[test]
fn kinds_of_components_order_as_std_declares_them() {
    let texts = ["x", "..", ".", "/"];
    assert_eq!(order(&texts), vec![3, 2, 1, 0]);
}

#[test]
fn order_agrees_with_std_path_order() {
    let texts = [
        "/w/packages/zeta/package.json",
        "/w/packages/alpha/package.json",
        "/w/apps/web/package.json",
        "/w/packages/alpha/package.json",
        "/w/packages/alpha-2/package.json",
        "/w/packages/Alpha/package.json",
        "/w/packages/alpha/sub/package.json",
        "/w/../w/x/package.json",
        "/w/packages/\u{e9}t\u{e9}/package.json",
    ];
    let mut expected: Vec<std::path::PathBuf> = texts.iter().map(std::path::PathBuf::from).collect();
    expected.sort();
    expected.dedup();
    let got: Vec<std::path::PathBuf> = order(&texts).into_iter().map(|k| std::path::PathBuf::from(texts[k])).collect();
    assert_eq!(got, expected);
}

#[test]
fn no_paths_gives_nothing() {
    assert!(order(&[]).is_empty());
}

#[test]
fn path_before_compares_names_bytewise() {
    assert!(path_before(&parts("/a/b"), &parts("/a/c")));
    assert!(path_before(&parts("/a"), &parts("/a/b")));
    assert!(!path_before(&parts("/a/b"), &parts("/a//b")));
    assert!(path_before(&parts("/Z"), &parts("/a")));
}

#[test]
fn root_manifest_when_nothing_matched() {
    match choose_manifests(&Vec::new(), Some("proj".to_string())) {
        ManifestChoice::Root(tab) => assert_eq!(tab, "proj"),
        ManifestChoice::Matched(_) => panic!("expected the root manifest"),
    }
    match choose_manifests(&Vec::new(), None) {
        ManifestChoice::Root(tab) => assert_eq!(tab, "workspace"),
        ManifestChoice::Matched(_) => panic!("expected the root manifest"),
    }
    let matched: Vec<Vec<PathPart>> = ["/w/b/package.json", "/w/a/package.json", "/w/b/package.json"]
        .iter()
        .map(|t| parts(t))
        .collect();
    match choose_manifests(&matched, Some("proj".to_string())) {
        ManifestChoice::Matched(positions) => assert_eq!(positions, vec![1, 0]),
        ManifestChoice::Root(_) => panic!("expected the matched manifests"),
    }
}
