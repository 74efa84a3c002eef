use std::path::PathBuf;

use npump::model::PackageEntry;
use npump::screen::{entry_line, highlighted_row};
use npump::session::{applied_status, calculate_column_widths, key_command, keymap, ready_status};
use npump::{extract_first_semver, App, DependencySection, JsonValue, Key, KeyCommand, WorkspaceState};

fn entry(name: &str, current: &str, latest: &str) -> PackageEntry {
    PackageEntry {
        name: name.to_string(),
        section: DependencySection::Dependencies,
        current_spec: format!("^{current}"),
        current_version: extract_first_semver(current).unwrap(),
        latest_version: extract_first_semver(latest).unwrap(),
        selected: false,
    }
}

fn workspace(tab: &str, names: &[&str]) -> WorkspaceState {
    WorkspaceState {
        tab_name: tab.to_string(),
        package_path: PathBuf::from(format!("/w/{tab}/package.json")),
        package_json: JsonValue::Object(Vec::new()),
        entries: names.iter().map(|n| entry(n, "1.0.0", "1.1.0")).collect(),
        selected_index: 0,
    }
}

fn selected(ws: &WorkspaceState) -> Vec<bool> {
    ws.entries.iter().map(|e| e.selected).collect()
}

#[test]
fn down_wraps_to_first_row() {
    let mut ws = workspace("a", &["x", "y", "z"]);
    ws.move_selection_down();
    assert_eq!(ws.selected_index, 1);
    ws.move_selection_down();
    ws.move_selection_down();
    assert_eq!(ws.selected_index, 0);
}

#[test]
fn up_wraps_to_last_row() {
    let mut ws = workspace("a", &["x", "y", "z"]);
    ws.move_selection_up();
    assert_eq!(ws.selected_index, 2);
    ws.move_selection_up();
    assert_eq!(ws.selected_index, 1);
}

#[test]
fn moves_on_empty_list_do_nothing() {
    let mut ws = workspace("a", &[]);
    ws.move_selection_down();
    ws.move_selection_up();
    ws.toggle_selected();
    ws.toggle_all();
    assert_eq!(ws.selected_index, 0);
    assert!(ws.entries.is_empty());
}

#[test]
fn down_then_up_comes_back() {
    for start in 0..4 {
        let mut ws = workspace("a", &["w", "x", "y", "z"]);
        ws.selected_index = start;
        ws.move_selection_down();
        ws.move_selection_up();
        assert_eq!(ws.selected_index, start);
        ws.move_selection_up();
        ws.move_selection_down();
        assert_eq!(ws.selected_index, start);
    }
}

#[test]
fn toggle_flips_row_under_cursor() {
    let mut ws = workspace("a", &["x", "y"]);
    ws.move_selection_down();
    ws.toggle_selected();
    assert_eq!(selected(&ws), vec![false, true]);
    ws.toggle_selected();
    assert_eq!(selected(&ws), vec![false, false]);
}

#[test]
fn toggle_with_cursor_past_end_does_nothing() {
    let mut ws = workspace("a", &["x"]);
    ws.selected_index = 5;
    ws.toggle_selected();
    assert_eq!(selected(&ws), vec![false]);
}

#[test]
fn toggle_all_selects_all_when_some_unselected() {
    let mut ws = workspace("a", &["x", "y", "z"]);
    ws.toggle_selected();
    ws.toggle_all();
    assert_eq!(selected(&ws), vec![true, true, true]);
    ws.toggle_all();
    assert_eq!(selected(&ws), vec![false, false, false]);
}

fn app(workspaces: Vec<WorkspaceState>) -> App {
    App::from_workspaces(workspaces, &Vec::new()).unwrap()
}

#[test]
fn no_workspace_no_app() {
    assert!(App::from_workspaces(Vec::new(), &Vec::new()).is_none());
}

#[test]
fn ready_status_mentions_warnings() {
    assert_eq!(ready_status(&Vec::new()), "Ready");
    let warnings = vec!["a: failed".to_string(), "b: failed".to_string()];
    assert_eq!(ready_status(&warnings), "Ready with 2 warning(s): a: failed");
    let a = App::from_workspaces(vec![workspace("w", &["x"])], &warnings).unwrap();
    assert_eq!(a.status, "Ready with 2 warning(s): a: failed");
    assert_eq!(a.active_workspace, 0);
    assert!(!a.should_quit);
}

#[test]
fn applied_status_text() {
    assert_eq!(applied_status(0, "web"), "No packages selected");
    assert_eq!(applied_status(12, "web"), "Updated 12 package(s) in web");
    let mut a = app(vec![workspace("web", &["x"])]);
    a.report_applied(3);
    assert_eq!(a.status, "Updated 3 package(s) in web");
}

#[test]
fn column_widths_fit_longest_name_and_version() {
    let mut w = workspace("a", &["abc"]);
    w.entries.push(entry("longer-name", "1.0.0", "10.20.30-beta.1"));
    let (n, v) = calculate_column_widths(&vec![w, workspace("b", &["z"])]);
    assert_eq!(n, 11);
    assert_eq!(v, 15);
}

#[test]
fn column_widths_default_to_one() {
    assert_eq!(calculate_column_widths(&vec![workspace("a", &[])]), (1, 1));
    assert_eq!(calculate_column_widths(&vec![workspace("a", &[""])]).0, 0);
}

#[test]
fn refresh_recomputes_widths() {
    let mut a = app(vec![workspace("a", &["abcdef"])]);
    assert_eq!(a.package_name_width, 6);
    a.workspaces[0].entries.clear();
    a.refresh_column_widths();
    assert_eq!((a.package_name_width, a.version_width), (1, 1));
}

#[test]
fn workspace_navigation_wraps() {
    let mut a = app(vec![workspace("a", &[]), workspace("b", &[]), workspace("c", &[])]);
    a.previous_workspace();
    assert_eq!(a.current_workspace().tab_name, "c");
    a.next_workspace();
    assert_eq!(a.active_workspace, 0);
    a.next_workspace();
    a.current_workspace_mut().tab_name = "renamed".to_string();
    assert_eq!(a.workspaces[1].tab_name, "renamed");
}

#[test]
fn keys_map_to_commands() {
    assert_eq!(key_command(Key::Char('q')), KeyCommand::Quit);
    assert_eq!(key_command(Key::Tab), KeyCommand::NextWorkspace);
    assert_eq!(key_command(Key::Char('l')), KeyCommand::NextWorkspace);
    assert_eq!(key_command(Key::BackTab), KeyCommand::PreviousWorkspace);
    assert_eq!(key_command(Key::Char('h')), KeyCommand::PreviousWorkspace);
    assert_eq!(key_command(Key::Down), KeyCommand::Down);
    assert_eq!(key_command(Key::Char('j')), KeyCommand::Down);
    assert_eq!(key_command(Key::Up), KeyCommand::Up);
    assert_eq!(key_command(Key::Char('k')), KeyCommand::Up);
    assert_eq!(key_command(Key::Char(' ')), KeyCommand::ToggleSelected);
    assert_eq!(key_command(Key::Char('a')), KeyCommand::ToggleAll);
    assert_eq!(key_command(Key::Enter), KeyCommand::Apply);
    assert_eq!(key_command(Key::Char('x')), KeyCommand::Nothing);
    assert_eq!(key_command(Key::Other), KeyCommand::Nothing);
}

#[test]
fn handle_key_drives_the_screen() {
    let mut a = app(vec![workspace("a", &["x", "y"]), workspace("b", &["z"])]);
    assert!(!a.handle_key(Key::Char('j')));
    assert_eq!(a.workspaces[0].selected_index, 1);
    assert!(!a.handle_key(Key::Char(' ')));
    assert_eq!(selected(&a.workspaces[0]), vec![false, true]);
    assert!(!a.handle_key(Key::Tab));
    assert_eq!(a.active_workspace, 1);
    assert!(!a.handle_key(Key::Char('a')));
    assert_eq!(selected(&a.workspaces[1]), vec![true]);
    assert!(!a.handle_key(Key::BackTab));
    assert_eq!(a.active_workspace, 0);
    assert!(!a.handle_key(Key::Up));
    assert_eq!(a.workspaces[0].selected_index, 0);
    assert!(a.handle_key(Key::Enter));
    assert!(!a.should_quit);
    assert!(!a.handle_key(Key::Char('q')));
    assert!(a.should_quit);
}

#[test]
fn app_methods_act_on_active_workspace() {
    let mut a = app(vec![workspace("a", &["x"]), workspace("b", &["y", "z"])]);
    a.next_workspace();
    a.move_selection_down();
    a.toggle_selected();
    a.move_selection_up();
    a.toggle_all();
    assert_eq!(a.workspaces[1].selected_index, 0);
    assert_eq!(selected(&a.workspaces[1]), vec![true, true]);
    assert_eq!(selected(&a.workspaces[0]), vec![false]);
}

#[test]
fn entry_line_pads_columns() {
    let mut e = entry("react", "18.2.0", "19.0.0");
    e.section = DependencySection::DevDependencies;
    assert_eq!(
        entry_line(&e),
        format!("[ ] {:<28} {:<15} -> {:<15} (dev)", "react", "18.2.0", "19.0.0")
    );
    e.selected = true;
    assert!(entry_line(&e).starts_with("[x] react "));
}

#[test]
fn entry_line_matches_semver_display_padding() {
    let e = entry("a-very-long-package-name-that-overflows", "1.0.0-alpha.1", "2.0.0");
    let cur = semver::Version::parse("1.0.0-alpha.1").unwrap();
    let lat = semver::Version::parse("2.0.0").unwrap();
    assert_eq!(
        entry_line(&e),
        format!("[ ] {:<28} {:<15} -> {:<15} ({})", e.name, cur, lat, "dep")
    );
}

#[test]
fn highlighted_row_is_clamped() {
    let mut ws = workspace("a", &["x", "y"]);
    ws.selected_index = 7;
    assert_eq!(highlighted_row(&ws), 1);
    ws.selected_index = 0;
    assert_eq!(highlighted_row(&ws), 0);
    assert_eq!(highlighted_row(&workspace("b", &[])), 0);
}

#[test]
fn keymap_lists_bindings() {
    let k = keymap();
    assert_eq!(k.len(), 8);
    assert_eq!(k[0], ("Tab/l", "next ws"));
    assert_eq!(k[7], ("q", "quit"));
}

#[test]
fn section_keys_and_labels() {
    let all = DependencySection::all();
    let keys: Vec<&str> = all.iter().map(|s| s.key()).collect();
    assert_eq!(keys, vec!["dependencies", "devDependencies", "peerDependencies", "optionalDependencies"]);
    let labels: Vec<&str> = all.iter().map(|s| s.label()).collect();
    assert_eq!(labels, vec!["dep", "dev", "peer", "opt"]);
}

#[test]
fn keys_other_than_down_take_any_cursor() {
    let mut a = app(vec![workspace("a", &["x", "y"]), workspace("b", &["z"])]);
    a.workspaces[0].selected_index = usize::MAX;
    assert!(!a.handle_key(Key::Tab));
    assert_eq!(a.active_workspace, 1);
    assert!(!a.handle_key(Key::BackTab));
    assert_eq!(a.active_workspace, 0);
    assert!(a.handle_key(Key::Enter));
    assert!(!a.handle_key(Key::Char('q')));
    assert!(a.should_quit);
    assert_eq!(a.workspaces[0].selected_index, usize::MAX);
}
