use vstd::prelude::*;

use crate::model::{
    cursor_after_down, cursor_after_up, cursor_in_range, entries_after_toggle,
    lemma_cursor_round_trip, entries_after_toggle_all, next_index,
    previous_index, EntryView, WorkspaceState,
};
use crate::text::{chars_of, decimal, decimal_chars, extend_chars, string_from_chars};
use crate::version::version_text;
use crate::workspace::entry_views;

verus! {

/// The state of the selection screen: the workspaces shown as tabs, the
/// active one, the widths of the name and version columns, the status line
/// and whether the user asked to quit.
#[derive(Debug)]
pub struct App {
    pub workspaces: Vec<WorkspaceState>,
    pub active_workspace: usize,
    pub package_name_width: usize,
    pub version_width: usize,
    pub status: String,
    pub should_quit: bool,
}

// ---------------------------------------------------------------------------
// Column widths
// ---------------------------------------------------------------------------

/// The entries of all workspaces, workspace by workspace.
pub open spec fn all_entries(ws: Seq<WorkspaceState>) -> Seq<EntryView>
    decreases ws.len(),
{
    if ws.len() == 0 {
        Seq::empty()
    } else {
        all_entries(ws.drop_last()) + entry_views(ws.last().entries@)
    }
}

pub open spec fn max_nat(a: nat, b: nat) -> nat {
    if a >= b {
        a
    } else {
        b
    }
}

/// The longest package name among `es`, in characters (0 if there is none).
pub open spec fn longest_name(es: Seq<EntryView>) -> nat
    decreases es.len(),
{
    if es.len() == 0 {
        0
    } else {
        max_nat(longest_name(es.drop_last()), es.last().name.len())
    }
}

/// The longest version text, current or latest, among `es`, in characters
/// (0 if there is none).
pub open spec fn longest_version(es: Seq<EntryView>) -> nat
    decreases es.len(),
{
    if es.len() == 0 {
        0
    } else {
        max_nat(
            longest_version(es.drop_last()),
            max_nat(
                version_text(es.last().current_version).len(),
                version_text(es.last().latest_version).len(),
            ),
        )
    }
}

/// The width of the name column: the longest name over all workspaces, or
/// 1 when there are no entries at all.
pub open spec fn name_column_width(ws: Seq<WorkspaceState>) -> nat {
    if all_entries(ws).len() == 0 {
        1
    } else {
        longest_name(all_entries(ws))
    }
}

/// The width of the version columns: the longest version text over all
/// workspaces, or 1 when there are no entries at all.
pub open spec fn version_column_width(ws: Seq<WorkspaceState>) -> nat {
    if all_entries(ws).len() == 0 {
        1
    } else {
        longest_version(all_entries(ws))
    }
}

/// The widths of the name column and of the version columns.
pub fn calculate_column_widths(workspaces: &Vec<WorkspaceState>) -> (r: (usize, usize))
    ensures
        r.0 == name_column_width(workspaces@),
        r.1 == version_column_width(workspaces@),
{
    let mut name_width: usize = 0;
    let mut version_width: usize = 0;
    let mut any = false;
    let mut w: usize = 0;
    while w < workspaces.len()
        invariant
            w <= workspaces@.len(),
            any == (all_entries(workspaces@.take(w as int)).len() > 0),
            name_width == longest_name(all_entries(workspaces@.take(w as int))),
            version_width == longest_version(all_entries(workspaces@.take(w as int))),
        decreases workspaces@.len() - w,
    {
        let ghost done = all_entries(workspaces@.take(w as int));
        assert(workspaces@.take(w + 1).drop_last() =~= workspaces@.take(w as int));
        let entries = &workspaces[w].entries;
        let ghost es = entry_views(entries@);
        assert(all_entries(workspaces@.take(w + 1)) == done + es);
        let mut i: usize = 0;
        while i < entries.len()
            invariant
                i <= entries@.len(),
                es == entry_views(entries@),
                any == ((done + es.take(i as int)).len() > 0),
                name_width == longest_name(done + es.take(i as int)),
                version_width == longest_version(done + es.take(i as int)),
            decreases entries@.len() - i,
        {
            assert((done + es.take(i + 1)).drop_last() =~= done + es.take(i as int));
            assert((done + es.take(i + 1)).last() == es[i as int]);
            let e = &entries[i];
            let n = chars_of(e.name.as_str()).len();
            if n > name_width {
                name_width = n;
            }
            let c = e.current_version.text_chars().len();
            let l = e.latest_version.text_chars().len();
            let v = if c >= l {
                c
            } else {
                l
            };
            if v > version_width {
                version_width = v;
            }
            any = true;
            i = i + 1;
        }
        assert(es.take(entries@.len() as int) =~= es);
        w = w + 1;
    }
    assert(workspaces@.take(workspaces@.len() as int) =~= workspaces@);
    if !any {
        (1, 1)
    } else {
        (name_width, version_width)
    }
}

// ---------------------------------------------------------------------------
// Status lines
// ---------------------------------------------------------------------------

/// The status shown once the workspaces are loaded: `Ready`, or, when
/// lookups failed, how many warnings there are and the first of them.
pub open spec fn ready_status_text(warnings: Seq<Seq<char>>) -> Seq<char> {
    if warnings.len() == 0 {
        "Ready"@
    } else {
        "Ready with "@ + decimal(warnings.len()) + " warning(s): "@ + warnings[0]
    }
}

fn push_text(out: &mut Vec<char>, s: &str)
    ensures
        final(out)@ == old(out)@ + s@,
{
    let cs = chars_of(s);
    extend_chars(out, cs.as_slice());
}

pub fn ready_status(warnings: &Vec<String>) -> (r: String)
    ensures
        r@ == ready_status_text(warnings@.map_values(|w: String| w@)),
{
    if warnings.len() == 0 {
        return "Ready".to_owned();
    }
    let mut out: Vec<char> = Vec::new();
    push_text(&mut out, "Ready with ");
    let n = decimal_chars(warnings.len() as u64);
    extend_chars(&mut out, n.as_slice());
    push_text(&mut out, " warning(s): ");
    push_text(&mut out, warnings[0].as_str());
    string_from_chars(out.as_slice())
}

/// The status after applying the selected updates of workspace `name`.
pub open spec fn applied_status_text(updated: nat, name: Seq<char>) -> Seq<char> {
    if updated == 0 {
        "No packages selected"@
    } else {
        "Updated "@ + decimal(updated) + " package(s) in "@ + name
    }
}

pub fn applied_status(updated: usize, name: &str) -> (r: String)
    ensures
        r@ == applied_status_text(updated as nat, name@),
{
    if updated == 0 {
        return "No packages selected".to_owned();
    }
    let mut out: Vec<char> = Vec::new();
    push_text(&mut out, "Updated ");
    let n = decimal_chars(updated as u64);
    extend_chars(&mut out, n.as_slice());
    push_text(&mut out, " package(s) in ");
    push_text(&mut out, name);
    string_from_chars(out.as_slice())
}


// ---------------------------------------------------------------------------
// Keys and what they do
// ---------------------------------------------------------------------------

/// A key the user pressed.
#[derive(Clone, Copy, Debug, PartialEq, Eq, Structural)]
pub enum Key {
    Char(char),
    Tab,
    BackTab,
    Up,
    Down,
    Enter,
    Other,
}

/// What a key asks of the screen.
#[derive(Clone, Copy, Debug, PartialEq, Eq, Structural)]
pub enum KeyCommand {
    Quit,
    NextWorkspace,
    PreviousWorkspace,
    Down,
    Up,
    ToggleSelected,
    ToggleAll,
    Apply,
    Nothing,
}

/// The command bound to each key: `q` quits; Tab and `l` go to the next
/// workspace, Shift+Tab and `h` to the previous one; Down and `j`, Up and
/// `k` move the cursor; Space toggles the entry under the cursor, `a` all
/// entries; Enter applies the selected updates.
pub open spec fn command_for(key: Key) -> KeyCommand {
    match key {
        Key::Char('q') => KeyCommand::Quit,
        Key::Tab | Key::Char('l') => KeyCommand::NextWorkspace,
        Key::BackTab | Key::Char('h') => KeyCommand::PreviousWorkspace,
        Key::Down | Key::Char('j') => KeyCommand::Down,
        Key::Up | Key::Char('k') => KeyCommand::Up,
        Key::Char(' ') => KeyCommand::ToggleSelected,
        Key::Char('a') => KeyCommand::ToggleAll,
        Key::Enter => KeyCommand::Apply,
        _ => KeyCommand::Nothing,
    }
}

pub fn key_command(key: Key) -> (r: KeyCommand)
    ensures
        r == command_for(key),
{
    match key {
        Key::Char('q') => KeyCommand::Quit,
        Key::Tab | Key::Char('l') => KeyCommand::NextWorkspace,
        Key::BackTab | Key::Char('h') => KeyCommand::PreviousWorkspace,
        Key::Down | Key::Char('j') => KeyCommand::Down,
        Key::Up | Key::Char('k') => KeyCommand::Up,
        Key::Char(' ') => KeyCommand::ToggleSelected,
        Key::Char('a') => KeyCommand::ToggleAll,
        Key::Enter => KeyCommand::Apply,
        _ => KeyCommand::Nothing,
    }
}

/// The key bindings shown at the bottom of the screen, as (keys, action).
pub fn keymap() -> (r: Vec<(&'static str, &'static str)>)
    ensures
        r@.len() == 8,
        r@[0].0@ == "Tab/l"@ && r@[0].1@ == "next ws"@,
        r@[1].0@ == "Shift+Tab/h"@ && r@[1].1@ == "prev ws"@,
        r@[2].0@ == "Up/k"@ && r@[2].1@ == "up"@,
        r@[3].0@ == "Down/j"@ && r@[3].1@ == "down"@,
        r@[4].0@ == "Space"@ && r@[4].1@ == "toggle"@,
        r@[5].0@ == "a"@ && r@[5].1@ == "all"@,
        r@[6].0@ == "Enter"@ && r@[6].1@ == "apply"@,
        r@[7].0@ == "q"@ && r@[7].1@ == "quit"@,
{
    let mut r: Vec<(&'static str, &'static str)> = Vec::new();
    r.push(("Tab/l", "next ws"));
    r.push(("Shift+Tab/h", "prev ws"));
    r.push(("Up/k", "up"));
    r.push(("Down/j", "down"));
    r.push(("Space", "toggle"));
    r.push(("a", "all"));
    r.push(("Enter", "apply"));
    r.push(("q", "quit"));
    r
}

// ---------------------------------------------------------------------------
// The screen state
// ---------------------------------------------------------------------------

/// `new` is `old` with at most the active workspace changed.
pub open spec fn others_kept(old: App, new: App) -> bool {
    &&& new.workspaces.len() == old.workspaces.len()
    &&& forall|j: int|
        0 <= j < old.workspaces.len() && j != old.active_workspace ==> #[trigger] new.workspaces@[j]
            == old.workspaces@[j]
    &&& new.active_workspace == old.active_workspace
    &&& new.package_name_width == old.package_name_width
    &&& new.version_width == old.version_width
    &&& new.status == old.status
    &&& new.should_quit == old.should_quit
}

/// `new` is what command `cmd` makes of the screen `old`. Applying the
/// selected updates writes a file, so it is done by the caller; on the
/// screen state itself it changes nothing.
pub open spec fn key_effect(old: App, new: App, cmd: KeyCommand) -> bool {
    let a = old.active_workspace as int;
    let ow = old.workspaces@[a];
    let nw = new.workspaces@[a];
    match cmd {
        KeyCommand::Quit => new == (App { should_quit: true, ..old }),
        KeyCommand::NextWorkspace => new == (App {
            active_workspace: next_index(a, old.workspaces.len() as int) as usize,
            ..old
        }),
        KeyCommand::PreviousWorkspace => new == (App {
            active_workspace: previous_index(a, old.workspaces.len() as int) as usize,
            ..old
        }),
        KeyCommand::Down => others_kept(old, new) && nw.same_except_cursor(ow) && nw.selected_index
            == cursor_after_down(ow),
        KeyCommand::Up => others_kept(old, new) && nw.same_except_cursor(ow) && nw.selected_index
            == cursor_after_up(ow),
        KeyCommand::ToggleSelected => others_kept(old, new) && nw.same_except_entries(ow)
            && nw.entries@ == entries_after_toggle(ow),
        KeyCommand::ToggleAll => others_kept(old, new) && nw.same_except_entries(ow)
            && nw.entries@ == entries_after_toggle_all(ow),
        KeyCommand::Apply => new == old,
        KeyCommand::Nothing => new == old,
    }
}

impl App {
    /// There is at least one workspace, the active one is one of them, and
    /// every workspace's cursor is in range.
    pub open spec fn well_formed(self) -> bool {
        &&& self.workspaces.len() > 0
        &&& self.active_workspace < self.workspaces.len()
        &&& forall|i: int|
            0 <= i < self.workspaces.len() ==> cursor_in_range(#[trigger] self.workspaces@[i])
    }

    /// What the keys need: the active workspace is one of the workspaces,
    /// and its cursor can move down without overflowing.
    pub open spec fn can_handle_keys(self) -> bool {
        &&& self.workspaces.len() > 0
        &&& self.active_workspace < self.workspaces.len()
        &&& self.workspaces@[self.active_workspace as int].entries.len() > 0
            ==> self.workspaces@[self.active_workspace as int].selected_index < usize::MAX
    }

    /// The screen for the loaded workspaces: the first one active, the
    /// column widths fitted to all entries, and the status telling whether
    /// lookups failed. Nothing if there is no workspace.
    pub fn from_workspaces(workspaces: Vec<WorkspaceState>, warnings: &Vec<String>) -> (r: Option<
        App,
    >)
        ensures
            workspaces.len() == 0 <==> r is None,
            r matches Some(app) ==> {
                &&& app.workspaces@ == workspaces@
                &&& app.active_workspace == 0
                &&& app.package_name_width == name_column_width(workspaces@)
                &&& app.version_width == version_column_width(workspaces@)
                &&& app.status@ == ready_status_text(warnings@.map_values(|w: String| w@))
                &&& !app.should_quit
            },
    {
        if workspaces.len() == 0 {
            return None;
        }
        let status = ready_status(warnings);
        let (package_name_width, version_width) = calculate_column_widths(&workspaces);
        Some(
            App {
                workspaces,
                active_workspace: 0,
                package_name_width,
                version_width,
                status,
                should_quit: false,
            },
        )
    }

    /// Fits the column widths to the entries as they are now.
    pub fn refresh_column_widths(&mut self)
        ensures
            final(self).workspaces@ == old(self).workspaces@,
            final(self).active_workspace == old(self).active_workspace,
            final(self).status == old(self).status,
            final(self).should_quit == old(self).should_quit,
            final(self).package_name_width == name_column_width(old(self).workspaces@),
            final(self).version_width == version_column_width(old(self).workspaces@),
    {
        let (a, b) = calculate_column_widths(&self.workspaces);
        self.package_name_width = a;
        self.version_width = b;
    }

    pub fn current_workspace(&self) -> (r: &WorkspaceState)
        requires
            self.active_workspace < self.workspaces.len(),
        ensures
            *r == self.workspaces@[self.active_workspace as int],
    {
        &self.workspaces[self.active_workspace]
    }

    pub fn current_workspace_mut(&mut self) -> (r: &mut WorkspaceState)
        requires
            old(self).active_workspace < old(self).workspaces.len(),
        ensures
            *r == old(self).workspaces@[old(self).active_workspace as int],
            final(self).workspaces@ == old(self).workspaces@.update(
                old(self).active_workspace as int,
                *final(r),
            ),
            final(self).active_workspace == old(self).active_workspace,
            final(self).package_name_width == old(self).package_name_width,
            final(self).version_width == old(self).version_width,
            final(self).status == old(self).status,
            final(self).should_quit == old(self).should_quit,
    {
        &mut self.workspaces[self.active_workspace]
    }

    /// Makes the next workspace active, from the last to the first.
    pub fn next_workspace(&mut self)
        requires
            old(self).workspaces.len() > 0,
            old(self).active_workspace < usize::MAX,
        ensures
            final(self).active_workspace == next_index(
                old(self).active_workspace as int,
                old(self).workspaces.len() as int,
            ),
            final(self).workspaces == old(self).workspaces,
            final(self).status == old(self).status,
            final(self).should_quit == old(self).should_quit,
            final(self).package_name_width == old(self).package_name_width,
            final(self).version_width == old(self).version_width,
    {
        self.active_workspace = (self.active_workspace + 1) % self.workspaces.len();
    }

    /// Makes the previous workspace active, from the first to the last.
    pub fn previous_workspace(&mut self)
        requires
            old(self).active_workspace == 0 ==> old(self).workspaces.len() > 0,
        ensures
            final(self).active_workspace == previous_index(
                old(self).active_workspace as int,
                old(self).workspaces.len() as int,
            ),
            final(self).workspaces == old(self).workspaces,
            final(self).status == old(self).status,
            final(self).should_quit == old(self).should_quit,
            final(self).package_name_width == old(self).package_name_width,
            final(self).version_width == old(self).version_width,
    {
        self.active_workspace = if self.active_workspace == 0 {
            self.workspaces.len() - 1
        } else {
            self.active_workspace - 1
        };
    }

    /// Moves the cursor of the active workspace down.
    pub fn move_selection_down(&mut self)
        requires
            old(self).can_handle_keys(),
        ensures
            key_effect(*old(self), *final(self), KeyCommand::Down),
    {
        self.current_workspace_mut().move_selection_down();
    }

    /// Moves the cursor of the active workspace up.
    pub fn move_selection_up(&mut self)
        requires
            old(self).active_workspace < old(self).workspaces.len(),
        ensures
            key_effect(*old(self), *final(self), KeyCommand::Up),
    {
        self.current_workspace_mut().move_selection_up();
    }

    /// Toggles the entry under the cursor of the active workspace.
    pub fn toggle_selected(&mut self)
        requires
            old(self).active_workspace < old(self).workspaces.len(),
        ensures
            key_effect(*old(self), *final(self), KeyCommand::ToggleSelected),
    {
        self.current_workspace_mut().toggle_selected();
    }

    /// Toggles all entries of the active workspace together.
    pub fn toggle_all(&mut self)
        requires
            old(self).active_workspace < old(self).workspaces.len(),
        ensures
            key_effect(*old(self), *final(self), KeyCommand::ToggleAll),
    {
        self.current_workspace_mut().toggle_all();
    }

    /// Does what `key` asks; returns whether it asks for the selected
    /// updates to be applied, which the caller does.
    pub fn handle_key(&mut self, key: Key) -> (apply: bool)
        requires
            old(self).active_workspace < old(self).workspaces.len(),
            command_for(key) == KeyCommand::Down ==> old(self).can_handle_keys(),
        ensures
            apply == (command_for(key) == KeyCommand::Apply),
            key_effect(*old(self), *final(self), command_for(key)),
    {
        match key_command(key) {
            KeyCommand::Quit => {
                self.should_quit = true;
            },
            KeyCommand::NextWorkspace => self.next_workspace(),
            KeyCommand::PreviousWorkspace => self.previous_workspace(),
            KeyCommand::Down => self.move_selection_down(),
            KeyCommand::Up => self.move_selection_up(),
            KeyCommand::ToggleSelected => self.toggle_selected(),
            KeyCommand::ToggleAll => self.toggle_all(),
            KeyCommand::Apply => {
                return true;
            },
            KeyCommand::Nothing => {},
        }
        false
    }

    /// Sets the status after `updated` entries of the active workspace
    /// were applied.
    pub fn report_applied(&mut self, updated: usize)
        requires
            old(self).active_workspace < old(self).workspaces.len(),
        ensures
            final(self).status@ == applied_status_text(
                updated as nat,
                old(self).workspaces@[old(self).active_workspace as int].tab_name@,
            ),
            final(self).workspaces@ == old(self).workspaces@,
            final(self).active_workspace == old(self).active_workspace,
            final(self).package_name_width == old(self).package_name_width,
            final(self).version_width == old(self).version_width,
            final(self).should_quit == old(self).should_quit,
    {
        let status = applied_status(updated, self.workspaces[self.active_workspace].tab_name.as_str());
        self.status = status;
    }
}


/// A well-formed screen can take any key.
pub proof fn lemma_well_formed_takes_keys(app: App)
    requires
        app.well_formed(),
    ensures
        app.can_handle_keys(),
{
    assert(cursor_in_range(app.workspaces@[app.active_workspace as int]));
}

/// Every key keeps the screen well-formed: the active workspace stays one
/// of the workspaces and every cursor stays on its list.
pub proof fn lemma_keys_keep_well_formed(old: App, new: App, key: Key)
    requires
        old.well_formed(),
        key_effect(old, new, command_for(key)),
    ensures
        new.well_formed(),
{
    let a = old.active_workspace as int;
    let len = old.workspaces.len() as int;
    lemma_cursor_round_trip(a, len);
    let ow = old.workspaces@[a];
    assert(cursor_in_range(ow));
    if ow.entries.len() > 0 {
        lemma_cursor_round_trip(ow.selected_index as int, ow.entries.len() as int);
    }
    match command_for(key) {
        KeyCommand::Down | KeyCommand::Up | KeyCommand::ToggleSelected | KeyCommand::ToggleAll => {
            assert forall|i: int| 0 <= i < new.workspaces.len() implies cursor_in_range(
                #[trigger] new.workspaces@[i],
            ) by {
                if i != a {
                    assert(new.workspaces@[i] == old.workspaces@[i]);
                }
            }
        },
        _ => {},
    }
}

/// Every name fits in the name column and every version in the version
/// columns.
pub proof fn lemma_columns_fit(ws: Seq<WorkspaceState>, i: int)
    requires
        0 <= i < all_entries(ws).len(),
    ensures
        all_entries(ws)[i].name.len() <= name_column_width(ws),
        version_text(all_entries(ws)[i].current_version).len() <= version_column_width(ws),
        version_text(all_entries(ws)[i].latest_version).len() <= version_column_width(ws),
{
    lemma_longest_bounds(all_entries(ws), i);
}

proof fn lemma_longest_bounds(es: Seq<EntryView>, i: int)
    requires
        0 <= i < es.len(),
    ensures
        es[i].name.len() <= longest_name(es),
        version_text(es[i].current_version).len() <= longest_version(es),
        version_text(es[i].latest_version).len() <= longest_version(es),
    decreases es.len(),
{
    if i < es.len() - 1 {
        assert(es.drop_last()[i] == es[i]);
        lemma_longest_bounds(es.drop_last(), i);
    }
}

/// The screen made from loaded workspaces, whose cursors all start at 0,
/// is well-formed.
pub proof fn lemma_loaded_screen_well_formed(app: App)
    requires
        app.workspaces.len() > 0,
        app.active_workspace == 0,
        forall|i: int| 0 <= i < app.workspaces.len() ==> (#[trigger] app.workspaces@[i]).selected_index == 0,
    ensures
        app.well_formed(),
{
    assert forall|i: int| 0 <= i < app.workspaces.len() implies cursor_in_range(
        #[trigger] app.workspaces@[i],
    ) by {
        assert(app.workspaces@[i].selected_index == 0);
    }
}

} // verus!
