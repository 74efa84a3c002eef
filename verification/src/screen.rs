use vstd::prelude::*;

use crate::model::{EntryView, PackageEntry, WorkspaceState};
use crate::text::{chars_of, extend_chars, pad_right, push_padded, string_from_chars};
use crate::version::version_text;

verus! {

/// The row shown for an entry: `[x]` or `[ ]`, the name padded to 28
/// characters, the current version padded to 15, `->`, the latest version
/// padded to 15, and the section label in brackets.
pub open spec fn entry_line_text(e: EntryView) -> Seq<char> {
    (if e.selected {
        "[x]"@
    } else {
        "[ ]"@
    }) + " "@ + pad_right(e.name, 28) + " "@ + pad_right(version_text(e.current_version), 15)
        + " -> "@ + pad_right(version_text(e.latest_version), 15) + " ("@
        + e.section.label_text() + ")"@
}

fn push_text(out: &mut Vec<char>, s: &str)
    ensures
        final(out)@ == old(out)@ + s@,
{
    let cs = chars_of(s);
    extend_chars(out, cs.as_slice());
}

/// The row shown for `entry` in the package list.
pub fn entry_line(entry: &PackageEntry) -> (r: String)
    ensures
        r@ == entry_line_text(entry@),
{
    let mut out: Vec<char> = Vec::new();
    if entry.selected {
        push_text(&mut out, "[x]");
    } else {
        push_text(&mut out, "[ ]");
    }
    push_text(&mut out, " ");
    let name = chars_of(entry.name.as_str());
    push_padded(&mut out, name.as_slice(), 28);
    push_text(&mut out, " ");
    let current = entry.current_version.text_chars();
    push_padded(&mut out, current.as_slice(), 15);
    push_text(&mut out, " -> ");
    let latest = entry.latest_version.text_chars();
    push_padded(&mut out, latest.as_slice(), 15);
    push_text(&mut out, " (");
    push_text(&mut out, entry.section.label());
    push_text(&mut out, ")");
    string_from_chars(out.as_slice())
}

/// The row highlighted in a workspace's list: the cursor, or the last row
/// if the cursor is past it (0 for an empty list).
pub fn highlighted_row(ws: &WorkspaceState) -> (r: usize)
    ensures
        r == (if ws.entries.len() == 0 {
            0
        } else if ws.selected_index < ws.entries.len() {
            ws.selected_index as int
        } else {
            ws.entries.len() - 1
        }),
{
    let last = if ws.entries.len() == 0 {
        0
    } else {
        ws.entries.len() - 1
    };
    if ws.selected_index < last {
        ws.selected_index
    } else {
        last
    }
}

} // verus!
