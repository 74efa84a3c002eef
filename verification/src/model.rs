use vstd::prelude::*;

use crate::json::{
    dependency_value, json_field, json_well_formed, object_member_value, set_dependency, JsonValue,
};
use crate::semver_pattern::{
    digit_run_end, find_version_span, first_version_span, is_decimal_digit, is_identifier_char,
    lemma_digit_run_end_at, lemma_first_match_at, lemma_identifier_run_end_at, match_end_at,
    optional_part_end,
};
use crate::text::{
    chars_of, decimal, extend_chars, is_white_space, lemma_decimal_ascii_digits,
    string_from_chars, trim_chars, trim_end, trim_start, trimmed,
};
use crate::version::{
    parse_semver, semver_parse, version_shape, version_text, SemVersion, VersionView,
};

verus! {

/// The sections of a `package.json` that list dependencies.
#[derive(Clone, Copy, Debug, PartialEq, Eq, Structural)]
pub enum DependencySection {
    Dependencies,
    DevDependencies,
    PeerDependencies,
    OptionalDependencies,
}

impl DependencySection {
    /// The manifest key of the section.
    pub open spec fn key_text(self) -> Seq<char> {
        match self {
            DependencySection::Dependencies => "dependencies"@,
            DependencySection::DevDependencies => "devDependencies"@,
            DependencySection::PeerDependencies => "peerDependencies"@,
            DependencySection::OptionalDependencies => "optionalDependencies"@,
        }
    }

    /// The short label shown next to a dependency.
    pub open spec fn label_text(self) -> Seq<char> {
        match self {
            DependencySection::Dependencies => "dep"@,
            DependencySection::DevDependencies => "dev"@,
            DependencySection::PeerDependencies => "peer"@,
            DependencySection::OptionalDependencies => "opt"@,
        }
    }

    /// Every section, in the order they are read.
    /// Different sections have different keys.
    pub proof fn lemma_key_text_injective(self, other: Self)
        ensures
            self.key_text() == other.key_text() ==> self == other,
    {
        reveal_strlit("dependencies");
        reveal_strlit("devDependencies");
        reveal_strlit("peerDependencies");
        reveal_strlit("optionalDependencies");
        assert("dependencies"@.len() == 12);
        assert("devDependencies"@.len() == 15);
        assert("peerDependencies"@.len() == 16);
        assert("optionalDependencies"@.len() == 20);
        if self.key_text() == other.key_text() {
            assert(self.key_text().len() == other.key_text().len());
        }
    }

    pub fn all() -> (r: [Self; 4])
        ensures
            r@ == seq![
                DependencySection::Dependencies,
                DependencySection::DevDependencies,
                DependencySection::PeerDependencies,
                DependencySection::OptionalDependencies,
            ],
    {
        let r = [
            DependencySection::Dependencies,
            DependencySection::DevDependencies,
            DependencySection::PeerDependencies,
            DependencySection::OptionalDependencies,
        ];
        assert(r@ =~= seq![
            DependencySection::Dependencies,
            DependencySection::DevDependencies,
            DependencySection::PeerDependencies,
            DependencySection::OptionalDependencies,
        ]);
        r
    }

    pub fn key(self) -> (r: &'static str)
        ensures
            r@ == self.key_text(),
    {
        match self {
            DependencySection::Dependencies => "dependencies",
            DependencySection::DevDependencies => "devDependencies",
            DependencySection::PeerDependencies => "peerDependencies",
            DependencySection::OptionalDependencies => "optionalDependencies",
        }
    }

    pub fn label(self) -> (r: &'static str)
        ensures
            r@ == self.label_text(),
    {
        match self {
            DependencySection::Dependencies => "dep",
            DependencySection::DevDependencies => "dev",
            DependencySection::PeerDependencies => "peer",
            DependencySection::OptionalDependencies => "opt",
        }
    }
}

/// The version found in a specifier: the leftmost match of the version
/// pattern in the trimmed specifier, as `semver` parses it.
pub open spec fn specifier_version(spec: Seq<char>) -> Option<VersionView> {
    match first_version_span(trimmed(spec)) {
        Some((b, e)) => semver_parse(trimmed(spec).subrange(b, e)),
        None => None,
    }
}

/// The first version written in a specifier such as `^1.2.3` or
/// `>=2.0.0-rc.1 <3`, if one is there and `semver` accepts it.
pub fn extract_first_semver(spec: &str) -> (r: Option<SemVersion>)
    ensures
        match r {
            Some(v) => specifier_version(spec@) == Some(v@),
            None => specifier_version(spec@) is None,
        },
{
    let all = chars_of(spec);
    let t = trim_chars(all.as_slice());
    match find_version_span(t.as_slice()) {
        Some((b, e)) => {
            let mut piece: Vec<char> = Vec::new();
            let mut k = b;
            while k < e
                invariant
                    b <= k <= e <= t@.len(),
                    piece@ == t@.subrange(b as int, k as int),
                decreases e - k,
            {
                piece.push(t[k]);
                assert(t@.subrange(b as int, k + 1) =~= t@.subrange(b as int, k as int).push(
                    t@[k as int],
                ));
                k = k + 1;
            }
            let text = string_from_chars(piece.as_slice());
            parse_semver(text.as_str())
        },
        None => None,
    }
}

/// `s` with its leftmost version replaced by `replacement`; `s` itself if
/// it holds no version.
pub open spec fn replace_first_version(s: Seq<char>, replacement: Seq<char>) -> Seq<char> {
    match first_version_span(s) {
        Some((b, e)) => s.subrange(0, b) + replacement + s.subrange(e, s.len() as int),
        None => s,
    }
}

/// Rewriting a specifier keeps everything around its first version: a
/// specifier with no version stays as it is, and otherwise the text before
/// and after the version is unchanged and the new version stands between.
pub proof fn lemma_rewrite_keeps_context(s: Seq<char>, replacement: Seq<char>)
    ensures
        first_version_span(s) is None ==> replace_first_version(s, replacement) == s,
        first_version_span(s) matches Some((b, e)) ==> {
            let r = replace_first_version(s, replacement);
            &&& r.len() == s.len() - (e - b) + replacement.len()
            &&& r.subrange(0, b) == s.subrange(0, b)
            &&& r.subrange(b, b + replacement.len()) == replacement
            &&& r.subrange(b + replacement.len(), r.len() as int) == s.subrange(e, s.len() as int)
        },
{
    crate::semver_pattern::lemma_first_version_span_is_leftmost(s);
    if let Some((b, e)) = first_version_span(s) {
        crate::semver_pattern::lemma_match_end_bounds(s, b);
        let r = replace_first_version(s, replacement);
        assert(r.subrange(0, b) =~= s.subrange(0, b));
        assert(r.subrange(b, b + replacement.len()) =~= replacement);
        assert(r.subrange(b + replacement.len(), r.len() as int) =~= s.subrange(e, s.len() as int));
    }
}

/// A range operator written before a version, such as `^`, `~`, `>=`, `=`
/// or nothing at all: text with no decimal digit in it that does not
/// start with white space.
pub open spec fn is_range_prefix(p: Seq<char>) -> bool {
    &&& forall|i: int| 0 <= i < p.len() ==> !is_decimal_digit(#[trigger] p[i])
    &&& p.len() > 0 ==> !is_white_space(p[0])
}

/// In a range operator followed by a version's own text, the version
/// pattern finds exactly that text, and trimming leaves the whole as it is.
pub proof fn lemma_version_after_prefix(p: Seq<char>, v: VersionView)
    requires
        is_range_prefix(p),
        version_shape(v),
    ensures
        first_version_span(p + version_text(v)) == Some(
            (p.len() as int, (p + version_text(v)).len() as int),
        ),
        trimmed(p + version_text(v)) == p + version_text(v),
{
    let d1 = decimal(v.major as nat);
    let d2 = decimal(v.minor as nat);
    let d3 = decimal(v.patch as nat);
    lemma_decimal_ascii_digits(v.major as nat);
    lemma_decimal_ascii_digits(v.minor as nat);
    lemma_decimal_ascii_digits(v.patch as nat);
    let pre_part = if v.pre.len() > 0 {
        seq!['-'] + v.pre
    } else {
        Seq::<char>::empty()
    };
    let build_part = if v.build.len() > 0 {
        seq!['+'] + v.build
    } else {
        Seq::<char>::empty()
    };
    let t = version_text(v);
    assert(t == d1 + seq!['.'] + d2 + seq!['.'] + d3 + pre_part + build_part);
    let s = p + t;
    let i0 = p.len() as int;
    let a = i0 + d1.len();
    let b = a + 1 + d2.len();
    let c = b + 1 + d3.len();
    let d = c + pre_part.len();
    assert(s.len() == d + build_part.len());
    assert forall|k: int| 0 <= k < i0 implies s[k] == p[k] by {}
    assert forall|k: int| i0 <= k < a implies s[k] == d1[k - i0] by {}
    assert(s[a] == '.');
    assert forall|k: int| a + 1 <= k < b implies s[k] == d2[k - a - 1] by {}
    assert(s[b] == '.');
    assert forall|k: int| b + 1 <= k < c implies s[k] == d3[k - b - 1] by {}
    assert forall|k: int| c <= k < d implies s[k] == pre_part[k - c] by {}
    assert forall|k: int| d <= k < s.len() implies s[k] == build_part[k - d] by {}
    // The three numbers.
    assert forall|k: int| i0 <= k < a implies is_decimal_digit(#[trigger] s[k]) by {
        assert('0' <= d1[k - i0] <= '9');
    }
    assert forall|k: int| a + 1 <= k < b implies is_decimal_digit(#[trigger] s[k]) by {
        assert('0' <= d2[k - a - 1] <= '9');
    }
    assert forall|k: int| b + 1 <= k < c implies is_decimal_digit(#[trigger] s[k]) by {
        assert('0' <= d3[k - b - 1] <= '9');
    }
    lemma_digit_run_end_at(s, i0, a);
    lemma_digit_run_end_at(s, a + 1, b);
    if c < s.len() {
        if v.pre.len() > 0 {
            assert(s[c] == '-');
        } else {
            assert(s[c] == '+');
        }
    }
    lemma_digit_run_end_at(s, b + 1, c);
    // The pre-release part.
    if v.pre.len() > 0 {
        assert forall|k: int| c + 1 <= k < d implies is_identifier_char(#[trigger] s[k]) by {
            assert(s[k] == v.pre[k - c - 1]);
        }
        if d < s.len() {
            assert(s[d] == '+');
        }
        lemma_identifier_run_end_at(s, c + 1, d);
        assert(is_identifier_char(s[c + 1]));
    }
    assert(optional_part_end(s, c, '-') == d);
    // The build part.
    if v.build.len() > 0 {
        assert forall|k: int| d + 1 <= k < s.len() implies is_identifier_char(#[trigger] s[k]) by {
            assert(s[k] == v.build[k - d - 1]);
        }
        lemma_identifier_run_end_at(s, d + 1, s.len() as int);
        assert(is_identifier_char(s[d + 1]));
    }
    assert(optional_part_end(s, d, '+') == s.len());
    assert(match_end_at(s, i0) == Some(s.len() as int));
    assert forall|k: int| 0 <= k < i0 implies (#[trigger] match_end_at(s, k)) is None by {
        assert(!is_decimal_digit(p[k]));
        assert(digit_run_end(s, k) == k);
    }
    lemma_first_match_at(s, 0, i0, s.len() as int);
    // Neither end is white space.
    assert(!is_white_space(s[0])) by {
        if i0 == 0 {
            assert('0' <= d1[0] <= '9');
        }
    }
    let last = s.len() - 1;
    assert(!is_white_space(s[last])) by {
        if v.build.len() > 0 {
            assert(is_identifier_char(v.build[v.build.len() - 1]));
        } else if v.pre.len() > 0 {
            assert(is_identifier_char(v.pre[v.pre.len() - 1]));
        } else {
            assert('0' <= d3[d3.len() - 1] <= '9');
        }
    }
    assert(trim_start(s) == s);
    assert(trim_end(s) == s);
}

/// Rewriting a specifier made of a range operator and a version's text
/// keeps the operator and puts the new version's text after it; reading
/// that specifier again finds the new version.
pub proof fn lemma_rewrite_round_trip(p: Seq<char>, current: VersionView, latest: VersionView)
    requires
        is_range_prefix(p),
        version_shape(current),
        version_shape(latest),
        semver_parse(version_text(latest)) == Some(latest),
    ensures
        replace_first_version(p + version_text(current), version_text(latest)) == p
            + version_text(latest),
        specifier_version(p + version_text(latest)) == Some(latest),
{
    lemma_version_after_prefix(p, current);
    lemma_version_after_prefix(p, latest);
    let s = p + version_text(current);
    assert(s.subrange(0, p.len() as int) =~= p);
    assert(s.subrange(s.len() as int, s.len() as int) =~= Seq::<char>::empty());
    assert(replace_first_version(s, version_text(latest)) =~= p + version_text(latest));
    let u = p + version_text(latest);
    assert(u.subrange(p.len() as int, u.len() as int) =~= version_text(latest));
}

/// A dependency that has a newer release than the one its specifier names.
#[derive(Debug)]
pub struct PackageEntry {
    pub name: String,
    pub section: DependencySection,
    pub current_spec: String,
    pub current_version: SemVersion,
    pub latest_version: SemVersion,
    pub selected: bool,
}

/// The plain content of a `PackageEntry`.
pub struct EntryView {
    pub name: Seq<char>,
    pub section: DependencySection,
    pub current_spec: Seq<char>,
    pub current_version: VersionView,
    pub latest_version: VersionView,
    pub selected: bool,
}

impl View for PackageEntry {
    type V = EntryView;

    open spec fn view(&self) -> EntryView {
        EntryView {
            name: self.name@,
            section: self.section,
            current_spec: self.current_spec@,
            current_version: self.current_version@,
            latest_version: self.latest_version@,
            selected: self.selected,
        }
    }
}

/// The specifier an entry is rewritten to: its current specifier with the
/// first version in it replaced by the latest one, so that range operators
/// and anything around the version stay as they were.
pub open spec fn updated_spec_text(e: PackageEntry) -> Seq<char> {
    replace_first_version(e.current_spec@, version_text(e.latest_version@))
}

impl PackageEntry {
    /// The specifier rewritten to the latest version. Where the current
    /// specifier is a range operator followed by the current version's text
    /// (`^1.2.3`), the result is that operator followed by the latest
    /// version's text, and reading it again finds the latest version.
    pub fn updated_spec(&self) -> (r: String)
        ensures
            r@ == updated_spec_text(*self),
            forall|p: Seq<char>|
                #[trigger] is_range_prefix(p) && self.current_spec@ == p + version_text(
                    self.current_version@,
                ) ==> r@ == p + version_text(self.latest_version@) && specifier_version(r@)
                    == Some(self.latest_version@),
    {
        proof {
            use_type_invariant(&self.current_version);
            use_type_invariant(&self.latest_version);
            assert forall|p: Seq<char>|
                #[trigger] is_range_prefix(p) && self.current_spec@ == p + version_text(
                    self.current_version@,
                ) implies updated_spec_text(*self) == p + version_text(self.latest_version@)
                && specifier_version(updated_spec_text(*self)) == Some(self.latest_version@) by {
                lemma_rewrite_round_trip(p, self.current_version@, self.latest_version@);
            }
        }
        let s = chars_of(self.current_spec.as_str());
        let latest = self.latest_version.text_chars();
        match find_version_span(s.as_slice()) {
            Some((b, e)) => {
                let mut out: Vec<char> = Vec::new();
                let mut k: usize = 0;
                while k < b
                    invariant
                        k <= b <= e <= s@.len(),
                        out@ == s@.subrange(0, k as int),
                    decreases b - k,
                {
                    out.push(s[k]);
                    assert(s@.subrange(0, k + 1) =~= s@.subrange(0, k as int).push(s@[k as int]));
                    k = k + 1;
                }
                extend_chars(&mut out, latest.as_slice());
                let ghost mid = out@;
                let mut k: usize = e;
                while k < s.len()
                    invariant
                        e <= k <= s@.len(),
                        out@ == mid + s@.subrange(e as int, k as int),
                    decreases s@.len() - k,
                {
                    out.push(s[k]);
                    assert(s@.subrange(e as int, k + 1) =~= s@.subrange(e as int, k as int).push(
                        s@[k as int],
                    ));
                    k = k + 1;
                }
                string_from_chars(out.as_slice())
            },
            None => string_from_chars(s.as_slice()),
        }
    }
}


/// `#[verifier::external_type_specification]` for a file system path,
/// which a workspace carries so it can be written back.
#[verifier::external_type_specification]
#[verifier::external_body]
pub struct ExPathBuf(std::path::PathBuf);

/// One `package.json` with the dependencies in it that can be updated.
#[derive(Debug)]
pub struct WorkspaceState {
    pub tab_name: String,
    pub package_path: std::path::PathBuf,
    pub package_json: JsonValue,
    pub entries: Vec<PackageEntry>,
    pub selected_index: usize,
}

/// The row after `i` in a list of `len` rows, wrapping to the first.
pub open spec fn next_index(i: int, len: int) -> int {
    (i + 1) % len
}

/// The row before `i` in a list of `len` rows, wrapping to the last.
pub open spec fn previous_index(i: int, len: int) -> int {
    if i == 0 {
        len - 1
    } else {
        i - 1
    }
}

/// A workspace's cursor is on one of its entries, or at 0 when it has none.
pub open spec fn cursor_in_range(w: WorkspaceState) -> bool {
    w.selected_index < w.entries.len() || (w.entries.len() == 0 && w.selected_index == 0)
}

/// Moving down and then up, or up and then down, comes back to the same
/// row, and both moves stay on the list.
pub proof fn lemma_cursor_round_trip(i: int, len: int)
    requires
        0 <= i < len,
    ensures
        0 <= next_index(i, len) < len,
        0 <= previous_index(i, len) < len,
        previous_index(next_index(i, len), len) == i,
        next_index(previous_index(i, len), len) == i,
{
    if i + 1 < len {
        assert((i + 1) % len == i + 1) by (nonlinear_arith)
            requires
                0 <= i + 1 < len,
        ;
    } else {
        assert((i + 1) % len == 0) by (nonlinear_arith)
            requires
                i + 1 == len,
                len > 0,
        ;
    }
    if i == 0 {
        assert((len - 1 + 1) % len == 0) by (nonlinear_arith)
            requires
                len > 0,
        ;
    } else {
        assert((i - 1 + 1) % len == i) by (nonlinear_arith)
            requires
                0 < i < len,
        ;
    }
}

/// `e` with its `selected` flag set to `flag`.
pub open spec fn with_selected(e: PackageEntry, flag: bool) -> PackageEntry {
    PackageEntry { selected: flag, ..e }
}

/// Where the cursor of `w` goes on a move down.
pub open spec fn cursor_after_down(w: WorkspaceState) -> int {
    if w.entries.len() == 0 {
        w.selected_index as int
    } else {
        next_index(w.selected_index as int, w.entries.len() as int)
    }
}

/// Where the cursor of `w` goes on a move up.
pub open spec fn cursor_after_up(w: WorkspaceState) -> int {
    if w.entries.len() == 0 {
        w.selected_index as int
    } else {
        previous_index(w.selected_index as int, w.entries.len() as int)
    }
}

/// The entries of `w` after the one under the cursor is toggled.
pub open spec fn entries_after_toggle(w: WorkspaceState) -> Seq<PackageEntry> {
    if w.selected_index < w.entries.len() {
        let i = w.selected_index as int;
        w.entries@.update(i, with_selected(w.entries@[i], !w.entries@[i].selected))
    } else {
        w.entries@
    }
}

/// The entries of `w` after all of them are toggled together.
pub open spec fn entries_after_toggle_all(w: WorkspaceState) -> Seq<PackageEntry> {
    Seq::new(
        w.entries.len() as nat,
        |i: int| with_selected(w.entries@[i], any_unselected(w.entries@)),
    )
}

/// Toggling the entry under the cursor twice leaves the entries as they were.
pub proof fn lemma_toggle_twice(w: WorkspaceState, toggled: WorkspaceState)
    requires
        toggled.entries@ == entries_after_toggle(w),
        toggled.selected_index == w.selected_index,
    ensures
        entries_after_toggle(toggled) =~= w.entries@,
{
}

/// Toggling flips the flag of the entry under the cursor and changes
/// nothing else: every other entry, and every other field of that one,
/// stays as it was; with the cursor past the last entry nothing changes.
pub proof fn lemma_toggle_changes_only_cursor_entry(w: WorkspaceState)
    ensures
        entries_after_toggle(w).len() == w.entries.len(),
        forall|j: int|
            0 <= j < w.entries.len() && j != w.selected_index ==> (#[trigger] entries_after_toggle(
                w,
            )[j]) == w.entries@[j],
        w.selected_index < w.entries.len() ==> entries_after_toggle(w)[w.selected_index as int].selected
            == !w.entries@[w.selected_index as int].selected,
        w.selected_index < w.entries.len() ==> entries_after_toggle(w)[w.selected_index as int] == (
        PackageEntry {
            selected: entries_after_toggle(w)[w.selected_index as int].selected,
            ..w.entries@[w.selected_index as int]
        }),
{
}

/// After toggling all entries, either every entry is selected (when one
/// was not before) or none is (when all were); nothing else changes.
pub proof fn lemma_toggle_all_uniform(w: WorkspaceState)
    ensures
        entries_after_toggle_all(w).len() == w.entries.len(),
        any_unselected(w.entries@) ==> forall|i: int|
            0 <= i < w.entries.len() ==> (#[trigger] entries_after_toggle_all(w)[i]).selected,
        !any_unselected(w.entries@) ==> forall|i: int|
            0 <= i < w.entries.len() ==> !(#[trigger] entries_after_toggle_all(w)[i]).selected,
        forall|i: int|
            0 <= i < w.entries.len() ==> (#[trigger] entries_after_toggle_all(w)[i]) == (
            PackageEntry { selected: entries_after_toggle_all(w)[i].selected, ..w.entries@[i] }),
{
}

/// Whether some entry is not selected.
pub open spec fn any_unselected(entries: Seq<PackageEntry>) -> bool {
    exists|i: int| 0 <= i < entries.len() && !(#[trigger] entries[i]).selected
}

/// One edit of the manifest: `section[name]` set to `spec`.
pub struct DependencyUpdate {
    pub section: Seq<char>,
    pub name: Seq<char>,
    pub spec: Seq<char>,
}

/// The edit that updating entry `e` makes.
pub open spec fn entry_update(e: PackageEntry) -> DependencyUpdate {
    DependencyUpdate { section: e.section.key_text(), name: e.name@, spec: updated_spec_text(e) }
}

/// The edits for the selected entries, in the order of the entries.
pub open spec fn selected_updates(entries: Seq<PackageEntry>) -> Seq<DependencyUpdate>
    decreases entries.len(),
{
    if entries.len() == 0 {
        Seq::empty()
    } else {
        let rest = selected_updates(entries.drop_last());
        if entries.last().selected {
            rest.push(entry_update(entries.last()))
        } else {
            rest
        }
    }
}

/// The entries that are not selected, in their order.
pub open spec fn unselected_entries(entries: Seq<PackageEntry>) -> Seq<PackageEntry>
    decreases entries.len(),
{
    if entries.len() == 0 {
        Seq::empty()
    } else {
        let rest = unselected_entries(entries.drop_last());
        if entries.last().selected {
            rest
        } else {
            rest.push(entries.last())
        }
    }
}

/// The specifier that the last edit of `section[name]` among `updates`
/// writes, if any edit does.
pub open spec fn planned_spec(updates: Seq<DependencyUpdate>, section: Seq<char>, name: Seq<char>) -> Option<
    Seq<char>,
>
    decreases updates.len(),
{
    if updates.len() == 0 {
        None
    } else if updates.last().section == section && updates.last().name == name {
        Some(updates.last().spec)
    } else {
        planned_spec(updates.drop_last(), section, name)
    }
}

/// Whether some edit among `updates` is in `section`.
pub open spec fn touches_section(updates: Seq<DependencyUpdate>, section: Seq<char>) -> bool {
    exists|i: int| 0 <= i < updates.len() && (#[trigger] updates[i]).section == section
}

/// `value` if it is a string: its text.
pub open spec fn text_of(value: Option<JsonValue>) -> Option<Seq<char>> {
    match value {
        Some(JsonValue::Str(s)) => Some(s@),
        _ => None,
    }
}

/// What the edits `updates` make of one section, from `old` to `new`: a
/// section that was there but was not an object stays as it was; otherwise
/// the section is an object in which every dependency that is edited holds
/// the string of its last edit and every other member is unchanged.
pub open spec fn section_after(
    old: Option<JsonValue>,
    new: Option<JsonValue>,
    updates: Seq<DependencyUpdate>,
    section: Seq<char>,
) -> bool {
    if old is Some && !(old->0 is Object) {
        new == old
    } else {
        &&& new matches Some(JsonValue::Object(_))
        &&& forall|n: Seq<char>|
            #![trigger object_member_value(new, n)]
            match planned_spec(updates, section, n) {
                Some(s) => text_of(object_member_value(new, n)) == Some(s),
                None => object_member_value(new, n) == object_member_value(old, n),
            }
    }
}

/// The manifest `new` is `old` with the edits `updates` made in order.
pub open spec fn updates_applied(old: JsonValue, new: JsonValue, updates: Seq<DependencyUpdate>) -> bool {
    &&& updates.len() == 0 ==> new == old
    &&& updates.len() > 0 ==> new is Object
    &&& forall|t: Seq<char>|
        #![trigger json_field(new, t)]
        if touches_section(updates, t) {
            section_after(json_field(old, t), json_field(new, t), updates, t)
        } else {
            json_field(new, t) == json_field(old, t)
        }
}

proof fn lemma_update_step(
    start: JsonValue,
    before: JsonValue,
    after: JsonValue,
    updates: Seq<DependencyUpdate>,
    u: DependencyUpdate,
)
    requires
        updates_applied(start, before, updates),
        after is Object,
        forall|t: Seq<char>|
            t != u.section ==> #[trigger] json_field(after, t) == json_field(before, t),
        crate::json::section_set(json_field(before, u.section), json_field(after, u.section), u.name, u.spec),
    ensures
        updates_applied(start, after, updates.push(u)),
{
    let ups = updates.push(u);
    assert(ups.drop_last() =~= updates);
    assert forall|t: Seq<char>| #[trigger] touches_section(ups, t) == (touches_section(updates, t)
        || t == u.section) by {
        if touches_section(updates, t) {
            let i = choose|i: int| 0 <= i < updates.len() && (#[trigger] updates[i]).section == t;
            assert(ups[i] == updates[i]);
        }
        if t == u.section {
            assert(ups[updates.len() as int] == u);
        }
        if touches_section(ups, t) && t != u.section {
            let i = choose|i: int| 0 <= i < ups.len() && (#[trigger] ups[i]).section == t;
            assert(updates[i] == ups[i]);
        }
    }
    assert forall|t: Seq<char>|
        #![trigger json_field(after, t)]
        if touches_section(ups, t) {
            section_after(json_field(start, t), json_field(after, t), ups, t)
        } else {
            json_field(after, t) == json_field(start, t)
        } by {
        if t != u.section {
            assert forall|n: Seq<char>| #[trigger] planned_spec(ups, t, n) == planned_spec(updates, t, n) by {}
            if touches_section(updates, t) {
                assert(section_after(json_field(start, t), json_field(before, t), updates, t));
            }
        } else {
            assert(json_field(before, t) == json_field(before, u.section));
            if touches_section(updates, t) {
                assert(section_after(json_field(start, t), json_field(before, t), updates, t));
            }
            let old_s = json_field(start, t);
            if old_s is Some && !(old_s->0 is Object) {
            } else {
                assert forall|n: Seq<char>|
                    #![trigger object_member_value(json_field(after, t), n)]
                    match planned_spec(ups, t, n) {
                        Some(s) => text_of(object_member_value(json_field(after, t), n)) == Some(s),
                        None => object_member_value(json_field(after, t), n) == object_member_value(
                            old_s,
                            n,
                        ),
                    } by {
                    if n != u.name {
                        assert(planned_spec(ups, t, n) == planned_spec(updates, t, n));
                        assert(object_member_value(json_field(after, t), n) == object_member_value(
                            json_field(before, t),
                            n,
                        ));
                        if touches_section(updates, t) {
                            assert(section_after(
                                json_field(start, t),
                                json_field(before, t),
                                updates,
                                t,
                            ));
                            assert(match planned_spec(updates, t, n) {
                                Some(s) => text_of(object_member_value(json_field(before, t), n))
                                    == Some(s),
                                None => object_member_value(json_field(before, t), n)
                                    == object_member_value(old_s, n),
                            });
                        } else {
                            assert(planned_spec(updates, t, n) is None) by {
                                lemma_planned_needs_touch(updates, t, n);
                            }
                        }
                    } else {
                        assert(planned_spec(ups, t, n) == Some(u.spec));
                    }
                }
            }
        }
    }
}

proof fn lemma_planned_needs_touch(updates: Seq<DependencyUpdate>, section: Seq<char>, name: Seq<char>)
    requires
        !touches_section(updates, section),
    ensures
        planned_spec(updates, section, name) is None,
    decreases updates.len(),
{
    if updates.len() > 0 {
        assert(updates.last() == updates[updates.len() - 1]);
        assert forall|i: int| 0 <= i < updates.drop_last().len() implies (
        #[trigger] updates.drop_last()[i]).section != section by {
            assert(updates.drop_last()[i] == updates[i]);
        }
        lemma_planned_needs_touch(updates.drop_last(), section, name);
    }
}

/// The specifier that the last edit of a dependency writes is what the
/// manifest then holds for it, unless its section was there and was not an
/// object.
pub proof fn lemma_selected_spec_written(
    old: JsonValue,
    new: JsonValue,
    updates: Seq<DependencyUpdate>,
    k: int,
)
    requires
        updates_applied(old, new, updates),
        0 <= k < updates.len(),
        forall|j: int|
            k < j < updates.len() ==> !((#[trigger] updates[j]).section == updates[k].section
                && updates[j].name == updates[k].name),
        !(json_field(old, updates[k].section) is Some && !(json_field(
            old,
            updates[k].section,
        )->0 is Object)),
    ensures
        text_of(dependency_value(new, updates[k].section, updates[k].name)) == Some(
            updates[k].spec,
        ),
{
    let t = updates[k].section;
    let n = updates[k].name;
    assert(touches_section(updates, t));
    lemma_planned_is_last(updates, k);
    assert(section_after(json_field(old, t), json_field(new, t), updates, t));
}

proof fn lemma_planned_is_last(updates: Seq<DependencyUpdate>, k: int)
    requires
        0 <= k < updates.len(),
        forall|j: int|
            k < j < updates.len() ==> !((#[trigger] updates[j]).section == updates[k].section
                && updates[j].name == updates[k].name),
    ensures
        planned_spec(updates, updates[k].section, updates[k].name) == Some(updates[k].spec),
    decreases updates.len(),
{
    if k < updates.len() - 1 {
        let rest = updates.drop_last();
        assert(updates.last() == updates[updates.len() - 1]);
        assert forall|j: int| k < j < rest.len() implies !((#[trigger] rest[j]).section
            == rest[k].section && rest[j].name == rest[k].name) by {
            assert(rest[j] == updates[j]);
        }
        lemma_planned_is_last(rest, k);
    }
}

/// `u` is the edit of some selected entry after position `k`.
spec fn edit_of_later_entry(entries: Seq<PackageEntry>, k: int, u: DependencyUpdate) -> bool {
    exists|j: int| k < j < entries.len() && entries[j].selected && u == entry_update(entries[j])
}

proof fn lemma_selected_update_index(entries: Seq<PackageEntry>, k: int)
    requires
        0 <= k < entries.len(),
        entries[k].selected,
    ensures
        selected_updates(entries.take(k)).len() < selected_updates(entries).len(),
        selected_updates(entries)[selected_updates(entries.take(k)).len() as int] == entry_update(
            entries[k],
        ),
        forall|p: int|
            selected_updates(entries.take(k)).len() < p < selected_updates(entries).len()
                ==> edit_of_later_entry(entries, k, #[trigger] selected_updates(entries)[p]),
    decreases entries.len(),
{
    let ups = selected_updates(entries);
    let rest = entries.drop_last();
    assert(entries.last() == entries[entries.len() - 1]);
    if k == entries.len() - 1 {
        assert(rest =~= entries.take(k));
        assert(ups == selected_updates(rest).push(entry_update(entries[k])));
        assert(selected_updates(entries.take(k)).len() == ups.len() - 1);
    } else {
        assert(rest[k] == entries[k]);
        assert(rest.take(k) =~= entries.take(k));
        lemma_selected_update_index(rest, k);
        let rups = selected_updates(rest);
        let m = selected_updates(entries.take(k)).len() as int;
        if entries.last().selected {
            assert(ups == rups.push(entry_update(entries.last())));
        } else {
            assert(ups == rups);
        }
        assert(ups[m] == rups[m]);
        assert forall|p: int| m < p < ups.len() implies edit_of_later_entry(
            entries,
            k,
            #[trigger] ups[p],
        ) by {
            if p < rups.len() {
                assert(ups[p] == rups[p]);
                assert(edit_of_later_entry(rest, k, rups[p]));
                let j = choose|j: int|
                    k < j < rest.len() && rest[j].selected && rups[p] == entry_update(rest[j]);
                assert(rest[j] == entries[j]);
            } else {
                assert(ups[p] == entry_update(entries[entries.len() - 1]));
                assert(edit_of_later_entry(entries, k, ups[p]));
            }
        }
    }
}

/// After staging, every selected entry that no later selected entry with
/// the same name and section overrides holds its rewritten specifier in
/// the manifest under its own section's key, unless that section was
/// there and was not an object.
pub proof fn lemma_selected_entry_written(
    old: JsonValue,
    new: JsonValue,
    entries: Seq<PackageEntry>,
    k: int,
)
    requires
        updates_applied(old, new, selected_updates(entries)),
        0 <= k < entries.len(),
        entries[k].selected,
        forall|j: int|
            k < j < entries.len() && (#[trigger] entries[j]).selected ==> !(entries[j].name@
                == entries[k].name@ && entries[j].section == entries[k].section),
        !(json_field(old, entries[k].section.key_text()) is Some && !(json_field(
            old,
            entries[k].section.key_text(),
        )->0 is Object)),
    ensures
        text_of(dependency_value(new, entries[k].section.key_text(), entries[k].name@)) == Some(
            updated_spec_text(entries[k]),
        ),
{
    let ups = selected_updates(entries);
    lemma_selected_update_index(entries, k);
    let m = selected_updates(entries.take(k)).len() as int;
    assert forall|p: int| m < p < ups.len() implies !((#[trigger] ups[p]).section == ups[m].section
        && ups[p].name == ups[m].name) by {
        assert(edit_of_later_entry(entries, k, ups[p]));
        let j = choose|j: int|
            k < j < entries.len() && entries[j].selected && ups[p] == entry_update(entries[j]);
        entries[j].section.lemma_key_text_injective(entries[k].section);
    }
    lemma_selected_spec_written(old, new, ups, m);
}

/// A dependency that no selected entry edits keeps the value it had.
pub proof fn lemma_unedited_dependency_kept(
    old: JsonValue,
    new: JsonValue,
    updates: Seq<DependencyUpdate>,
    section: Seq<char>,
    name: Seq<char>,
)
    requires
        updates_applied(old, new, updates),
        planned_spec(updates, section, name) is None,
    ensures
        dependency_value(new, section, name) == dependency_value(old, section, name),
{
    if touches_section(updates, section) {
        assert(section_after(json_field(old, section), json_field(new, section), updates, section));
    }
}

/// With nothing selected, the manifest is not touched.
pub proof fn lemma_nothing_selected_nothing_written(
    old: JsonValue,
    new: JsonValue,
    entries: Seq<PackageEntry>,
)
    requires
        updates_applied(old, new, selected_updates(entries)),
        forall|i: int| 0 <= i < entries.len() ==> !(#[trigger] entries[i]).selected,
    ensures
        new == old,
    decreases entries.len(),
{
    lemma_no_selected_no_updates(entries);
}

proof fn lemma_no_selected_no_updates(entries: Seq<PackageEntry>)
    requires
        forall|i: int| 0 <= i < entries.len() ==> !(#[trigger] entries[i]).selected,
    ensures
        selected_updates(entries).len() == 0,
    decreases entries.len(),
{
    if entries.len() > 0 {
        assert(!entries[entries.len() - 1].selected);
        assert forall|i: int| 0 <= i < entries.drop_last().len() implies !(
        #[trigger] entries.drop_last()[i]).selected by {
            assert(entries.drop_last()[i] == entries[i]);
        }
        lemma_no_selected_no_updates(entries.drop_last());
    }
}

/// After the selected entries are dropped, the cursor is on the list again.
pub proof fn lemma_retained_cursor_in_range(old: WorkspaceState, new: WorkspaceState)
    requires
        new.selected_index == (if new.entries.len() == 0 {
            0
        } else if old.selected_index >= new.entries.len() {
            new.entries.len() - 1
        } else {
            old.selected_index as int
        }),
    ensures
        cursor_in_range(new),
{
}

/// No selected entry is kept, every unselected one is, and they keep their
/// order.
pub proof fn lemma_unselected_entries(entries: Seq<PackageEntry>)
    ensures
        forall|i: int|
            0 <= i < unselected_entries(entries).len() ==> !(
            #[trigger] unselected_entries(entries)[i]).selected,
        unselected_entries(entries).len() == entries.len() - selected_updates(entries).len(),
    decreases entries.len(),
{
    if entries.len() > 0 {
        lemma_unselected_entries(entries.drop_last());
    }
}

impl WorkspaceState {
    /// Everything but the selection cursor is as in `old`.
    pub open spec fn same_except_cursor(self, old: WorkspaceState) -> bool {
        &&& self.tab_name == old.tab_name
        &&& self.package_path == old.package_path
        &&& self.package_json == old.package_json
        &&& self.entries@ == old.entries@
    }

    /// Everything but the entries is as in `old`.
    pub open spec fn same_except_entries(self, old: WorkspaceState) -> bool {
        &&& self.tab_name == old.tab_name
        &&& self.package_path == old.package_path
        &&& self.package_json == old.package_json
        &&& self.selected_index == old.selected_index
    }

    /// Moves the cursor one row down, from the last row to the first.
    pub fn move_selection_down(&mut self)
        requires
            old(self).entries.len() > 0 ==> old(self).selected_index < usize::MAX,
        ensures
            final(self).same_except_cursor(*old(self)),
            final(self).selected_index == cursor_after_down(*old(self)),
    {
        if self.entries.len() == 0 {
            return;
        }
        self.selected_index = (self.selected_index + 1) % self.entries.len();
    }

    /// Moves the cursor one row up, from the first row to the last.
    pub fn move_selection_up(&mut self)
        ensures
            final(self).same_except_cursor(*old(self)),
            final(self).selected_index == cursor_after_up(*old(self)),
    {
        if self.entries.len() == 0 {
            return;
        }
        self.selected_index = if self.selected_index == 0 {
            self.entries.len() - 1
        } else {
            self.selected_index - 1
        };
    }

    /// Flips whether the entry under the cursor is selected; does nothing
    /// when the cursor is past the last entry.
    pub fn toggle_selected(&mut self)
        ensures
            final(self).same_except_entries(*old(self)),
            final(self).entries@ == entries_after_toggle(*old(self)),
            final(self).entries.len() == old(self).entries.len(),
            forall|j: int|
                0 <= j < old(self).entries.len() && j != old(self).selected_index ==> (
                #[trigger] final(self).entries@[j]) == old(self).entries@[j],
            old(self).selected_index < old(self).entries.len() ==> final(self).entries@[old(
                self,
            ).selected_index as int].selected == !old(self).entries@[old(
                self,
            ).selected_index as int].selected,
            old(self).selected_index < old(self).entries.len() ==> final(self).entries@[old(
                self,
            ).selected_index as int] == (PackageEntry {
                selected: final(self).entries@[old(self).selected_index as int].selected,
                ..old(self).entries@[old(self).selected_index as int]
            }),
    {
        proof {
            lemma_toggle_changes_only_cursor_entry(*old(self));
        }
        if self.entries.len() == 0 {
            return;
        }
        let i = self.selected_index;
        if i < self.entries.len() {
            let mut e = self.entries.remove(i);
            e.selected = !e.selected;
            self.entries.insert(i, e);
            assert(self.entries@ =~= old(self).entries@.update(
                i as int,
                with_selected(old(self).entries@[i as int], !old(self).entries@[i as int].selected),
            ));
        }
    }

    /// Selects every entry if any is unselected, and otherwise unselects
    /// them all.
    pub fn toggle_all(&mut self)
        ensures
            final(self).same_except_entries(*old(self)),
            final(self).entries@ == entries_after_toggle_all(*old(self)),
    {
        if self.entries.len() == 0 {
            return;
        }
        let mut should_select_all = false;
        let mut k: usize = 0;
        while k < self.entries.len()
            invariant
                k <= self.entries.len(),
                self.entries@ == old(self).entries@,
                should_select_all == exists|j: int|
                    0 <= j < k && !(#[trigger] self.entries@[j]).selected,
            decreases self.entries.len() - k,
        {
            if !self.entries[k].selected {
                should_select_all = true;
            }
            k = k + 1;
        }
        let n = self.entries.len();
        let mut k: usize = 0;
        while k < n
            invariant
                k <= n == self.entries.len() == old(self).entries.len(),
                should_select_all == any_unselected(old(self).entries@),
                self.tab_name == old(self).tab_name,
                self.package_path == old(self).package_path,
                self.package_json == old(self).package_json,
                self.selected_index == old(self).selected_index,
                forall|i: int|
                    0 <= i < k ==> #[trigger] self.entries@[i] == with_selected(
                        old(self).entries@[i],
                        should_select_all,
                    ),
                forall|i: int| k <= i < n ==> #[trigger] self.entries@[i] == old(self).entries@[i],
            decreases n - k,
        {
            let mut e = self.entries.remove(k);
            e.selected = should_select_all;
            self.entries.insert(k, e);
            k = k + 1;
        }
        assert(self.entries@ =~= entries_after_toggle_all(*old(self)));
    }

    /// Writes the updated specifier of every selected entry into the
    /// manifest, in the order of the entries, creating a dependency section
    /// that is missing; returns how many entries are selected. A section
    /// that is there but is not an object is left as it is. Only a manifest
    /// that is an object (or `null`) can be edited so; with any other
    /// manifest this panics as soon as an entry is selected.
    pub fn stage_selected_updates(&mut self) -> (count: usize)
        requires
            (exists|i: int| 0 <= i < old(self).entries.len() && (#[trigger] old(self).entries@[i]).selected)
                ==> (old(self).package_json is Object || old(self).package_json is Null),
        ensures
            count == selected_updates(old(self).entries@).len(),
            final(self).tab_name == old(self).tab_name,
            final(self).package_path == old(self).package_path,
            final(self).entries@ == old(self).entries@,
            final(self).selected_index == old(self).selected_index,
            updates_applied(
                old(self).package_json,
                final(self).package_json,
                selected_updates(old(self).entries@),
            ),
            json_well_formed(old(self).package_json) ==> json_well_formed(final(self).package_json),
            forall|k: int|
                0 <= k < old(self).entries.len() && (#[trigger] old(self).entries@[k]).selected && (
                forall|j: int|
                    k < j < old(self).entries.len() && (#[trigger] old(self).entries@[j]).selected
                        ==> !(old(self).entries@[j].name@ == old(self).entries@[k].name@ && old(
                        self,
                    ).entries@[j].section == old(self).entries@[k].section)) && !(json_field(
                    old(self).package_json,
                    old(self).entries@[k].section.key_text(),
                ) is Some && !(json_field(
                    old(self).package_json,
                    old(self).entries@[k].section.key_text(),
                )->0 is Object)) ==> text_of(
                    dependency_value(
                        final(self).package_json,
                        old(self).entries@[k].section.key_text(),
                        old(self).entries@[k].name@,
                    ),
                ) == Some(updated_spec_text(old(self).entries@[k])),
    {
        let n = self.entries.len();
        let mut count: usize = 0;
        let mut i: usize = 0;
        while i < n
            invariant
                i <= n == self.entries.len(),
                self.entries@ == old(self).entries@,
                self.tab_name == old(self).tab_name,
                self.package_path == old(self).package_path,
                self.selected_index == old(self).selected_index,
                count == selected_updates(self.entries@.take(i as int)).len(),
                count <= i,
                json_well_formed(old(self).package_json) ==> json_well_formed(self.package_json),
                updates_applied(
                    old(self).package_json,
                    self.package_json,
                    selected_updates(self.entries@.take(i as int)),
                ),
                (exists|j: int| 0 <= j < old(self).entries.len() && (#[trigger] old(self).entries@[j]).selected)
                    ==> (old(self).package_json is Object || old(self).package_json is Null),
            decreases n - i,
        {
            let ghost ups = selected_updates(self.entries@.take(i as int));
            assert(self.entries@.take(i + 1).drop_last() =~= self.entries@.take(i as int));
            if self.entries[i].selected {
                let key = self.entries[i].section.key().to_owned();
                let spec = self.entries[i].updated_spec();
                let name = self.entries[i].name.clone();
                let ghost before = self.package_json;
                assert(old(self).entries@[i as int].selected);
                set_dependency(&mut self.package_json, &key, &name, &spec);
                proof {
                    let u = entry_update(self.entries@[i as int]);
                    lemma_update_step(old(self).package_json, before, self.package_json, ups, u);
                }
                count = count + 1;
            }
            i = i + 1;
        }
        assert(self.entries@.take(n as int) =~= self.entries@);
        proof {
            assert forall|k: int|
                0 <= k < old(self).entries.len() && (#[trigger] old(self).entries@[k]).selected && (
                forall|j: int|
                    k < j < old(self).entries.len() && (#[trigger] old(self).entries@[j]).selected
                        ==> !(old(self).entries@[j].name@ == old(self).entries@[k].name@ && old(
                        self,
                    ).entries@[j].section == old(self).entries@[k].section)) && !(json_field(
                    old(self).package_json,
                    old(self).entries@[k].section.key_text(),
                ) is Some && !(json_field(
                    old(self).package_json,
                    old(self).entries@[k].section.key_text(),
                )->0 is Object)) implies text_of(
                dependency_value(
                    self.package_json,
                    old(self).entries@[k].section.key_text(),
                    old(self).entries@[k].name@,
                ),
            ) == Some(updated_spec_text(old(self).entries@[k])) by {
                lemma_selected_entry_written(
                    old(self).package_json,
                    self.package_json,
                    old(self).entries@,
                    k,
                );
            }
        }
        count
    }

    /// Drops the selected entries, keeping the others in order, and brings
    /// the cursor back onto the list.
    pub fn retain_unselected(&mut self)
        ensures
            final(self).tab_name == old(self).tab_name,
            final(self).package_path == old(self).package_path,
            final(self).package_json == old(self).package_json,
            final(self).entries@ == unselected_entries(old(self).entries@),
            final(self).selected_index == (if final(self).entries.len() == 0 {
                0
            } else if old(self).selected_index >= final(self).entries.len() {
                final(self).entries.len() - 1
            } else {
                old(self).selected_index as int
            }),
    {
        let mut all: Vec<PackageEntry> = Vec::new();
        std::mem::swap(&mut all, &mut self.entries);
        let ghost source = all@;
        let mut kept: Vec<PackageEntry> = Vec::new();
        for e in it: all.into_iter()
            invariant
                it.seq() == source,
                kept@ == unselected_entries(source.take(it.index() as int)),
        {
            assert(source.take(it.index() + 1).drop_last() =~= source.take(it.index() as int));
            if !e.selected {
                kept.push(e);
            }
        }
        assert(source.take(source.len() as int) =~= source);
        self.entries = kept;
        if self.entries.len() == 0 {
            self.selected_index = 0;
        } else if self.selected_index >= self.entries.len() {
            self.selected_index = self.entries.len() - 1;
        }
    }
}

} // verus!
