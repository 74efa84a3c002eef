use vstd::prelude::*;

use crate::json::{
    dependency_value, field, json_field, json_text, json_well_formed, keys_distinct,
    lemma_field_well_formed, lemma_member_found, JsonMember, JsonValue,
};
use crate::model::{
    extract_first_semver, specifier_version, text_of, DependencySection, EntryView, PackageEntry,
};
use crate::paths::{
    covers_paths, distinct_sorted_paths, first_positions, sorted_by_path, PathPart,
};
use crate::text::{
    chars_equal, chars_less, chars_of, has_prefix, lemma_seq_less_irreflexive,
    lemma_seq_less_total, lemma_seq_less_transitive, seq_less, starts_with_chars,
    string_from_chars, trim_chars, trimmed,
};
use crate::version::{semver_at_most, semver_le, SemVersion, VersionView};

verus! {

// ---------------------------------------------------------------------------
// Workspace patterns of the root manifest
// ---------------------------------------------------------------------------

/// The strings among `items`, in order; other values are skipped.
pub open spec fn string_items(items: Seq<JsonValue>) -> Seq<Seq<char>>
    decreases items.len(),
{
    if items.len() == 0 {
        Seq::empty()
    } else {
        let rest = string_items(items.drop_last());
        match json_text(items.last()) {
            Some(t) => rest.push(t),
            None => rest,
        }
    }
}

/// `pos` are the positions in `items` of the strings `out`: increasing
/// positions, one per element of `out`, each holding a string whose text is
/// that element, and every string among `items` is at one of them.
pub open spec fn string_positions(out: Seq<Seq<char>>, items: Seq<JsonValue>, pos: Seq<int>) -> bool {
    &&& pos.len() == out.len()
    &&& forall|k: int, l: int| 0 <= k < l < pos.len() ==> #[trigger] pos[k] < #[trigger] pos[l]
    &&& forall|k: int|
        0 <= k < pos.len() ==> 0 <= #[trigger] pos[k] < items.len() && (items[pos[k]] matches JsonValue::Str(
            t,
        ) && t@ == out[k])
    &&& forall|j: int|
        0 <= j < items.len() && (#[trigger] items[j]) is Str ==> exists|k: int|
            0 <= k < pos.len() && #[trigger] pos[k] == j
}

/// `out` is the strings among `items`, each once, in their order, and
/// nothing else.
pub open spec fn lists_strings_of(out: Seq<Seq<char>>, items: Seq<JsonValue>) -> bool {
    exists|pos: Seq<int>| #[trigger] string_positions(out, items, pos)
}

/// Collecting the strings of an array keeps every string item, in order,
/// and nothing else.
pub proof fn lemma_string_items_lists_strings(items: Seq<JsonValue>)
    ensures
        lists_strings_of(string_items(items), items),
    decreases items.len(),
{
    let pos = string_item_positions(items);
    assert(string_positions(string_items(items), items, pos));
}

proof fn string_item_positions(items: Seq<JsonValue>) -> (pos: Seq<int>)
    ensures
        string_positions(string_items(items), items, pos),
    decreases items.len(),
{
    if items.len() == 0 {
        Seq::empty()
    } else {
        let rest = items.drop_last();
        let p = string_item_positions(rest);
        let n = items.len() - 1;
        let out = string_items(items);
        assert forall|j: int| 0 <= j < n implies items[j] == rest[j] by {}
        if items.last() is Str {
            let q = p.push(n);
            assert(out == string_items(rest).push(json_text(items.last())->0));
            assert forall|j: int|
                0 <= j < items.len() && (#[trigger] items[j]) is Str implies exists|k: int|
                0 <= k < q.len() && #[trigger] q[k] == j by {
                if j == n {
                    assert(q[p.len() as int] == j);
                } else {
                    assert(rest[j] is Str);
                    let k = choose|k: int| 0 <= k < p.len() && #[trigger] p[k] == j;
                    assert(q[k] == j);
                }
            }
            assert forall|k: int| 0 <= k < q.len() implies 0 <= #[trigger] q[k] < items.len() && (
            items[q[k]] matches JsonValue::Str(t) && t@ == out[k]) by {
                if k < p.len() {
                    assert(q[k] == p[k]);
                    assert(out[k] == string_items(rest)[k]);
                }
            }
            q
        } else {
            assert(out == string_items(rest));
            assert forall|j: int|
                0 <= j < items.len() && (#[trigger] items[j]) is Str implies exists|k: int|
                0 <= k < p.len() && #[trigger] p[k] == j by {
                assert(rest[j] is Str);
            }
            p
        }
    }
}

/// The workspace patterns a root manifest lists: the strings of its
/// `workspaces` array, or of the `packages` array of a `workspaces`
/// object; none otherwise.
pub open spec fn workspace_pattern_texts(root: JsonValue) -> Seq<Seq<char>> {
    match json_field(root, "workspaces"@) {
        Some(JsonValue::Array(items)) => string_items(items@),
        Some(w) => match json_field(w, "packages"@) {
            Some(JsonValue::Array(items)) => string_items(items@),
            _ => Seq::empty(),
        },
        None => Seq::empty(),
    }
}

/// The texts of a list of strings.
pub open spec fn texts(v: Seq<String>) -> Seq<Seq<char>> {
    v.map_values(|s: String| s@)
}

fn strings_in(items: &Vec<JsonValue>) -> (r: Vec<String>)
    ensures
        texts(r@) == string_items(items@),
{
    let mut r: Vec<String> = Vec::new();
    let mut i: usize = 0;
    while i < items.len()
        invariant
            i <= items@.len(),
            texts(r@) == string_items(items@.take(i as int)),
        decreases items@.len() - i,
    {
        assert(items@.take(i + 1).drop_last() =~= items@.take(i as int));
        let ghost before = r@;
        match &items[i] {
            JsonValue::Str(s) => {
                r.push(s.clone());
                assert(texts(r@) =~= texts(before).push(s@));
            },
            _ => {},
        }
        i = i + 1;
    }
    assert(items@.take(items@.len() as int) =~= items@);
    r
}

/// The workspace patterns listed by the root manifest.
pub fn workspace_patterns(root: &JsonValue) -> (r: Vec<String>)
    ensures
        texts(r@) == workspace_pattern_texts(*root),
        json_field(*root, "workspaces"@) matches Some(JsonValue::Array(items)) ==> lists_strings_of(
            texts(r@),
            items@,
        ),
        json_field(*root, "workspaces"@) matches Some(w) ==> (!(w is Array) ==> (json_field(
            w,
            "packages"@,
        ) matches Some(JsonValue::Array(items)) ==> lists_strings_of(texts(r@), items@))),
        json_field(*root, "workspaces"@) is None ==> r@.len() == 0,
{
    proof {
        if let Some(w) = json_field(*root, "workspaces"@) {
            if let JsonValue::Array(items) = w {
                lemma_string_items_lists_strings(items@);
            } else if let Some(JsonValue::Array(items)) = json_field(w, "packages"@) {
                lemma_string_items_lists_strings(items@);
            }
        }
    }
    let key = "workspaces".to_owned();
    match field(root, &key) {
        Some(w) => match w {
            JsonValue::Array(items) => strings_in(items),
            _ => {
                let packages = "packages".to_owned();
                match field(w, &packages) {
                    Some(JsonValue::Array(items)) => strings_in(items),
                    _ => {
                        let r: Vec<String> = Vec::new();
                        assert(texts(r@) =~= Seq::<Seq<char>>::empty());
                        r
                    },
                }
            },
        },
        None => {
            let r: Vec<String> = Vec::new();
            assert(texts(r@) =~= Seq::<Seq<char>>::empty());
            r
        },
    }
}

// ---------------------------------------------------------------------------
// Where a workspace's manifest is, and what its tab is called
// ---------------------------------------------------------------------------

/// Whether a path matched by a workspace pattern is itself the manifest
/// (a file named `package.json`), rather than a directory or other path
/// that `package.json` is joined onto.
pub fn matched_path_is_manifest(is_dir: bool, file_name: Option<&str>) -> (r: bool)
    ensures
        r == (!is_dir && file_name is Some && file_name->0@ == "package.json"@),
{
    if is_dir {
        return false;
    }
    match file_name {
        Some(name) => {
            let a = chars_of(name);
            let b = chars_of("package.json");
            chars_equal(a.as_slice(), b.as_slice())
        },
        None => false,
    }
}

/// The title of a workspace's tab: the name given for it if there is one,
/// otherwise the manifest's `name` string, otherwise the name of the
/// directory the manifest is in, otherwise `workspace`.
pub open spec fn tab_title(
    given: Option<Seq<char>>,
    manifest: JsonValue,
    dir_name: Option<Seq<char>>,
) -> Seq<char> {
    match given {
        Some(t) => t,
        None => match json_field(manifest, "name"@) {
            Some(JsonValue::Str(s)) => s@,
            _ => match dir_name {
                Some(d) => d,
                None => "workspace"@,
            },
        },
    }
}

/// The title of a workspace's tab (see `tab_title`).
pub fn tab_name_for(given: Option<String>, manifest: &JsonValue, dir_name: Option<String>) -> (r:
    String)
    ensures
        r@ == tab_title(
            match given {
                Some(g) => Some(g@),
                None => None,
            },
            *manifest,
            match dir_name {
                Some(d) => Some(d@),
                None => None,
            },
        ),
{
    match given {
        Some(g) => g,
        None => {
            let key = "name".to_owned();
            match field(manifest, &key) {
                Some(JsonValue::Str(s)) => s.clone(),
                _ => match dir_name {
                    Some(d) => d,
                    None => "workspace".to_owned(),
                },
            }
        },
    }
}

/// The title of the single tab shown when a root manifest lists no
/// workspace packages: the root directory's name, or `workspace`.
pub fn root_tab_name(dir_name: Option<String>) -> (r: String)
    ensures
        r@ == match dir_name {
            Some(d) => d@,
            None => "workspace"@,
        },
{
    match dir_name {
        Some(d) => d,
        None => "workspace".to_owned(),
    }
}


/// Which manifests a project's workspaces are loaded from.
pub enum ManifestChoice {
    /// The root manifest alone, shown under this tab title.
    Root(String),
    /// The matched manifests at these positions, in this order.
    Matched(Vec<usize>),
}

/// The manifests to load, given the manifests the workspace patterns
/// matched (as path parts, in the order found) and the root directory's
/// name: the distinct matched manifests in path order, each at the first
/// position it was found at; or, when nothing matched, the root manifest
/// alone, titled by the root directory's name or `workspace`.
pub fn choose_manifests(matched: &Vec<Vec<PathPart>>, root_dir_name: Option<String>) -> (r:
    ManifestChoice)
    ensures
        matched.len() == 0 <==> r is Root,
        r matches ManifestChoice::Root(tab) ==> tab@ == match root_dir_name {
            Some(d) => d@,
            None => "workspace"@,
        },
        r matches ManifestChoice::Matched(ps) ==> {
            &&& forall|j: int| 0 <= j < ps.len() ==> ps[j] < matched.len()
            &&& sorted_by_path(matched@, ps@)
            &&& covers_paths(matched@, ps@, matched.len() as int)
            &&& first_positions(matched@, ps@)
        },
{
    if matched.len() == 0 {
        ManifestChoice::Root(root_tab_name(root_dir_name))
    } else {
        ManifestChoice::Matched(distinct_sorted_paths(matched))
    }
}

// ---------------------------------------------------------------------------
// Dependencies worth looking up
// ---------------------------------------------------------------------------

/// A specifier that does not name a registry release: a workspace, file or
/// link reference, a git or URL source, a GitHub shorthand or an alias.
pub open spec fn is_local_spec(s: Seq<char>) -> bool {
    ||| has_prefix(s, "workspace:"@)
    ||| has_prefix(s, "file:"@)
    ||| has_prefix(s, "link:"@)
    ||| has_prefix(s, "git+"@)
    ||| has_prefix(s, "http://"@)
    ||| has_prefix(s, "https://"@)
    ||| has_prefix(s, "github:"@)
    ||| has_prefix(s, "npm:"@)
}

fn local_spec(s: &[char]) -> (r: bool)
    ensures
        r == is_local_spec(s@),
{
    starts_with_chars(s, chars_of("workspace:").as_slice()) || starts_with_chars(
        s,
        chars_of("file:").as_slice(),
    ) || starts_with_chars(s, chars_of("link:").as_slice()) || starts_with_chars(
        s,
        chars_of("git+").as_slice(),
    ) || starts_with_chars(s, chars_of("http://").as_slice()) || starts_with_chars(
        s,
        chars_of("https://").as_slice(),
    ) || starts_with_chars(s, chars_of("github:").as_slice()) || starts_with_chars(
        s,
        chars_of("npm:").as_slice(),
    )
}

/// Whether a dependency member is looked up in the registry: its
/// specifier is a string, does not (once trimmed) name a local or direct
/// source, and holds a version that `semver` accepts.
pub open spec fn member_is_candidate(m: JsonMember) -> bool {
    match json_text(m.value) {
        Some(t) => !is_local_spec(trimmed(t)) && specifier_version(trimmed(t)) is Some,
        None => false,
    }
}

/// The members of a dependency section that are looked up, in order.
pub open spec fn candidate_members(ms: Seq<JsonMember>) -> Seq<JsonMember>
    decreases ms.len(),
{
    if ms.len() == 0 {
        Seq::empty()
    } else {
        let rest = candidate_members(ms.drop_last());
        if member_is_candidate(ms.last()) {
            rest.push(ms.last())
        } else {
            rest
        }
    }
}

/// The members of one section of a manifest that are looked up, each with
/// its section.
pub open spec fn section_candidates(manifest: JsonValue, section: DependencySection) -> Seq<
    (DependencySection, JsonMember),
> {
    match json_field(manifest, section.key_text()) {
        Some(JsonValue::Object(ms)) => candidate_members(ms@).map_values(
            |m: JsonMember| (section, m),
        ),
        _ => Seq::empty(),
    }
}

/// The members of the given sections of a manifest that are looked up,
/// section by section.
pub open spec fn candidates_in(manifest: JsonValue, sections: Seq<DependencySection>) -> Seq<
    (DependencySection, JsonMember),
>
    decreases sections.len(),
{
    if sections.len() == 0 {
        Seq::empty()
    } else {
        candidates_in(manifest, sections.drop_last()) + section_candidates(
            manifest,
            sections.last(),
        )
    }
}

/// The sections in the order they are read.
pub open spec fn section_order() -> Seq<DependencySection> {
    seq![
        DependencySection::Dependencies,
        DependencySection::DevDependencies,
        DependencySection::PeerDependencies,
        DependencySection::OptionalDependencies,
    ]
}

/// The dependencies of a manifest that are looked up, in the order they
/// are read.
pub open spec fn manifest_candidates(manifest: JsonValue) -> Seq<(DependencySection, JsonMember)> {
    candidates_in(manifest, section_order())
}

/// A dependency to look up: its name and section, its specifier as
/// written, and the version the specifier names.
#[derive(Debug)]
pub struct DependencyCandidate {
    pub name: String,
    pub section: DependencySection,
    pub spec: String,
    pub current_version: SemVersion,
}

/// The plain content of a `DependencyCandidate`.
pub struct CandidateView {
    pub name: Seq<char>,
    pub section: DependencySection,
    pub spec: Seq<char>,
    pub current_version: VersionView,
}

impl View for DependencyCandidate {
    type V = CandidateView;

    open spec fn view(&self) -> CandidateView {
        CandidateView {
            name: self.name@,
            section: self.section,
            spec: self.spec@,
            current_version: self.current_version@,
        }
    }
}

/// `c` is the candidate made of member `m` of `section`.
pub open spec fn candidate_of(c: CandidateView, section: DependencySection, m: JsonMember) -> bool {
    &&& c.section == section
    &&& c.name == m.key@
    &&& json_text(m.value) == Some(c.spec)
    &&& specifier_version(trimmed(c.spec)) == Some(c.current_version)
}

/// `cs` are the candidates made of `ms`, one for one.
pub open spec fn candidates_of(
    cs: Seq<DependencyCandidate>,
    ms: Seq<(DependencySection, JsonMember)>,
) -> bool {
    &&& cs.len() == ms.len()
    &&& forall|i: int| 0 <= i < cs.len() ==> candidate_of(#[trigger] cs[i]@, ms[i].0, ms[i].1)
}

fn add_section_candidates(
    out: &mut Vec<DependencyCandidate>,
    manifest: &JsonValue,
    section: DependencySection,
)
    ensures
        final(out)@.len() == old(out)@.len() + section_candidates(*manifest, section).len(),
        forall|i: int| 0 <= i < old(out)@.len() ==> #[trigger] final(out)@[i] == old(out)@[i],
        forall|i: int|
            0 <= i < section_candidates(*manifest, section).len() ==> candidate_of(
                #[trigger] final(out)@[old(out)@.len() + i]@,
                section_candidates(*manifest, section)[i].0,
                section_candidates(*manifest, section)[i].1,
            ),
{
    let key = section.key().to_owned();
    match field(manifest, &key) {
        Some(JsonValue::Object(ms)) => {
            let ghost base = out@.len();
            let mut j: usize = 0;
            while j < ms.len()
                invariant
                    j <= ms@.len(),
                    json_field(*manifest, section.key_text()) == Some(JsonValue::Object(*ms)),
                    out@.len() == base + candidate_members(ms@.take(j as int)).len(),
                    base == old(out)@.len(),
                    forall|i: int| 0 <= i < base ==> #[trigger] out@[i] == old(out)@[i],
                    forall|i: int|
                        0 <= i < candidate_members(ms@.take(j as int)).len() ==> candidate_of(
                            #[trigger] out@[base + i]@,
                            section,
                            candidate_members(ms@.take(j as int))[i],
                        ),
                decreases ms@.len() - j,
            {
                assert(ms@.take(j + 1).drop_last() =~= ms@.take(j as int));
                let m = &ms[j];
                match &m.value {
                    JsonValue::Str(t) => {
                        let tc = chars_of(t.as_str());
                        let tr = trim_chars(tc.as_slice());
                        if !local_spec(tr.as_slice()) {
                            let norm = string_from_chars(tr.as_slice());
                            match extract_first_semver(norm.as_str()) {
                                Some(v) => {
                                    out.push(
                                        DependencyCandidate {
                                            name: m.key.clone(),
                                            section,
                                            spec: t.clone(),
                                            current_version: v,
                                        },
                                    );
                                },
                                None => {},
                            }
                        }
                    },
                    _ => {},
                }
                j = j + 1;
            }
            assert(ms@.take(ms@.len() as int) =~= ms@);
        },
        _ => {},
    }
}

/// No two candidates have both the same name and the same section.
pub open spec fn candidate_pairs_distinct(cs: Seq<CandidateView>) -> bool {
    forall|i: int, j: int|
        0 <= i < j < cs.len() ==> !((#[trigger] cs[i]).name == (#[trigger] cs[j]).name
            && cs[i].section == cs[j].section)
}

proof fn lemma_candidate_members(ms: Seq<JsonMember>)
    ensures
        forall|i: int|
            0 <= i < candidate_members(ms).len() ==> ms.contains(
                #[trigger] candidate_members(ms)[i],
            ),
        keys_distinct(ms) ==> keys_distinct(candidate_members(ms)),
    decreases ms.len(),
{
    if ms.len() > 0 {
        let rest = ms.drop_last();
        lemma_candidate_members(rest);
        let cm = candidate_members(ms);
        let cr = candidate_members(rest);
        assert forall|i: int| 0 <= i < cm.len() implies ms.contains(#[trigger] cm[i]) by {
            if i < cr.len() {
                assert(cm[i] == cr[i]);
                let k = choose|k: int| 0 <= k < rest.len() && rest[k] == cr[i];
                assert(ms[k] == rest[k]);
            } else {
                assert(cm[i] == ms[ms.len() - 1]);
            }
        }
        if keys_distinct(ms) {
            assert(keys_distinct(rest)) by {
                assert forall|i: int, j: int| 0 <= i < j < rest.len() implies (#[trigger] rest[i]).key@
                    != (#[trigger] rest[j]).key@ by {
                    assert(rest[i] == ms[i] && rest[j] == ms[j]);
                }
            }
            assert forall|i: int, j: int| 0 <= i < j < cm.len() implies (#[trigger] cm[i]).key@
                != (#[trigger] cm[j]).key@ by {
                if j < cr.len() {
                    assert(cm[i] == cr[i] && cm[j] == cr[j]);
                } else {
                    assert(cm[j] == ms[ms.len() - 1]);
                    assert(cm[i] == cr[i]);
                    let k = choose|k: int| 0 <= k < rest.len() && rest[k] == cr[i];
                    assert(ms[k] == rest[k]);
                }
            }
        }
    }
}

/// Every looked-up member comes from an object section of the manifest,
/// and in a well-formed manifest no two share both section and key.
proof fn lemma_candidates_in(manifest: JsonValue, secs: Seq<DependencySection>)
    ensures
        forall|i: int|
            0 <= i < candidates_in(manifest, secs).len() ==> {
                let (s, m) = #[trigger] candidates_in(manifest, secs)[i];
                &&& secs.contains(s)
                &&& json_field(manifest, s.key_text()) matches Some(JsonValue::Object(ms))
                &&& ms@.contains(m)
            },
        json_well_formed(manifest) && (forall|a: int, b: int|
            0 <= a < b < secs.len() ==> secs[a] != secs[b]) ==> forall|i: int, j: int|
            0 <= i < j < candidates_in(manifest, secs).len() ==> !((
            #[trigger] candidates_in(manifest, secs)[i]).1.key@ == (
            #[trigger] candidates_in(manifest, secs)[j]).1.key@ && candidates_in(
                manifest,
                secs,
            )[i].0 == candidates_in(manifest, secs)[j].0),
    decreases secs.len(),
{
    if secs.len() > 0 {
        let rest = secs.drop_last();
        let last = secs.last();
        lemma_candidates_in(manifest, rest);
        let before = candidates_in(manifest, rest);
        let added = section_candidates(manifest, last);
        let all = candidates_in(manifest, secs);
        assert(all == before + added);
        let ms_opt = json_field(manifest, last.key_text());
        if let Some(JsonValue::Object(ms)) = ms_opt {
            lemma_candidate_members(ms@);
        }
        assert forall|i: int| 0 <= i < all.len() implies {
            let (s, m) = #[trigger] all[i];
            &&& secs.contains(s)
            &&& json_field(manifest, s.key_text()) matches Some(JsonValue::Object(ms))
            &&& ms@.contains(m)
        } by {
            if i < before.len() {
                assert(all[i] == before[i]);
                let k = choose|k: int| 0 <= k < rest.len() && rest[k] == before[i].0;
                assert(secs[k] == rest[k]);
            } else {
                assert(all[i] == added[i - before.len()]);
                assert(secs[secs.len() - 1] == last);
            }
        }
        if json_well_formed(manifest) && (forall|a: int, b: int|
            0 <= a < b < secs.len() ==> secs[a] != secs[b]) {
            assert forall|a: int, b: int| 0 <= a < b < rest.len() implies rest[a] != rest[b] by {
                assert(rest[a] == secs[a] && rest[b] == secs[b]);
            }
            if ms_opt is Some {
                lemma_field_well_formed(manifest, last.key_text());
            }
            assert forall|i: int, j: int| 0 <= i < j < all.len() implies !((#[trigger] all[i]).1.key@
                == (#[trigger] all[j]).1.key@ && all[i].0 == all[j].0) by {
                if j < before.len() {
                    assert(all[i] == before[i] && all[j] == before[j]);
                } else if i >= before.len() {
                    assert(all[i] == added[i - before.len()] && all[j] == added[j - before.len()]);
                } else {
                    assert(all[i] == before[i] && all[j] == added[j - before.len()]);
                    let k = choose|k: int| 0 <= k < rest.len() && rest[k] == before[i].0;
                    assert(secs[k] == rest[k]);
                    assert(secs[secs.len() - 1] == last);
                }
            }
        }
    }
}

/// The specifier `t`, trimmed, starts with none of the texts that mark a
/// source other than the registry.
pub open spec fn names_no_local_source(t: Seq<char>) -> bool {
    let s = trimmed(t);
    &&& !has_prefix(s, "workspace:"@)
    &&& !has_prefix(s, "file:"@)
    &&& !has_prefix(s, "link:"@)
    &&& !has_prefix(s, "git+"@)
    &&& !has_prefix(s, "http://"@)
    &&& !has_prefix(s, "https://"@)
    &&& !has_prefix(s, "github:"@)
    &&& !has_prefix(s, "npm:"@)
}

proof fn lemma_candidate_members_qualify(ms: Seq<JsonMember>)
    ensures
        forall|i: int|
            0 <= i < candidate_members(ms).len() ==> member_is_candidate(
                #[trigger] candidate_members(ms)[i],
            ),
    decreases ms.len(),
{
    if ms.len() > 0 {
        let rest = candidate_members(ms.drop_last());
        lemma_candidate_members_qualify(ms.drop_last());
        assert forall|i: int| 0 <= i < candidate_members(ms).len() implies member_is_candidate(
            #[trigger] candidate_members(ms)[i],
        ) by {
            if i < rest.len() {
                assert(candidate_members(ms)[i] == rest[i]);
            }
        }
    }
}

proof fn lemma_candidates_in_qualify(manifest: JsonValue, secs: Seq<DependencySection>)
    ensures
        forall|i: int|
            0 <= i < candidates_in(manifest, secs).len() ==> member_is_candidate(
                (#[trigger] candidates_in(manifest, secs)[i]).1,
            ),
    decreases secs.len(),
{
    if secs.len() > 0 {
        lemma_candidates_in_qualify(manifest, secs.drop_last());
        let before = candidates_in(manifest, secs.drop_last());
        let added = section_candidates(manifest, secs.last());
        if let Some(JsonValue::Object(ms)) = json_field(manifest, secs.last().key_text()) {
            lemma_candidate_members_qualify(ms@);
        }
        assert forall|i: int| 0 <= i < candidates_in(manifest, secs).len() implies member_is_candidate(
            (#[trigger] candidates_in(manifest, secs)[i]).1,
        ) by {
            if i >= before.len() {
                assert(candidates_in(manifest, secs)[i] == added[i - before.len()]);
            } else {
                assert(candidates_in(manifest, secs)[i] == before[i]);
            }
        }
    }
}

/// Every dependency that is looked up has a string specifier that, once
/// trimmed, starts with none of `workspace:`, `file:`, `link:`, `git+`,
/// `http://`, `https://`, `github:` and `npm:`, and names a version.
pub proof fn lemma_looked_up_specs_name_registry_releases(manifest: JsonValue)
    ensures
        forall|i: int|
            0 <= i < manifest_candidates(manifest).len() ==> {
                let m = (#[trigger] manifest_candidates(manifest)[i]).1;
                &&& json_text(m.value) is Some
                &&& names_no_local_source(json_text(m.value)->0)
                &&& specifier_version(trimmed(json_text(m.value)->0)) is Some
            },
{
    reveal_strlit("workspace:");
    lemma_candidates_in_qualify(manifest, section_order());
}

/// Member `m` has a string specifier that, trimmed, starts with no
/// local-source text and names a version.
pub open spec fn names_registry_version(m: JsonMember) -> bool {
    &&& json_text(m.value) is Some
    &&& names_no_local_source(json_text(m.value)->0)
    &&& specifier_version(trimmed(json_text(m.value)->0)) is Some
}

proof fn lemma_candidate_members_complete(ms: Seq<JsonMember>)
    ensures
        forall|j: int|
            0 <= j < ms.len() && names_registry_version(#[trigger] ms[j]) ==> candidate_members(
                ms,
            ).contains(ms[j]),
    decreases ms.len(),
{
    if ms.len() > 0 {
        let rest = ms.drop_last();
        lemma_candidate_members_complete(rest);
        let cr = candidate_members(rest);
        let cm = candidate_members(ms);
        assert forall|j: int| 0 <= j < ms.len() && names_registry_version(#[trigger] ms[j]) implies cm.contains(
            ms[j],
        ) by {
            reveal_strlit("workspace:");
            if j < rest.len() {
                assert(rest[j] == ms[j]);
                assert(cr.contains(rest[j]));
                let i = choose|i: int| 0 <= i < cr.len() && cr[i] == rest[j];
                if member_is_candidate(ms.last()) {
                    assert(cm[i] == cr[i]);
                }
            } else {
                assert(member_is_candidate(ms[j]));
                assert(cm[cm.len() - 1] == ms[j]);
            }
        }
    }
}

/// The members of section `section` of a manifest, if it is an object;
/// none otherwise.
pub open spec fn section_members(manifest: JsonValue, section: DependencySection) -> Seq<JsonMember> {
    match json_field(manifest, section.key_text()) {
        Some(JsonValue::Object(ms)) => ms@,
        _ => Seq::empty(),
    }
}

proof fn lemma_candidates_in_complete(manifest: JsonValue, secs: Seq<DependencySection>)
    ensures
        forall|k: int, j: int|
            0 <= k < secs.len() && 0 <= j < section_members(manifest, secs[k]).len()
                && names_registry_version(#[trigger] section_members(manifest, #[trigger] secs[k])[j])
                ==> candidates_in(manifest, secs).contains(
                (secs[k], section_members(manifest, secs[k])[j]),
            ),
    decreases secs.len(),
{
    if secs.len() > 0 {
        let rest = secs.drop_last();
        lemma_candidates_in_complete(manifest, rest);
        let before = candidates_in(manifest, rest);
        let added = section_candidates(manifest, secs.last());
        let all = candidates_in(manifest, secs);
        assert(all == before + added);
        assert forall|k: int, j: int|
            0 <= k < secs.len() && 0 <= j < section_members(manifest, secs[k]).len()
                && names_registry_version(#[trigger] section_members(manifest, #[trigger] secs[k])[j])
                implies all.contains((secs[k], section_members(manifest, secs[k])[j])) by {
            let ms = section_members(manifest, secs[k]);
            if k < rest.len() {
                assert(rest[k] == secs[k]);
                assert(before.contains((rest[k], section_members(manifest, rest[k])[j])));
                let i = choose|i: int| 0 <= i < before.len() && before[i] == (rest[k], ms[j]);
                assert(all[i] == before[i]);
            } else {
                assert(secs[k] == secs.last());
                lemma_candidate_members_complete(ms);
                let cm = candidate_members(ms);
                assert(cm.contains(ms[j]));
                let i = choose|i: int| 0 <= i < cm.len() && cm[i] == ms[j];
                assert(added[i] == (secs.last(), cm[i]));
                assert(all[before.len() + i] == added[i]);
            }
        }
    }
}

/// Every dependency whose specifier is a string that, trimmed, starts with
/// none of the local-source texts and names a version is looked up, in
/// every one of the four sections.
pub proof fn lemma_registry_specs_are_looked_up(manifest: JsonValue, section: DependencySection)
    ensures
        forall|j: int|
            0 <= j < section_members(manifest, section).len() && names_registry_version(
                #[trigger] section_members(manifest, section)[j],
            ) ==> manifest_candidates(manifest).contains(
                (section, section_members(manifest, section)[j]),
            ),
{
    lemma_candidates_in_complete(manifest, section_order());
    let k: int = match section {
        DependencySection::Dependencies => 0,
        DependencySection::DevDependencies => 1,
        DependencySection::PeerDependencies => 2,
        DependencySection::OptionalDependencies => 3,
    };
    assert(section_order()[k] == section);
}

/// The dependencies of a manifest to look up in the registry, in the order
/// they are read: section by section, and within a section in member
/// order. In a well-formed manifest (distinct keys in every object), no
/// two candidates share name and section, and each candidate's specifier
/// is what the manifest holds for it.
pub fn dependency_candidates(manifest: &JsonValue) -> (r: Vec<DependencyCandidate>)
    ensures
        candidates_of(r@, manifest_candidates(*manifest)),
        json_well_formed(*manifest) ==> candidate_pairs_distinct(candidate_views(r@)),
        json_well_formed(*manifest) ==> forall|i: int|
            0 <= i < r@.len() ==> text_of(
                dependency_value(*manifest, (#[trigger] r@[i]).section.key_text(), r@[i].name@),
            ) == Some(r@[i].spec@),
        forall|i: int|
            0 <= i < r@.len() ==> names_no_local_source((#[trigger] r@[i]).spec@)
                && specifier_version(trimmed(r@[i].spec@)) is Some,
        forall|section: DependencySection, j: int|
            0 <= j < section_members(*manifest, section).len() && names_registry_version(
                #[trigger] section_members(*manifest, section)[j],
            ) ==> exists|i: int|
                0 <= i < r@.len() && r@[i].section == section && r@[i].name@ == section_members(
                    *manifest,
                    section,
                )[j].key@ && json_text(section_members(*manifest, section)[j].value) == Some(
                    #[trigger] r@[i].spec@,
                ),
{
    let sections = DependencySection::all();
    let mut out: Vec<DependencyCandidate> = Vec::new();
    let mut k: usize = 0;
    while k < 4
        invariant
            k <= 4,
            sections@ == section_order(),
            candidates_of(out@, candidates_in(*manifest, section_order().take(k as int))),
        decreases 4 - k,
    {
        let ghost before = out@;
        let ghost done = candidates_in(*manifest, section_order().take(k as int));
        add_section_candidates(&mut out, manifest, sections[k]);
        assert(section_order().take(k + 1).drop_last() =~= section_order().take(k as int));
        let ghost added = section_candidates(*manifest, section_order()[k as int]);
        assert(candidates_in(*manifest, section_order().take(k + 1)) =~= done + added);
        assert forall|i: int| 0 <= i < out@.len() implies candidate_of(
            #[trigger] out@[i]@,
            (done + added)[i].0,
            (done + added)[i].1,
        ) by {
            if i < before.len() {
                assert(out@[i] == before[i]);
            } else {
                assert(out@[before.len() + (i - before.len())] == out@[i]);
            }
        }
        k = k + 1;
    }
    assert(section_order().take(4) =~= section_order());
    proof {
        let mc = manifest_candidates(*manifest);
        lemma_candidates_in(*manifest, section_order());
        lemma_looked_up_specs_name_registry_releases(*manifest);
        assert forall|section: DependencySection, j: int|
            0 <= j < section_members(*manifest, section).len() && names_registry_version(
                #[trigger] section_members(*manifest, section)[j],
            ) implies exists|i: int|
                0 <= i < out@.len() && out@[i].section == section && out@[i].name@
                    == section_members(*manifest, section)[j].key@ && json_text(
                    section_members(*manifest, section)[j].value,
                ) == Some(#[trigger] out@[i].spec@) by {
            lemma_registry_specs_are_looked_up(*manifest, section);
            let m = section_members(*manifest, section)[j];
            assert(mc.contains((section, m)));
            let i = choose|i: int| 0 <= i < mc.len() && mc[i] == (section, m);
            assert(candidate_of(out@[i]@, mc[i].0, mc[i].1));
        }
        assert forall|i: int| 0 <= i < out@.len() implies names_no_local_source(
            (#[trigger] out@[i]).spec@,
        ) && specifier_version(trimmed(out@[i].spec@)) is Some by {
            assert(candidate_of(out@[i]@, mc[i].0, mc[i].1));
        }
        if json_well_formed(*manifest) {
            let cv = candidate_views(out@);
            assert forall|i: int, j: int| 0 <= i < j < cv.len() implies !((#[trigger] cv[i]).name
                == (#[trigger] cv[j]).name && cv[i].section == cv[j].section) by {
                assert(candidate_of(out@[i]@, mc[i].0, mc[i].1));
                assert(candidate_of(out@[j]@, mc[j].0, mc[j].1));
            }
            assert forall|i: int| 0 <= i < out@.len() implies text_of(
                dependency_value(*manifest, (#[trigger] out@[i]).section.key_text(), out@[i].name@),
            ) == Some(out@[i].spec@) by {
                assert(candidate_of(out@[i]@, mc[i].0, mc[i].1));
                let (s, m) = mc[i];
                let key = s.key_text();
                lemma_field_well_formed(*manifest, key);
                let ms = json_field(*manifest, key)->0->Object_0;
                let k = choose|k: int| 0 <= k < ms@.len() && ms@[k] == m;
                lemma_member_found(ms@, k);
            }
        }
    }
    out
}


// ---------------------------------------------------------------------------
// Entries for the dependencies with newer releases, in display order
// ---------------------------------------------------------------------------

/// The display order of entries: by name, then by section key.
pub open spec fn entry_less(a: EntryView, b: EntryView) -> bool {
    ||| seq_less(a.name, b.name)
    ||| a.name == b.name && seq_less(a.section.key_text(), b.section.key_text())
}

/// `s` is in display order: no entry comes before one it follows.
pub open spec fn entries_sorted(s: Seq<EntryView>) -> bool {
    forall|i: int, j: int| 0 <= i < j < s.len() ==> !entry_less(#[trigger] s[j], #[trigger] s[i])
}

pub proof fn lemma_entry_less_irreflexive(a: EntryView)
    ensures
        !entry_less(a, a),
{
    lemma_seq_less_irreflexive(a.name);
    lemma_seq_less_irreflexive(a.section.key_text());
}

pub proof fn lemma_entry_less_transitive(a: EntryView, b: EntryView, c: EntryView)
    requires
        entry_less(a, b),
        entry_less(b, c),
    ensures
        entry_less(a, c),
{
    if seq_less(a.name, b.name) && seq_less(b.name, c.name) {
        lemma_seq_less_transitive(a.name, b.name, c.name);
    } else if a.name == b.name && b.name == c.name {
        lemma_seq_less_transitive(a.section.key_text(), b.section.key_text(), c.section.key_text());
    }
}

/// Two entries are either in display order one way or the other, or have
/// the same name and section.
pub proof fn lemma_entry_less_total(a: EntryView, b: EntryView)
    ensures
        entry_less(a, b) || entry_less(b, a) || (a.name == b.name && a.section.key_text()
            == b.section.key_text()),
{
    lemma_seq_less_total(a.name, b.name);
    lemma_seq_less_total(a.section.key_text(), b.section.key_text());
}

/// The plain content of an optional version.
pub open spec fn version_views(vs: Seq<Option<SemVersion>>) -> Seq<Option<VersionView>> {
    vs.map_values(
        |o: Option<SemVersion>|
            match o {
                Some(v) => Some(v@),
                None => None,
            },
    )
}

/// The entry shown for candidate `c` whose latest release is `latest`.
pub open spec fn entry_for(c: CandidateView, latest: VersionView) -> EntryView {
    EntryView {
        name: c.name,
        section: c.section,
        current_spec: c.spec,
        current_version: c.current_version,
        latest_version: latest,
        selected: false,
    }
}

/// The entries for the candidates `cs` whose latest release, `latest[i]`
/// for candidate `i`, is known and comes after the version the specifier
/// names; in candidate order, none selected.
pub open spec fn newer_entries(cs: Seq<CandidateView>, latest: Seq<Option<VersionView>>) -> Seq<
    EntryView,
>
    decreases cs.len(),
{
    if cs.len() == 0 || latest.len() != cs.len() {
        Seq::empty()
    } else {
        let rest = newer_entries(cs.drop_last(), latest.drop_last());
        match latest.last() {
            Some(l) => if !semver_le(l, cs.last().current_version) {
                rest.push(entry_for(cs.last(), l))
            } else {
                rest
            },
            None => rest,
        }
    }
}

/// The plain content of a list of entries.
pub open spec fn entry_views(es: Seq<PackageEntry>) -> Seq<EntryView> {
    es.map_values(|e: PackageEntry| e@)
}

/// The plain content of a list of candidates.
pub open spec fn candidate_views(cs: Seq<DependencyCandidate>) -> Seq<CandidateView> {
    cs.map_values(|c: DependencyCandidate| c@)
}

fn entry_precedes(a: &PackageEntry, b: &PackageEntry) -> (r: bool)
    ensures
        r == entry_less(a@, b@),
{
    let an = chars_of(a.name.as_str());
    let bn = chars_of(b.name.as_str());
    if chars_less(an.as_slice(), bn.as_slice()) {
        return true;
    }
    if !chars_equal(an.as_slice(), bn.as_slice()) {
        return false;
    }
    let ak = chars_of(a.section.key());
    let bk = chars_of(b.section.key());
    chars_less(ak.as_slice(), bk.as_slice())
}

/// Whether entry `e` has the name `name` and the section key `key`.
pub open spec fn has_key(e: EntryView, name: Seq<char>, key: Seq<char>) -> bool {
    e.name == name && e.section.key_text() == key
}

/// The entries of `s` with name `name` and section key `key`, in their order.
pub open spec fn with_key(s: Seq<EntryView>, name: Seq<char>, key: Seq<char>) -> Seq<EntryView>
    decreases s.len(),
{
    if s.len() == 0 {
        Seq::empty()
    } else {
        let rest = with_key(s.drop_last(), name, key);
        if has_key(s.last(), name, key) {
            rest.push(s.last())
        } else {
            rest
        }
    }
}

proof fn lemma_with_key_none(s: Seq<EntryView>, name: Seq<char>, key: Seq<char>)
    requires
        forall|i: int| 0 <= i < s.len() ==> !has_key(#[trigger] s[i], name, key),
    ensures
        with_key(s, name, key) =~= Seq::<EntryView>::empty(),
    decreases s.len(),
{
    if s.len() > 0 {
        assert(!has_key(s[s.len() - 1], name, key));
        assert forall|i: int| 0 <= i < s.drop_last().len() implies !has_key(
            #[trigger] s.drop_last()[i],
            name,
            key,
        ) by {
            assert(s.drop_last()[i] == s[i]);
        }
        lemma_with_key_none(s.drop_last(), name, key);
    }
}

/// Inserting `x` in front of every entry with its name and section puts it
/// first in its group and leaves the other groups as they are.
proof fn lemma_with_key_insert(s: Seq<EntryView>, p: int, x: EntryView, name: Seq<char>, key: Seq<char>)
    requires
        0 <= p <= s.len(),
        forall|i: int| 0 <= i < p ==> !has_key(#[trigger] s[i], x.name, x.section.key_text()),
    ensures
        with_key(s.insert(p, x), name, key) =~= if has_key(x, name, key) {
            seq![x] + with_key(s, name, key)
        } else {
            with_key(s, name, key)
        },
    decreases s.len(),
{
    let t = s.insert(p, x);
    if p == s.len() {
        assert(t.drop_last() =~= s);
        assert(t.last() == x);
        if has_key(x, name, key) {
            assert forall|i: int| 0 <= i < s.len() implies !has_key(#[trigger] s[i], name, key) by {
                assert(!has_key(s[i], x.name, x.section.key_text()));
            }
            lemma_with_key_none(s, name, key);
        }
    } else {
        assert(t.drop_last() =~= s.drop_last().insert(p, x));
        assert(t.last() == s.last());
        assert forall|i: int| 0 <= i < p implies !has_key(
            #[trigger] s.drop_last()[i],
            x.name,
            x.section.key_text(),
        ) by {
            assert(s.drop_last()[i] == s[i]);
        }
        lemma_with_key_insert(s.drop_last(), p, x, name, key);
    }
}

/// `s` is in strict display order: every entry comes before the ones after it.
pub open spec fn entries_strictly_sorted(s: Seq<EntryView>) -> bool {
    forall|i: int, j: int| 0 <= i < j < s.len() ==> entry_less(#[trigger] s[i], #[trigger] s[j])
}

proof fn lemma_with_key_has(s: Seq<EntryView>, name: Seq<char>, key: Seq<char>)
    ensures
        with_key(s, name, key).len() > 0 ==> exists|i: int|
            0 <= i < s.len() && has_key(#[trigger] s[i], name, key),
    decreases s.len(),
{
    if s.len() > 0 {
        lemma_with_key_has(s.drop_last(), name, key);
        if with_key(s.drop_last(), name, key).len() > 0 {
            let i = choose|i: int|
                0 <= i < s.drop_last().len() && has_key(#[trigger] s.drop_last()[i], name, key);
            assert(s[i] == s.drop_last()[i]);
        } else if has_key(s.last(), name, key) {
            assert(has_key(s[s.len() - 1], name, key));
        }
    }
}

proof fn lemma_with_key_two(s: Seq<EntryView>, i: int, j: int, name: Seq<char>, key: Seq<char>)
    requires
        0 <= i < j < s.len(),
        has_key(s[i], name, key),
        has_key(s[j], name, key),
    ensures
        with_key(s, name, key).len() >= 2,
    decreases s.len(),
{
    let rest = s.drop_last();
    if j < s.len() - 1 {
        assert(rest[i] == s[i] && rest[j] == s[j]);
        lemma_with_key_two(rest, i, j, name, key);
    } else {
        assert(rest[i] == s[i]);
        lemma_with_key_one(rest, i, name, key);
    }
}

proof fn lemma_with_key_one(s: Seq<EntryView>, i: int, name: Seq<char>, key: Seq<char>)
    requires
        0 <= i < s.len(),
        has_key(s[i], name, key),
    ensures
        with_key(s, name, key).len() >= 1,
    decreases s.len(),
{
    if i < s.len() - 1 {
        assert(s.drop_last()[i] == s[i]);
        lemma_with_key_one(s.drop_last(), i, name, key);
    }
}

/// Each entry built is the entry for one of the candidates.
proof fn lemma_newer_entries_origin(cs: Seq<CandidateView>, latest: Seq<Option<VersionView>>)
    ensures
        forall|i: int|
            0 <= i < newer_entries(cs, latest).len() ==> exists|t: int|
                0 <= t < cs.len() && #[trigger] newer_entries(cs, latest)[i] == entry_for(
                    #[trigger] cs[t],
                    newer_entries(cs, latest)[i].latest_version,
                ),
    decreases cs.len(),
{
    if cs.len() > 0 && latest.len() == cs.len() {
        let rc = cs.drop_last();
        lemma_newer_entries_origin(rc, latest.drop_last());
        let n = newer_entries(cs, latest);
        let r = newer_entries(rc, latest.drop_last());
        assert forall|i: int| 0 <= i < n.len() implies exists|t: int|
            0 <= t < cs.len() && #[trigger] n[i] == entry_for(#[trigger] cs[t], n[i].latest_version) by {
            if i < r.len() {
                assert(n[i] == r[i]);
                let t = choose|t: int|
                    0 <= t < rc.len() && #[trigger] r[i] == entry_for(#[trigger] rc[t], r[i].latest_version);
                assert(cs[t] == rc[t]);
            } else {
                assert(cs[cs.len() - 1] == cs.last());
            }
        }
    }
}

/// Every entry built carries the name, section and specifier of a
/// candidate, so where each candidate's specifier is what the manifest
/// holds for it, so is each entry's.
pub proof fn lemma_entries_match_manifest(
    manifest: JsonValue,
    cs: Seq<CandidateView>,
    latest: Seq<Option<VersionView>>,
    built: Seq<EntryView>,
)
    requires
        forall|i: int|
            0 <= i < cs.len() ==> text_of(
                dependency_value(manifest, (#[trigger] cs[i]).section.key_text(), cs[i].name),
            ) == Some(cs[i].spec),
        built.to_multiset() =~= newer_entries(cs, latest).to_multiset(),
    ensures
        forall|i: int|
            0 <= i < built.len() ==> text_of(
                dependency_value(manifest, (#[trigger] built[i]).section.key_text(), built[i].name),
            ) == Some(built[i].current_spec),
{
    broadcast use vstd::seq_lib::group_to_multiset_ensures;

    lemma_newer_entries_origin(cs, latest);
    assert forall|i: int| 0 <= i < built.len() implies text_of(
        dependency_value(manifest, (#[trigger] built[i]).section.key_text(), built[i].name),
    ) == Some(built[i].current_spec) by {
        assert(built.contains(built[i]));
        assert(built.to_multiset().count(built[i]) > 0);
        assert(newer_entries(cs, latest).contains(built[i]));
        let k = choose|k: int|
            0 <= k < newer_entries(cs, latest).len() && newer_entries(cs, latest)[k] == built[i];
        let t = choose|t: int|
            0 <= t < cs.len() && #[trigger] newer_entries(cs, latest)[k] == entry_for(
                #[trigger] cs[t],
                newer_entries(cs, latest)[k].latest_version,
            );
        assert(text_of(dependency_value(manifest, cs[t].section.key_text(), cs[t].name))
            == Some(cs[t].spec));
    }
}

/// With no two candidates sharing name and section, no two entries built
/// share them either.
proof fn lemma_newer_entries_key_once(
    cs: Seq<CandidateView>,
    latest: Seq<Option<VersionView>>,
    name: Seq<char>,
    key: Seq<char>,
)
    requires
        candidate_pairs_distinct(cs),
    ensures
        with_key(newer_entries(cs, latest), name, key).len() <= 1,
    decreases cs.len(),
{
    if cs.len() > 0 && latest.len() == cs.len() {
        let rc = cs.drop_last();
        let rl = latest.drop_last();
        assert forall|i: int, j: int| 0 <= i < j < rc.len() implies !((#[trigger] rc[i]).name == (
        #[trigger] rc[j]).name && rc[i].section == rc[j].section) by {
            assert(rc[i] == cs[i] && rc[j] == cs[j]);
        }
        lemma_newer_entries_key_once(rc, rl, name, key);
        let n = newer_entries(cs, latest);
        let r = newer_entries(rc, rl);
        if n.len() > r.len() {
            assert(n.drop_last() =~= r);
            if has_key(n.last(), name, key) {
                lemma_with_key_has(r, name, key);
                if with_key(r, name, key).len() > 0 {
                    let i = choose|i: int| 0 <= i < r.len() && has_key(#[trigger] r[i], name, key);
                    lemma_newer_entries_origin(rc, rl);
                    let t = choose|t: int|
                        0 <= t < rc.len() && #[trigger] r[i] == entry_for(
                            #[trigger] rc[t],
                            r[i].latest_version,
                        );
                    assert(cs[t] == rc[t]);
                    let last = cs[cs.len() - 1];
                    assert(n.last().section == last.section);
                    rc[t].section.lemma_key_text_injective(last.section);
                    assert(!(cs[t].name == last.name && cs[t].section == last.section));
                }
            }
        } else {
            assert(n == r);
        }
    }
}

proof fn lemma_insert_multiset<A>(s: Seq<A>, p: int, x: A)
    requires
        0 <= p <= s.len(),
    ensures
        s.insert(p, x).to_multiset() =~= s.to_multiset().insert(x),
{
    broadcast use vstd::seq_lib::group_to_multiset_ensures;

    let t = s.insert(p, x);
    assert(t.remove(p) =~= s);
    assert(t[p] == x);
    assert(t.to_multiset().count(x) > 0) by {
        assert(t.contains(x));
    }
}

/// Puts `e` into the sorted list `out`, in front of every entry it does not
/// come after.
fn insert_sorted(out: &mut Vec<PackageEntry>, e: PackageEntry)
    requires
        entries_sorted(entry_views(old(out)@)),
    ensures
        entries_sorted(entry_views(final(out)@)),
        entry_views(final(out)@).to_multiset() =~= entry_views(old(out)@).to_multiset().insert(e@),
        forall|name: Seq<char>, key: Seq<char>|
            #[trigger] with_key(entry_views(final(out)@), name, key) == if has_key(e@, name, key) {
                seq![e@] + with_key(entry_views(old(out)@), name, key)
            } else {
                with_key(entry_views(old(out)@), name, key)
            },
{
    let mut p: usize = 0;
    while p < out.len() && entry_precedes(&out[p], &e)
        invariant
            p <= out@.len(),
            out@ == old(out)@,
            forall|i: int| 0 <= i < p ==> entry_less(#[trigger] out@[i]@, e@),
        decreases out@.len() - p,
    {
        p = p + 1;
    }
    let ghost before = entry_views(out@);
    let ghost ev = e@;
    out.insert(p, e);
    let ghost after = entry_views(out@);
    assert(after =~= before.insert(p as int, ev));
    proof {
        lemma_insert_multiset(before, p as int, ev);
        assert forall|i: int| 0 <= i < p implies !has_key(
            #[trigger] before[i],
            ev.name,
            ev.section.key_text(),
        ) by {
            assert(entry_less(before[i], ev));
            lemma_seq_less_irreflexive(ev.name);
            lemma_seq_less_irreflexive(ev.section.key_text());
        }
        assert forall|name: Seq<char>, key: Seq<char>|
            #[trigger] with_key(after, name, key) == if has_key(ev, name, key) {
                seq![ev] + with_key(before, name, key)
            } else {
                with_key(before, name, key)
            } by {
            lemma_with_key_insert(before, p as int, ev, name, key);
        }
        assert forall|i: int, j: int| 0 <= i < j < after.len() implies !entry_less(
            #[trigger] after[j],
            #[trigger] after[i],
        ) by {
            if j < p {
                assert(after[i] == before[i] && after[j] == before[j]);
            } else if j == p {
                assert(after[i] == before[i]);
                assert(entry_less(before[i], ev));
                if entry_less(ev, before[i]) {
                    lemma_entry_less_transitive(ev, before[i], ev);
                    lemma_entry_less_irreflexive(ev);
                }
            } else if i == p {
                assert(after[j] == before[j - 1]);
                // `before[p]` is not before `ev`, and `before[j - 1]` is not before `before[p]`.
                assert(!entry_less(before[p as int], ev));
                if j - 1 > p {
                    assert(!entry_less(before[j - 1], before[p as int]));
                }
                if entry_less(before[j - 1], ev) {
                    lemma_entry_less_total(before[p as int], ev);
                    lemma_entry_less_total(before[j - 1], before[p as int]);
                    if entry_less(ev, before[p as int]) {
                        if entry_less(before[p as int], before[j - 1]) {
                            lemma_entry_less_transitive(ev, before[p as int], before[j - 1]);
                            lemma_entry_less_transitive(ev, before[j - 1], ev);
                        } else {
                            lemma_entry_less_transitive(before[j - 1], ev, before[p as int]);
                            lemma_entry_less_transitive(ev, before[j - 1], ev);
                        }
                        lemma_entry_less_irreflexive(ev);
                    } else {
                        if entry_less(before[p as int], before[j - 1]) {
                            lemma_entry_less_transitive(before[p as int], before[j - 1], ev);
                        }
                    }
                }
            } else if i < p {
                assert(after[i] == before[i] && after[j] == before[j - 1]);
            } else {
                assert(after[i] == before[i - 1] && after[j] == before[j - 1]);
            }
        }
    }
}

/// The entries for the candidates whose latest release is newer than the
/// version their specifier names, sorted by name and then by section key.
/// `latest[i]` is the latest release of candidate `i`, if it is known.
pub fn build_entries(candidates: Vec<DependencyCandidate>, latest: Vec<Option<SemVersion>>) -> (r:
    Vec<PackageEntry>)
    requires
        candidates.len() == latest.len(),
    ensures
        entries_sorted(entry_views(r@)),
        entry_views(r@).to_multiset() =~= newer_entries(
            candidate_views(candidates@),
            version_views(latest@),
        ).to_multiset(),
        forall|name: Seq<char>, key: Seq<char>|
            #[trigger] with_key(entry_views(r@), name, key) == with_key(
                newer_entries(candidate_views(candidates@), version_views(latest@)),
                name,
                key,
            ),
        candidate_pairs_distinct(candidate_views(candidates@)) ==> entries_strictly_sorted(
            entry_views(r@),
        ),
        forall|i: int|
            0 <= i < candidates.len() && (#[trigger] latest@[i]) is Some && !semver_le(
                latest@[i]->0@,
                candidates@[i].current_version@,
            ) ==> entry_views(r@).contains(
                EntryView {
                    name: candidates@[i].name@,
                    section: candidates@[i].section,
                    current_spec: candidates@[i].spec@,
                    current_version: candidates@[i].current_version@,
                    latest_version: latest@[i]->0@,
                    selected: false,
                },
            ),
{
    let ghost cs = candidate_views(candidates@);
    let ghost ls = version_views(latest@);
    let ghost c0 = candidates@;
    let ghost l0 = latest@;
    let mut candidates = candidates;
    let mut latest = latest;
    let mut out: Vec<PackageEntry> = Vec::new();
    proof {
        broadcast use vstd::seq_lib::group_to_multiset_ensures;
        broadcast use vstd::multiset::lemma_multiset_empty_len;

        assert(entry_views(out@) =~= Seq::<EntryView>::empty());
        assert(cs.take(candidates@.len() as int) =~= cs);
        assert(ls.take(candidates@.len() as int) =~= ls);
        assert(candidate_views(candidates@) =~= cs.take(candidates@.len() as int));
        assert(version_views(latest@) =~= ls.take(candidates@.len() as int));
        assert forall|name: Seq<char>, key: Seq<char>|
            #[trigger] with_key(newer_entries(cs, ls), name, key) == with_key(
                newer_entries(
                    cs.take(candidates@.len() as int),
                    ls.take(candidates@.len() as int),
                ),
                name,
                key,
            ) + with_key(entry_views(out@), name, key) by {
            assert(with_key(entry_views(out@), name, key) =~= Seq::<EntryView>::empty());
            assert(with_key(newer_entries(cs, ls), name, key) + Seq::<EntryView>::empty()
                =~= with_key(newer_entries(cs, ls), name, key));
        }
        assert(entry_views(out@).to_multiset().len() == 0);
    }
    while candidates.len() > 0
        invariant
            candidates.len() == latest.len(),
            candidates@.len() <= cs.len(),
            cs.len() == ls.len(),
            candidate_views(candidates@) == cs.take(candidates@.len() as int),
            version_views(latest@) == ls.take(candidates@.len() as int),
            entries_sorted(entry_views(out@)),
            entry_views(out@).to_multiset().add(
                newer_entries(
                    cs.take(candidates@.len() as int),
                    ls.take(candidates@.len() as int),
                ).to_multiset(),
            ) =~= newer_entries(cs, ls).to_multiset(),
            forall|name: Seq<char>, key: Seq<char>|
                #[trigger] with_key(newer_entries(cs, ls), name, key) == with_key(
                    newer_entries(
                        cs.take(candidates@.len() as int),
                        ls.take(candidates@.len() as int),
                    ),
                    name,
                    key,
                ) + with_key(entry_views(out@), name, key),
        decreases candidates.len(),
    {
        let ghost k = candidates@.len() as int;
        let ghost rest_c = cs.take(k - 1);
        let ghost rest_l = ls.take(k - 1);
        assert(cs.take(k).drop_last() =~= rest_c);
        assert(ls.take(k).drop_last() =~= rest_l);
        let c = candidates.pop().unwrap();
        let l = latest.pop().unwrap();
        assert(candidate_views(candidates@) =~= rest_c);
        assert(version_views(latest@) =~= rest_l);
        assert(c@ == cs[k - 1]);
        match l {
            Some(lv) => {
                if !semver_at_most(&lv, &c.current_version) {
                    let e = PackageEntry {
                        name: c.name,
                        section: c.section,
                        current_spec: c.spec,
                        current_version: c.current_version,
                        latest_version: lv,
                        selected: false,
                    };
                    let ghost ev = e@;
                    let ghost before_out = entry_views(out@);
                    insert_sorted(&mut out, e);
                    proof {
                        vstd::seq_lib::to_multiset_build(newer_entries(rest_c, rest_l), ev);
                        assert(newer_entries(cs.take(k), ls.take(k)) == newer_entries(
                            rest_c,
                            rest_l,
                        ).push(ev));
                        assert forall|name: Seq<char>, key: Seq<char>|
                            #[trigger] with_key(newer_entries(cs, ls), name, key) == with_key(
                                newer_entries(rest_c, rest_l),
                                name,
                                key,
                            ) + with_key(entry_views(out@), name, key) by {
                            let pushed = newer_entries(rest_c, rest_l).push(ev);
                            assert(pushed.drop_last() =~= newer_entries(rest_c, rest_l));
                            if has_key(ev, name, key) {
                                assert(with_key(pushed, name, key) == with_key(
                                    newer_entries(rest_c, rest_l),
                                    name,
                                    key,
                                ).push(ev));
                                assert(with_key(newer_entries(rest_c, rest_l), name, key).push(ev)
                                    + with_key(before_out, name, key) =~= with_key(
                                    newer_entries(rest_c, rest_l),
                                    name,
                                    key,
                                ) + (seq![ev] + with_key(before_out, name, key)));
                            } else {
                                assert(with_key(pushed, name, key) == with_key(
                                    newer_entries(rest_c, rest_l),
                                    name,
                                    key,
                                ));
                            }
                        }
                    }
                } else {
                    assert(newer_entries(cs.take(k), ls.take(k)) == newer_entries(rest_c, rest_l));
                }
            },
            None => {
                assert(newer_entries(cs.take(k), ls.take(k)) == newer_entries(rest_c, rest_l));
            },
        }
    }
    assert(newer_entries(cs.take(0), ls.take(0)) =~= Seq::<EntryView>::empty());
    proof {
        if candidate_pairs_distinct(cs) {
            let ov = entry_views(out@);
            assert forall|i: int, j: int| 0 <= i < j < ov.len() implies entry_less(
                #[trigger] ov[i],
                #[trigger] ov[j],
            ) by {
                lemma_entry_less_total(ov[i], ov[j]);
                if !entry_less(ov[i], ov[j]) && !entry_less(ov[j], ov[i]) {
                    let name = ov[i].name;
                    let key = ov[i].section.key_text();
                    lemma_with_key_two(ov, i, j, name, key);
                    lemma_newer_entries_key_once(cs, ls, name, key);
                    assert(with_key(newer_entries(cs.take(0), ls.take(0)), name, key)
                        =~= Seq::<EntryView>::empty());
                    assert(with_key(newer_entries(cs, ls), name, key) == Seq::<EntryView>::empty()
                        + with_key(ov, name, key));
                    assert(Seq::<EntryView>::empty() + with_key(ov, name, key) =~= with_key(
                        ov,
                        name,
                        key,
                    ));
                }
            }
        }
    }
    assert forall|name: Seq<char>, key: Seq<char>|
        #[trigger] with_key(entry_views(out@), name, key) == with_key(newer_entries(cs, ls), name, key) by {
        assert(with_key(newer_entries(cs.take(0), ls.take(0)), name, key) =~= Seq::<EntryView>::empty());
        assert(Seq::<EntryView>::empty() + with_key(entry_views(out@), name, key) =~= with_key(
            entry_views(out@),
            name,
            key,
        ));
    }
    proof {
        lemma_newer_releases_are_listed(entry_views(out@), cs, ls);
        assert forall|i: int|
            0 <= i < c0.len() && (#[trigger] l0[i]) is Some && !semver_le(
                l0[i]->0@,
                c0[i].current_version@,
            ) implies entry_views(out@).contains(
            EntryView {
                name: c0[i].name@,
                section: c0[i].section,
                current_spec: c0[i].spec@,
                current_version: c0[i].current_version@,
                latest_version: l0[i]->0@,
                selected: false,
            },
        ) by {
            assert(cs[i] == c0[i]@);
            assert(ls[i] == Some(l0[i]->0@));
        }
    }
    out
}


proof fn lemma_newer_entries_members(cs: Seq<CandidateView>, latest: Seq<Option<VersionView>>)
    ensures
        forall|i: int|
            0 <= i < newer_entries(cs, latest).len() ==> !(#[trigger] newer_entries(cs, latest)[i]).selected
                && !semver_le(
                newer_entries(cs, latest)[i].latest_version,
                newer_entries(cs, latest)[i].current_version,
            ),
    decreases cs.len(),
{
    if cs.len() > 0 && latest.len() == cs.len() {
        lemma_newer_entries_members(cs.drop_last(), latest.drop_last());
    }
}

proof fn lemma_newer_entry_present(
    cs: Seq<CandidateView>,
    latest: Seq<Option<VersionView>>,
    i: int,
    l: VersionView,
)
    requires
        cs.len() == latest.len(),
        0 <= i < cs.len(),
        latest[i] == Some(l),
        !semver_le(l, cs[i].current_version),
    ensures
        newer_entries(cs, latest).contains(
            EntryView {
                name: cs[i].name,
                section: cs[i].section,
                current_spec: cs[i].spec,
                current_version: cs[i].current_version,
                latest_version: l,
                selected: false,
            },
        ),
    decreases cs.len(),
{
    let e = EntryView {
        name: cs[i].name,
        section: cs[i].section,
        current_spec: cs[i].spec,
        current_version: cs[i].current_version,
        latest_version: l,
        selected: false,
    };
    let n = newer_entries(cs, latest);
    if i == cs.len() - 1 {
        assert(latest.last() == Some(l));
        assert(n.last() == e);
        assert(n[n.len() - 1] == e);
    } else {
        let rest = newer_entries(cs.drop_last(), latest.drop_last());
        assert(cs.drop_last()[i] == cs[i]);
        assert(latest.drop_last()[i] == latest[i]);
        lemma_newer_entry_present(cs.drop_last(), latest.drop_last(), i, l);
        let k = choose|k: int| 0 <= k < rest.len() && rest[k] == e;
        assert(n[k] == rest[k]);
    }
}

/// Every candidate whose latest release comes after the version its
/// specifier names is listed: the list holds its entry, with that latest
/// release and unselected (the converse of `lemma_built_entries_are_newer`).
pub proof fn lemma_newer_releases_are_listed(
    built: Seq<EntryView>,
    cs: Seq<CandidateView>,
    latest: Seq<Option<VersionView>>,
)
    requires
        cs.len() == latest.len(),
        built.to_multiset() =~= newer_entries(cs, latest).to_multiset(),
    ensures
        forall|i: int|
            0 <= i < cs.len() && (#[trigger] latest[i]) is Some && !semver_le(
                latest[i]->0,
                cs[i].current_version,
            ) ==> built.contains(
                EntryView {
                    name: cs[i].name,
                    section: cs[i].section,
                    current_spec: cs[i].spec,
                    current_version: cs[i].current_version,
                    latest_version: latest[i]->0,
                    selected: false,
                },
            ),
{
    broadcast use vstd::seq_lib::group_to_multiset_ensures;

    assert forall|i: int|
        0 <= i < cs.len() && (#[trigger] latest[i]) is Some && !semver_le(
            latest[i]->0,
            cs[i].current_version,
        ) implies built.contains(
        EntryView {
            name: cs[i].name,
            section: cs[i].section,
            current_spec: cs[i].spec,
            current_version: cs[i].current_version,
            latest_version: latest[i]->0,
            selected: false,
        },
    ) by {
        let l = latest[i]->0;
        let e = EntryView {
            name: cs[i].name,
            section: cs[i].section,
            current_spec: cs[i].spec,
            current_version: cs[i].current_version,
            latest_version: l,
            selected: false,
        };
        lemma_newer_entry_present(cs, latest, i, l);
        assert(newer_entries(cs, latest).to_multiset().count(e) > 0);
        assert(built.to_multiset().count(e) > 0);
    }
}

/// Every entry that is built is unselected and has a latest release that
/// `semver` orders after the version its specifier names.
pub proof fn lemma_built_entries_are_newer(
    built: Seq<EntryView>,
    cs: Seq<CandidateView>,
    latest: Seq<Option<VersionView>>,
)
    requires
        built.to_multiset() =~= newer_entries(cs, latest).to_multiset(),
    ensures
        forall|i: int|
            0 <= i < built.len() ==> !(#[trigger] built[i]).selected && !semver_le(
                built[i].latest_version,
                built[i].current_version,
            ),
{
    broadcast use vstd::seq_lib::group_to_multiset_ensures;

    lemma_newer_entries_members(cs, latest);
    assert forall|i: int| 0 <= i < built.len() implies !(#[trigger] built[i]).selected && !semver_le(
        built[i].latest_version,
        built[i].current_version,
    ) by {
        assert(built.contains(built[i]));
        assert(built.to_multiset().count(built[i]) > 0);
        assert(newer_entries(cs, latest).contains(built[i]));
    }
}

} // verus!
