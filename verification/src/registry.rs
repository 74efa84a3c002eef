use vstd::prelude::*;

use crate::json::{field, json_field, JsonValue};
use crate::text::{chars_of, extend_chars, string_from_chars};
use crate::version::{parse_semver, semver_parse, SemVersion, VersionView};

verus! {

// ---------------------------------------------------------------------------
// The request URL
// ---------------------------------------------------------------------------

/// Whether byte `b` is an ASCII letter or digit.
pub open spec fn is_ascii_alphanumeric_byte(b: u8) -> bool {
    (48 <= b <= 57) || (65 <= b <= 90) || (97 <= b <= 122)
}

/// The upper-case hexadecimal digit for `d` (`0 <= d < 16`).
pub open spec fn hex_digit(d: int) -> char {
    if d < 10 {
        (d + 48) as char
    } else {
        (d + 55) as char
    }
}

/// `bytes` percent-encoded: every byte that is not an ASCII letter or digit
/// is written as `%` and two upper-case hexadecimal digits.
pub open spec fn percent_encoded(bytes: Seq<u8>) -> Seq<char>
    decreases bytes.len(),
{
    if bytes.len() == 0 {
        Seq::empty()
    } else {
        let b = bytes.last();
        percent_encoded(bytes.drop_last()) + if is_ascii_alphanumeric_byte(b) {
            seq![b as char]
        } else {
            seq!['%', hex_digit((b / 16) as int), hex_digit((b % 16) as int)]
        }
    }
}

/// `percent_encoding::utf8_percent_encode(text, NON_ALPHANUMERIC)`, collected
/// into a string. As the crate documents, the UTF-8 bytes of `text` are
/// written one by one, each byte outside the set unchanged and each byte in
/// it as `%XX` in upper-case hexadecimal; `NON_ALPHANUMERIC` holds every
/// ASCII byte but letters and digits, and non-ASCII bytes are always encoded.
#[verifier::external_body]
fn percent_encode_text(text: &str) -> (r: String)
    ensures
        r@ == percent_encoded(vstd::utf8::encode_utf8(text@)),
{
    percent_encoding::utf8_percent_encode(text, percent_encoding::NON_ALPHANUMERIC).to_string()
}

/// The URL of the latest release of package `name`.
pub open spec fn latest_url_text(name: Seq<char>) -> Seq<char> {
    "https://registry.npmjs.org/"@ + percent_encoded(vstd::utf8::encode_utf8(name)) + "/latest"@
}

/// An ASCII letter or digit.
pub open spec fn is_ascii_alphanumeric_char(c: char) -> bool {
    ('0' <= c <= '9') || ('A' <= c <= 'Z') || ('a' <= c <= 'z')
}

proof fn lemma_plain_bytes_unencoded(bytes: Seq<u8>)
    requires
        forall|i: int| 0 <= i < bytes.len() ==> is_ascii_alphanumeric_byte(#[trigger] bytes[i]),
    ensures
        percent_encoded(bytes) =~= Seq::new(bytes.len(), |i: int| bytes[i] as char),
    decreases bytes.len(),
{
    if bytes.len() > 0 {
        let rest = bytes.drop_last();
        assert forall|i: int| 0 <= i < rest.len() implies is_ascii_alphanumeric_byte(#[trigger] rest[i]) by {
            assert(rest[i] == bytes[i]);
        }
        lemma_plain_bytes_unencoded(rest);
        assert(is_ascii_alphanumeric_byte(bytes[bytes.len() - 1]));
    }
}

/// A package name made only of ASCII letters and digits is not changed by
/// percent-encoding, so it stands in its URL as it is.
pub proof fn lemma_alphanumeric_name_unencoded(name: Seq<char>)
    requires
        forall|i: int| 0 <= i < name.len() ==> is_ascii_alphanumeric_char(#[trigger] name[i]),
    ensures
        percent_encoded(vstd::utf8::encode_utf8(name)) == name,
        latest_url_text(name) == "https://registry.npmjs.org/"@ + name + "/latest"@,
{
    let bytes = vstd::utf8::encode_utf8(name);
    assert(vstd::utf8::is_ascii_chars(name));
    vstd::utf8::is_ascii_chars_encode_utf8(name);
    assert forall|i: int| 0 <= i < bytes.len() implies is_ascii_alphanumeric_byte(#[trigger] bytes[i]) by {
        assert(name[i] as u8 == bytes[i]);
    }
    lemma_plain_bytes_unencoded(bytes);
    assert forall|i: int| 0 <= i < name.len() implies (bytes[i] as char) == name[i] by {
        assert(name[i] as u8 == bytes[i]);
    }
    assert(percent_encoded(bytes) =~= name);
}

fn push_text(out: &mut Vec<char>, s: &str)
    ensures
        final(out)@ == old(out)@ + s@,
{
    let cs = chars_of(s);
    extend_chars(out, cs.as_slice());
}

/// The URL to ask for the latest release of package `name`, with the name
/// percent-encoded so that scoped names (`@scope/pkg`) stay one path segment.
pub fn registry_url(name: &str) -> (r: String)
    ensures
        r@ == latest_url_text(name@),
{
    let mut out: Vec<char> = Vec::new();
    push_text(&mut out, "https://registry.npmjs.org/");
    let encoded = percent_encode_text(name);
    push_text(&mut out, encoded.as_str());
    push_text(&mut out, "/latest");
    string_from_chars(out.as_slice())
}

// ---------------------------------------------------------------------------
// What a reply means
// ---------------------------------------------------------------------------

/// What the registry answered a request for a package's latest release.
#[derive(Debug)]
pub enum RegistryReply {
    /// The request could not be sent, or no response came back.
    Unreachable,
    /// A response with HTTP status `status`, and its body parsed as JSON
    /// (nothing if the body could not be read or is not JSON).
    Response { status: u16, body: Option<JsonValue> },
}

/// What a reply comes to.
pub enum ReplyOutcome {
    /// The latest release.
    Found(VersionView),
    /// The package, or its latest release, is not there.
    Missing,
    /// The lookup failed, for the reason given.
    Failed(Seq<char>),
}

/// The meaning of `reply` to a request for package `name` at `url`: a 404
/// means there is no such package; any other client or server error, a body
/// that is not JSON, or a `version` that `semver` rejects is a failure; a
/// body without a `version` string means there is no release.
pub open spec fn reply_outcome(name: Seq<char>, url: Seq<char>, reply: RegistryReply) -> ReplyOutcome {
    match reply {
        RegistryReply::Unreachable => ReplyOutcome::Failed("request failed: "@ + url),
        RegistryReply::Response { status, body } => {
            if status == 404 {
                ReplyOutcome::Missing
            } else if 400 <= status <= 599 {
                ReplyOutcome::Failed("registry returned error for "@ + name)
            } else {
                match body {
                    None => ReplyOutcome::Failed("invalid registry response for "@ + name),
                    Some(b) => match json_field(b, "version"@) {
                        Some(JsonValue::Str(v)) => match semver_parse(v@) {
                            Some(x) => ReplyOutcome::Found(x),
                            None => ReplyOutcome::Failed(
                                "invalid latest version '"@ + v@ + "' for "@ + name,
                            ),
                        },
                        _ => ReplyOutcome::Missing,
                    },
                }
            }
        },
    }
}

/// The plain content of an optional version.
pub open spec fn release_view(o: Option<SemVersion>) -> Option<VersionView> {
    match o {
        Some(v) => Some(v@),
        None => None,
    }
}

/// The result a lookup gives for a reply: the release, or nothing.
pub open spec fn outcome_release(o: ReplyOutcome) -> Option<VersionView> {
    match o {
        ReplyOutcome::Found(v) => Some(v),
        _ => None,
    }
}

/// The warning recorded for a failed lookup of package `name`.
pub open spec fn warning_text(name: Seq<char>, reason: Seq<char>) -> Seq<char> {
    name + ": failed to fetch latest version ("@ + reason + ")"@
}

/// What `reply` comes to (see `reply_outcome`): the release, or the reason
/// the lookup failed.
pub fn interpret_reply(name: &str, url: &str, reply: RegistryReply) -> (r: Result<
    Option<SemVersion>,
    String,
>)
    ensures
        match reply_outcome(name@, url@, reply) {
            ReplyOutcome::Found(v) => r matches Ok(Some(x)) && x@ == v,
            ReplyOutcome::Missing => r matches Ok(None),
            ReplyOutcome::Failed(reason) => r matches Err(e) && e@ == reason,
        },
{
    match reply {
        RegistryReply::Unreachable => {
            let mut out: Vec<char> = Vec::new();
            push_text(&mut out, "request failed: ");
            push_text(&mut out, url);
            Err(string_from_chars(out.as_slice()))
        },
        RegistryReply::Response { status, body } => {
            if status == 404 {
                Ok(None)
            } else if 400 <= status && status <= 599 {
                let mut out: Vec<char> = Vec::new();
                push_text(&mut out, "registry returned error for ");
                push_text(&mut out, name);
                Err(string_from_chars(out.as_slice()))
            } else {
                match body {
                    None => {
                        let mut out: Vec<char> = Vec::new();
                        push_text(&mut out, "invalid registry response for ");
                        push_text(&mut out, name);
                        Err(string_from_chars(out.as_slice()))
                    },
                    Some(b) => {
                        let key = "version".to_owned();
                        match field(&b, &key) {
                            Some(JsonValue::Str(v)) => match parse_semver(v.as_str()) {
                                Some(x) => Ok(Some(x)),
                                None => {
                                    let mut out: Vec<char> = Vec::new();
                                    push_text(&mut out, "invalid latest version '");
                                    push_text(&mut out, v.as_str());
                                    push_text(&mut out, "' for ");
                                    push_text(&mut out, name);
                                    Err(string_from_chars(out.as_slice()))
                                },
                            },
                            _ => Ok(None),
                        }
                    },
                }
            }
        },
    }
}


// ---------------------------------------------------------------------------
// The cache of answers and the warnings
// ---------------------------------------------------------------------------

/// One remembered answer: the latest release of `name`, or that there is none.
struct CachedRelease {
    name: String,
    latest: Option<SemVersion>,
}

/// The answers given so far, as a map: a later answer for a name replaces
/// an earlier one.
pub open spec fn answers_map(answers: Seq<(Seq<char>, Option<VersionView>)>) -> Map<
    Seq<char>,
    Option<VersionView>,
>
    decreases answers.len(),
{
    if answers.len() == 0 {
        Map::empty()
    } else {
        answers_map(answers.drop_last()).insert(answers.last().0, answers.last().1)
    }
}

/// The plain content of a `Registry`: the answers it remembers, by package
/// name, and the warnings recorded and not yet taken.
pub struct RegistryView {
    pub cache: Map<Seq<char>, Option<VersionView>>,
    pub warnings: Seq<Seq<char>>,
}

/// The latest releases looked up so far, and the warnings about lookups
/// that failed. Every name is looked up at most once: a failed lookup is
/// remembered as "no release" too.
pub struct Registry {
    cache: Vec<CachedRelease>,
    warnings: Vec<String>,
}

spec fn cached_pairs(cache: Seq<CachedRelease>) -> Seq<(Seq<char>, Option<VersionView>)> {
    cache.map_values(|c: CachedRelease| (c.name@, release_view(c.latest)))
}

impl View for Registry {
    type V = RegistryView;

    closed spec fn view(&self) -> RegistryView {
        RegistryView {
            cache: answers_map(cached_pairs(self.cache@)),
            warnings: self.warnings@.map_values(|w: String| w@),
        }
    }
}

fn clone_release(o: &Option<SemVersion>) -> (r: Option<SemVersion>)
    ensures
        release_view(r) == release_view(*o),
{
    match o {
        Some(v) => Some(v.clone()),
        None => None,
    }
}

impl Registry {
    /// A registry that remembers nothing and has no warnings.
    pub fn new() -> (r: Registry)
        ensures
            r@.cache == Map::<Seq<char>, Option<VersionView>>::empty(),
            r@.warnings == Seq::<Seq<char>>::empty(),
    {
        let r = Registry { cache: Vec::new(), warnings: Vec::new() };
        assert(r@.cache =~= Map::<Seq<char>, Option<VersionView>>::empty());
        assert(r@.warnings =~= Seq::<Seq<char>>::empty());
        r
    }

    /// The remembered answer for `name`, if it was looked up before.
    pub fn cached(&self, name: &str) -> (r: Option<Option<SemVersion>>)
        ensures
            match r {
                Some(o) => self@.cache.contains_key(name@) && self@.cache[name@] == release_view(o),
                None => !self@.cache.contains_key(name@),
            },
    {
        let key = name.to_owned();
        let ghost pairs = cached_pairs(self.cache@);
        let mut j = self.cache.len();
        assert(pairs.take(j as int) =~= pairs);
        while j > 0
            invariant
                j <= self.cache@.len(),
                key@ == name@,
                pairs == cached_pairs(self.cache@),
                answers_map(pairs).contains_key(key@) == answers_map(pairs.take(j as int)).contains_key(key@),
                answers_map(pairs).contains_key(key@) ==> answers_map(pairs)[key@] == answers_map(
                    pairs.take(j as int),
                )[key@],
            decreases j,
        {
            assert(pairs.take(j as int).drop_last() =~= pairs.take(j - 1));
            assert(pairs.take(j as int).last() == pairs[j - 1]);
            assert(pairs[j - 1] == (self.cache@[j - 1].name@, release_view(self.cache@[j - 1].latest)));
            if self.cache[j - 1].name == key {
                let r = clone_release(&self.cache[j - 1].latest);
                assert(answers_map(pairs.take(j as int)) == answers_map(pairs.take(j - 1)).insert(
                    pairs[j - 1].0,
                    pairs[j - 1].1,
                ));
                return Some(r);
            }
            j = j - 1;
        }
        assert(pairs.take(0) =~= Seq::<(Seq<char>, Option<VersionView>)>::empty());
        None
    }

    /// The first step of looking up `name`: the remembered answer if it was
    /// looked up before, which is the whole lookup, or else the URL to ask,
    /// whose reply `record_reply` then takes.
    pub fn begin_lookup(&self, name: &str) -> (r: Lookup)
        ensures
            match r {
                Lookup::Answered(o) => self@.cache.contains_key(name@) && forall|reply: RegistryReply|
                    #[trigger] lookup_step(self@, name@, reply) == (self@, release_view(o), false),
                Lookup::Ask(url) => !self@.cache.contains_key(name@) && url@ == latest_url_text(
                    name@,
                ),
            },
    {
        match self.cached(name) {
            Some(o) => Lookup::Answered(o),
            None => Lookup::Ask(registry_url(name)),
        }
    }

    /// Remembers what `reply` to the request for package `name` at `url`
    /// comes to, records a warning if the lookup failed, and returns the
    /// latest release, if one was found.
    pub fn record_reply(&mut self, name: &str, url: &str, reply: RegistryReply) -> (r: Option<
        SemVersion,
    >)
        ensures
            release_view(r) == outcome_release(reply_outcome(name@, url@, reply)),
            final(self)@.cache == old(self)@.cache.insert(name@, release_view(r)),
            final(self)@.warnings == match reply_outcome(name@, url@, reply) {
                ReplyOutcome::Failed(reason) => old(self)@.warnings.push(warning_text(name@, reason)),
                _ => old(self)@.warnings,
            },
            !old(self)@.cache.contains_key(name@) && url@ == latest_url_text(name@) ==> lookup_step(
                old(self)@,
                name@,
                reply,
            ) == (final(self)@, release_view(r), true),
    {
        let ghost outcome = reply_outcome(name@, url@, reply);
        let latest = match interpret_reply(name, url, reply) {
            Ok(v) => v,
            Err(reason) => {
                let mut out: Vec<char> = Vec::new();
                push_text(&mut out, name);
                push_text(&mut out, ": failed to fetch latest version (");
                push_text(&mut out, reason.as_str());
                push_text(&mut out, ")");
                let w = string_from_chars(out.as_slice());
                let ghost before = self.warnings@;
                self.warnings.push(w);
                assert(self.warnings@.map_values(|w: String| w@) =~= before.map_values(
                    |w: String| w@,
                ).push(warning_text(name@, reason@)));
                None
            },
        };
        let ghost before = self.cache@;
        self.cache.push(CachedRelease { name: name.to_owned(), latest: clone_release(&latest) });
        assert(cached_pairs(self.cache@).drop_last() =~= cached_pairs(before));
        latest
    }

    /// Hands over the warnings recorded so far and forgets them.
    pub fn take_warnings(&mut self) -> (r: Vec<String>)
        ensures
            r@.map_values(|w: String| w@) == old(self)@.warnings,
            final(self)@.warnings == Seq::<Seq<char>>::empty(),
            final(self)@.cache == old(self)@.cache,
    {
        let mut taken: Vec<String> = Vec::new();
        std::mem::swap(&mut taken, &mut self.warnings);
        assert(self.warnings@.map_values(|w: String| w@) =~= Seq::<Seq<char>>::empty());
        taken
    }
}


/// How a lookup begins: with the answer remembered for the name, or with
/// the URL to ask.
pub enum Lookup {
    Answered(Option<SemVersion>),
    Ask(String),
}

/// One lookup of `name`, where asking the registry would bring `reply`: the
/// registry after it, the answer, and whether a request was sent. A name
/// looked up before is answered from what was remembered, with no request
/// and no change; any other name is asked for, and its answer remembered,
/// with a warning if the lookup failed.
pub open spec fn lookup_step(reg: RegistryView, name: Seq<char>, reply: RegistryReply) -> (
    RegistryView,
    Option<VersionView>,
    bool,
) {
    if reg.cache.contains_key(name) {
        (reg, reg.cache[name], false)
    } else {
        let outcome = reply_outcome(name, latest_url_text(name), reply);
        let answer = outcome_release(outcome);
        let warnings = match outcome {
            ReplyOutcome::Failed(reason) => reg.warnings.push(warning_text(name, reason)),
            _ => reg.warnings,
        };
        (RegistryView { cache: reg.cache.insert(name, answer), warnings }, answer, true)
    }
}

/// The registry after the first `k` of `lookups`, each a name and the reply
/// the registry would give to a request for it.
pub open spec fn after_lookups(
    reg: RegistryView,
    lookups: Seq<(Seq<char>, RegistryReply)>,
    k: nat,
) -> RegistryView
    decreases k,
{
    if k == 0 || k > lookups.len() {
        reg
    } else {
        let prev = after_lookups(reg, lookups, (k - 1) as nat);
        lookup_step(prev, lookups[k - 1].0, lookups[k - 1].1).0
    }
}

/// What the lookup at position `k` of `lookups` gives: the registry after
/// it, its answer, and whether it sent a request.
pub open spec fn lookup_at(reg: RegistryView, lookups: Seq<(Seq<char>, RegistryReply)>, k: nat) -> (
    RegistryView,
    Option<VersionView>,
    bool,
) {
    lookup_step(after_lookups(reg, lookups, k), lookups[k as int].0, lookups[k as int].1)
}

proof fn lemma_answer_stays(
    reg: RegistryView,
    lookups: Seq<(Seq<char>, RegistryReply)>,
    i: nat,
    k: nat,
)
    requires
        i < k <= lookups.len(),
    ensures
        after_lookups(reg, lookups, k).cache.contains_key(lookups[i as int].0),
        after_lookups(reg, lookups, k).cache[lookups[i as int].0] == lookup_at(reg, lookups, i).1,
    decreases k,
{
    let name = lookups[i as int].0;
    if k == i + 1 {
    } else {
        lemma_answer_stays(reg, lookups, i, (k - 1) as nat);
        let prev = after_lookups(reg, lookups, (k - 1) as nat);
        if !prev.cache.contains_key(lookups[k - 1].0) {
            assert(lookups[k - 1].0 != name);
        }
    }
}

/// A name looked up again, however many other lookups came between, is
/// answered with what its first lookup gave, without a request, and
/// without any change to the registry: a failed lookup gives nothing again
/// and adds no second warning.
pub proof fn lemma_repeated_lookup_from_cache(
    reg: RegistryView,
    lookups: Seq<(Seq<char>, RegistryReply)>,
    i: nat,
    j: nat,
)
    requires
        i < j < lookups.len(),
        lookups[i as int].0 == lookups[j as int].0,
    ensures
        lookup_at(reg, lookups, j).1 == lookup_at(reg, lookups, i).1,
        !lookup_at(reg, lookups, j).2,
        lookup_at(reg, lookups, j).0 == after_lookups(reg, lookups, j),
{
    lemma_answer_stays(reg, lookups, i, j);
}

/// Once an answer for `name` is recorded, asking again gives that answer,
/// and the answers for other names are as they were.
pub proof fn lemma_recorded_answer_cached(
    before: RegistryView,
    after: RegistryView,
    name: Seq<char>,
    answer: Option<VersionView>,
    other: Seq<char>,
)
    requires
        after.cache == before.cache.insert(name, answer),
    ensures
        after.cache.contains_key(name),
        after.cache[name] == answer,
        other != name ==> (after.cache.contains_key(other) == before.cache.contains_key(other)),
        other != name && before.cache.contains_key(other) ==> after.cache[other] == before.cache[other],
{
}

} // verus!
