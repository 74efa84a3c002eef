use vstd::prelude::*;

use crate::semver_pattern::is_identifier_char;
use crate::text::{chars_of, decimal, decimal_chars, extend_chars, string_from_chars};

verus! {

/// A `semver::Version`, carried through as it is.
#[verifier::external_type_specification]
#[verifier::external_body]
pub struct ExSemverVersion(semver::Version);

/// A semantic version as `semver` parses it. The fields hold what the
/// logic of this crate reads; `parsed` is the value `semver` produced,
/// which is what versions are ordered by.
#[derive(Debug, PartialEq, Eq)]
pub struct SemVersion {
    major: u64,
    minor: u64,
    patch: u64,
    pre: String,
    build: String,
    parsed: semver::Version,
}

/// The plain content of a `SemVersion`.
pub struct VersionView {
    pub major: u64,
    pub minor: u64,
    pub patch: u64,
    pub pre: Seq<char>,
    pub build: Seq<char>,
}

impl SemVersion {
    /// A version is what `semver` parsed: its parts have the allowed
    /// characters, and its own text parses back to it.
    #[verifier::type_invariant]
    pub open spec fn well_formed(self) -> bool {
        &&& version_shape(self@)
        &&& semver_parse(version_text(self@)) == Some(self@)
    }
}

impl View for SemVersion {
    type V = VersionView;

    closed spec fn view(&self) -> VersionView {
        VersionView {
            major: self.major,
            minor: self.minor,
            patch: self.patch,
            pre: self.pre@,
            build: self.build@,
        }
    }
}

/// The pre-release and build texts hold only `0-9`, `A-Z`, `a-z`, `-` and `.`.
pub open spec fn version_shape(v: VersionView) -> bool {
    &&& forall|i: int| 0 <= i < v.pre.len() ==> is_identifier_char(#[trigger] v.pre[i])
    &&& forall|i: int| 0 <= i < v.build.len() ==> is_identifier_char(#[trigger] v.build[i])
}

/// What `semver::Version::parse` gives for `text`.
pub uninterp spec fn semver_parse(text: Seq<char>) -> Option<VersionView>;

/// Whether `semver` orders the version `a` before `b` or equal to it
/// (`a <= b`).
pub uninterp spec fn semver_le(a: VersionView, b: VersionView) -> bool;

/// The text `Display` writes for a version:
/// `major.minor.patch`, then `-pre` if there is a pre-release part, then
/// `+build` if there is build metadata.
pub open spec fn version_text(v: VersionView) -> Seq<char> {
    decimal(v.major as nat) + seq!['.'] + decimal(v.minor as nat) + seq!['.'] + decimal(
        v.patch as nat,
    ) + (if v.pre.len() > 0 {
        seq!['-'] + v.pre
    } else {
        Seq::<char>::empty()
    }) + (if v.build.len() > 0 {
        seq!['+'] + v.build
    } else {
        Seq::<char>::empty()
    })
}

/// `semver::Version::parse`, with the major, minor and patch numbers and
/// the pre-release and build texts copied out of the parsed version.
/// Claims that whether the text is accepted, and the version it gives, are
/// a function of the text alone (`semver_parse`); that, as the function's
/// documentation lists, the pre-release and build texts hold only
/// `0-9`, `A-Z`, `a-z`, `-` and `.`; and that an accepted text is the
/// version's own text: `Version::from_str` reads three numbers without
/// leading zeros separated by dots, then `-` and the pre-release text, then
/// `+` and the build text, each copied as written, and rejects anything
/// left over. Which texts are accepted is not stated.
#[verifier::external_body]
pub(crate) fn parse_semver(text: &str) -> (r: Option<SemVersion>)
    ensures
        match r {
            Some(v) => semver_parse(text@) == Some(v@),
            None => semver_parse(text@) is None,
        },
        r matches Some(v) ==> version_shape(v@),
        r matches Some(v) ==> version_text(v@) == text@,
{
    match semver::Version::parse(text) {
        Ok(v) => Some(
            SemVersion {
                major: v.major,
                minor: v.minor,
                patch: v.patch,
                pre: v.pre.as_str().to_string(),
                build: v.build.as_str().to_string(),
                parsed: v,
            },
        ),
        Err(_) => None,
    }
}

/// `<semver::Version as PartialOrd>::le` on the two parsed versions. Claims
/// only that the answer is a function of the two versions' contents.
#[verifier::external_body]
pub(crate) fn semver_at_most(a: &SemVersion, b: &SemVersion) -> (r: bool)
    ensures
        r == semver_le(a@, b@),
{
    a.parsed <= b.parsed
}

/// `<semver::Version as Clone>::clone`. Claims nothing of the copy: the
/// plain fields of a `SemVersion` are copied by `SemVersion::clone` itself,
/// and the copy of the parsed value is only what orders the clone.
#[verifier::external_body]
fn clone_semver(v: &semver::Version) -> semver::Version {
    v.clone()
}

impl Clone for SemVersion {
    fn clone(&self) -> (r: Self)
        ensures
            r@ == self@,
    {
        proof {
            use_type_invariant(self);
        }
        SemVersion {
            major: self.major,
            minor: self.minor,
            patch: self.patch,
            pre: self.pre.clone(),
            build: self.build.clone(),
            parsed: clone_semver(&self.parsed),
        }
    }
}

impl SemVersion {
    pub fn major(&self) -> (r: u64)
        ensures
            r == self@.major,
    {
        self.major
    }

    pub fn minor(&self) -> (r: u64)
        ensures
            r == self@.minor,
    {
        self.minor
    }

    pub fn patch(&self) -> (r: u64)
        ensures
            r == self@.patch,
    {
        self.patch
    }

    pub fn pre(&self) -> (r: &str)
        ensures
            r@ == self@.pre,
    {
        self.pre.as_str()
    }

    pub fn build(&self) -> (r: &str)
        ensures
            r@ == self@.build,
    {
        self.build.as_str()
    }

    /// The characters of the version's text.
    pub fn text_chars(&self) -> (r: Vec<char>)
        ensures
            r@ == version_text(self@),
    {
        let mut out = decimal_chars(self.major);
        out.push('.');
        let minor = decimal_chars(self.minor);
        extend_chars(&mut out, minor.as_slice());
        out.push('.');
        let patch = decimal_chars(self.patch);
        extend_chars(&mut out, patch.as_slice());
        let ghost core = out@;
        let pre = chars_of(self.pre.as_str());
        if pre.len() > 0 {
            out.push('-');
            extend_chars(&mut out, pre.as_slice());
        }
        let ghost with_pre = out@;
        let build = chars_of(self.build.as_str());
        if build.len() > 0 {
            out.push('+');
            extend_chars(&mut out, build.as_slice());
        }
        assert(out@ =~= version_text(self@));
        out
    }

    /// The version's text, as `Display` writes it.
    pub fn to_string(&self) -> (r: String)
        ensures
            r@ == version_text(self@),
    {
        let cs = self.text_chars();
        string_from_chars(cs.as_slice())
    }
}

} // verus!
