use npump::model::PackageEntry;
use npump::semver_pattern::{decimal_digit, find_version_span, match_at};
use npump::text::chars_of;
use npump::{extract_first_semver, DependencySection, SemVersion};

const PATTERN: &str = r"\d+\.\d+\.\d+(?:-[0-9A-Za-z.-]+)?(?:\+[0-9A-Za-z.-]+)?";

fn span(s: &str) -> Option<(usize, usize)> {
    let cs = chars_of(s);
    find_version_span(cs.as_slice())
}

fn regex_span(re: &regex::Regex, s: &str) -> Option<(usize, usize)> {
    re.find(s).map(|m| (s[..m.start()].chars().count(), s[..m.end()].chars().count()))
}

fn version(text: &str) -> SemVersion {
    extract_first_semver(text).unwrap()
}

fn entry(spec: &str, latest: &str) -> PackageEntry {
    PackageEntry {
        name: "left-pad".to_string(),
        section: DependencySection::Dependencies,
        current_spec: spec.to_string(),
        current_version: version(spec),
        latest_version: version(latest),
        selected: false,
    }
}

#[test]
fn finds_plain_version() {
    assert_eq!(span("1.2.3"), Some((0, 5)));
}

#[test]
fn finds_version_after_range_operator() {
    assert_eq!(span("^1.2.3"), Some((1, 6)));
    assert_eq!(span(">=10.20.30 <11"), Some((2, 10)));
}

#[test]
fn takes_prerelease_and_build_parts() {
    assert_eq!(span("~1.2.3-beta.1+build.5 x"), Some((1, 21)));
}

#[test]
fn dash_without_identifier_is_not_part_of_version() {
    assert_eq!(span("1.2.3-"), Some((0, 5)));
    assert_eq!(span("1.2.3-+x"), Some((0, 5)));
}

#[test]
fn build_part_after_patch_without_prerelease() {
    assert_eq!(span("1.2.3+abc"), Some((0, 9)));
}

#[test]
fn no_version_in_tags_or_partial_versions() {
    assert_eq!(span("latest"), None);
    assert_eq!(span("1.2"), None);
    assert_eq!(span("1.x.3"), None);
    assert_eq!(span(""), None);
}

#[test]
fn leftmost_match_wins() {
    assert_eq!(span("a1.2.3 || 4.5.6"), Some((1, 6)));
    assert_eq!(span("1.2 3.4.5"), Some((4, 9)));
}

#[test]
fn match_starting_inside_digit_run() {
    assert_eq!(span("x12.3.4"), Some((1, 7)));
    let cs = chars_of("12.3.4");
    assert_eq!(match_at(cs.as_slice(), 1), Some(6));
    assert_eq!(match_at(cs.as_slice(), 2), None);
}

#[test]
fn unicode_digits_are_digits() {
    assert!(decimal_digit('٣'));
    assert!(decimal_digit('７'));
    assert!(!decimal_digit('a'));
    assert!(!decimal_digit('²'));
    assert_eq!(span("٣.٤.٥"), Some((0, 5)));
}

#[test]
fn digit_class_agrees_with_regex_on_all_chars() {
    let re = regex::Regex::new(r"^\d$").unwrap();
    let mut buf = [0u8; 4];
    for u in 0u32..=0x10FFFF {
        if let Some(c) = char::from_u32(u) {
            assert_eq!(decimal_digit(c), re.is_match(c.encode_utf8(&mut buf)), "char {:x}", u);
        }
    }
}

#[test]
fn pattern_agrees_with_regex_on_samples() {
    let samples = [
        "1.2.3",
        "^1.2.3",
        "~0.0.1-alpha",
        ">=1.0.0 <2.0.0",
        "1.2.3-rc.1+build",
        "v1.2.3",
        "1.2",
        "1.2.3.4",
        "12.34.56-x-y-z.--+a.b",
        "  3.4.5  ",
        "1.2.3-",
        "1.2.3+",
        "1..2.3",
        "a.1.2.3.b",
        "٣.٤.٥-x",
        "9.9.9+x-y",
        "x",
        "1.1.1-é",
        "0.0.0+-",
        "npm:foo@1.2.3",
    ];
    let re = regex::Regex::new(PATTERN).unwrap();
    for s in samples {
        assert_eq!(span(s), regex_span(&re, s), "sample {:?}", s);
    }
    let alphabet = ['1', '2', '.', '-', '+', 'a', ' ', '٣'];
    for n in 0..5u32 {
        let total = (alphabet.len() as u32).pow(n);
        for code in 0..total {
            let mut s = String::new();
            let mut c = code;
            for _ in 0..n {
                s.push(alphabet[(c % alphabet.len() as u32) as usize]);
                c /= alphabet.len() as u32;
            }
            assert_eq!(span(&s), regex_span(&re, &s), "generated {:?}", s);
        }
    }
}

#[test]
fn extracts_version_from_caret_range() {
    let v = extract_first_semver("^4.17.21").unwrap();
    assert_eq!((v.major(), v.minor(), v.patch()), (4, 17, 21));
    assert_eq!(v.pre(), "");
    assert_eq!(v.to_string(), "4.17.21");
}

#[test]
fn extracts_after_trimming() {
    let v = extract_first_semver("   ~1.0.0-beta.2+exp.sha.5114f85  ").unwrap();
    assert_eq!(v.pre(), "beta.2");
    assert_eq!(v.build(), "exp.sha.5114f85");
    assert_eq!(v.to_string(), "1.0.0-beta.2+exp.sha.5114f85");
}

#[test]
fn no_version_gives_none() {
    assert!(extract_first_semver("latest").is_none());
    assert!(extract_first_semver("*").is_none());
}

#[test]
fn matched_text_that_semver_rejects_gives_none() {
    // Leading zeros and empty identifiers match the pattern but are not semver.
    assert!(extract_first_semver("01.2.3").is_none());
    assert!(extract_first_semver("1.2.3-a..b").is_none());
    assert!(extract_first_semver("٣.٤.٥").is_none());
}

#[test]
fn version_text_matches_semver_display() {
    for s in ["0.0.0", "1.2.3", "18446744073709551615.0.1", "1.0.0-alpha.1", "1.0.0+20130313144700", "2.0.0-rc.1+sha.1"] {
        let v = version(s);
        assert_eq!(v.to_string(), semver::Version::parse(s).unwrap().to_string());
        assert_eq!(v.text_chars().into_iter().collect::<String>(), s);
    }
}

#[test]
fn clone_keeps_version() {
    let v = version("3.2.1-x");
    let w = v.clone();
    assert_eq!(v, w);
    assert_eq!(w.to_string(), "3.2.1-x");
}

#[test]
fn updated_spec_keeps_range_operator() {
    assert_eq!(entry("^1.2.3", "2.0.0").updated_spec(), "^2.0.0");
    assert_eq!(entry("~1.2.3", "1.3.0-beta.1").updated_spec(), "~1.3.0-beta.1");
}

#[test]
fn updated_spec_replaces_only_first_version() {
    assert_eq!(entry(">=1.2.3 <2.0.0", "3.1.4").updated_spec(), ">=3.1.4 <2.0.0");
}

#[test]
fn updated_spec_keeps_surrounding_whitespace() {
    assert_eq!(entry(" 1.2.3 ", "1.2.4").updated_spec(), " 1.2.4 ");
}

#[test]
fn updated_spec_replaces_whole_prerelease() {
    assert_eq!(entry("1.2.3-beta.1+b2", "1.2.3").updated_spec(), "1.2.3");
}

#[test]
fn updated_spec_agrees_with_regex_replacement() {
    let re = regex::Regex::new(PATTERN).unwrap();
    for (spec, latest) in [("^1.2.3", "2.0.0"), ("1.0.0 - 2.0.0", "3.0.0"), ("=1.2.3-x+y z", "10.0.0-rc.1")] {
        let expected = re.replacen(spec, 1, latest).to_string();
        assert_eq!(entry(spec, latest).updated_spec(), expected);
    }
}

#[test]
fn rewritten_specifier_reads_back_as_latest() {
    for prefix in ["", "^", "~", ">=", "=", "> "] {
        for (current, latest) in [("1.2.3", "2.0.0"), ("0.9.10", "0.10.0-rc.1+build.5"), ("1.0.0-alpha", "1.0.0")] {
            let spec = format!("{prefix}{current}");
            let e = entry(&spec, latest);
            let updated = e.updated_spec();
            assert_eq!(updated, format!("{prefix}{latest}"));
            let back = extract_first_semver(&updated).unwrap();
            assert_eq!(back.to_string(), latest);
            assert_eq!(back, version(latest));
        }
    }
}
