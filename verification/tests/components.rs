use fabmanager::changelog::parse_changelog;
use fabmanager::matcher::{MatchError, VersionMatcher};
use fabmanager::options::{extract_options, merge_options};
use fabmanager::release::parse_release;
use fabmanager::version::{format_semver, parse_semver};

#[test]
fn bounded_window_boundaries() {
    let m = VersionMatcher::bounded("4.9.0", "5.1.0").unwrap();
    // the lower boundary itself is excluded
    assert!(!m.matches(&parse_semver("4.9.0").unwrap()));
    // one patch above the lower boundary is included
    assert!(m.matches(&parse_semver("4.9.1").unwrap()));
    // the upper boundary itself is included
    assert!(m.matches(&parse_semver("5.1.0").unwrap()));
    // anything above the upper boundary is excluded
    assert!(!m.matches(&parse_semver("5.1.1").unwrap()));
    assert!(!m.matches(&parse_semver("6.0.0").unwrap()));
}

#[test]
fn bounded_rejects_invalid_version() {
    assert!(matches!(
        VersionMatcher::bounded("not a version", "1.0.0"),
        Err(MatchError::InvalidVersion)
    ));
    assert!(matches!(
        VersionMatcher::bounded("1.0.0", "1.0"),
        Err(MatchError::InvalidVersion)
    ));
}

#[test]
fn range_expression_matching() {
    let m = VersionMatcher::range(">=2.0.0, <3.0.0").unwrap();
    assert!(m.matches(&parse_semver("2.0.0").unwrap()));
    assert!(m.matches(&parse_semver("2.5.9").unwrap()));
    assert!(!m.matches(&parse_semver("3.0.0").unwrap()));
    assert!(!m.matches(&parse_semver("1.9.9").unwrap()));
    let eq = VersionMatcher::range("=1.2.3").unwrap();
    assert!(eq.matches(&parse_semver("1.2.3").unwrap()));
    assert!(!eq.matches(&parse_semver("1.2.4").unwrap()));
}

#[test]
fn range_rejects_invalid_expression() {
    assert!(matches!(
        VersionMatcher::range("nonsense"),
        Err(MatchError::InvalidRange)
    ));
    assert!(matches!(VersionMatcher::range("   "), Err(MatchError::InvalidRange)));
}

#[test]
fn precedence_follows_semver_rules() {
    let cmp = |a: &str, b: &str| {
        parse_semver(a).unwrap().cmp_precedence(&parse_semver(b).unwrap())
    };
    assert_eq!(cmp("1.2.3", "1.2.3"), 0);
    assert_eq!(cmp("1.2.3", "1.2.10"), -1);
    // numeric identifiers compare numerically, not lexically
    assert_eq!(cmp("1.0.0-alpha.2", "1.0.0-alpha.10"), -1);
    // a pre-release precedes the full release
    assert_eq!(cmp("1.0.0-alpha", "1.0.0"), -1);
    // numeric identifiers precede alphanumeric ones
    assert_eq!(cmp("1.0.0-1", "1.0.0-alpha"), -1);
    // a shorter identifier list precedes its extension
    assert_eq!(cmp("1.0.0-alpha", "1.0.0-alpha.1"), -1);
    // build metadata has no effect on parsing the version core
    assert_eq!(cmp("1.2.3+build5", "1.2.3"), 0);
}

#[test]
fn format_round_trips_canonical_text() {
    let v = parse_semver("1.2.3-alpha.1").unwrap();
    assert_eq!(v.major, 1);
    assert_eq!(v.minor, 2);
    assert_eq!(v.patch, 3);
    assert_eq!(v.pre, vec!["alpha".to_string(), "1".to_string()]);
    assert_eq!(format_semver(&v), "1.2.3-alpha.1");
    assert_eq!(format_semver(&parse_semver("10.20.30").unwrap()), "10.20.30");
}

#[test]
fn options_tokens_match_flag_grammar() {
    let options = extract_options("bash -- -c \"x\" -c \"y\" -s \"z\"");
    assert_eq!(options, vec!["-c \"x\"", "-c \"y\"", "-s \"z\""]);
    for tok in &options {
        let bytes = tok.as_bytes();
        assert_eq!(bytes[0], b'-');
        assert!(matches!(bytes[1], b's' | b'e' | b'c' | b'p'));
        assert_eq!(bytes[bytes.len() - 1], b'"');
    }
}

#[test]
fn options_without_separator_are_empty() {
    // a command without the argument separator has no arguments
    assert!(extract_options("\\curl -sSL upgrade.fab.mn | bash -c \"x\"").is_empty());
}

#[test]
fn options_ignore_unrecognized_flags() {
    let options = extract_options("bash -s -- -t 5.0.0 -x \"no\" -p \"yes\"");
    assert_eq!(options, vec!["-p \"yes\""]);
}

#[test]
fn merge_is_idempotent_and_keeps_order() {
    let tokens = vec![
        "-c \"a\"".to_string(),
        "-s \"b\"".to_string(),
        "-c \"a\"".to_string(),
    ];
    let mut acc: Vec<String> = Vec::new();
    merge_options(&mut acc, &tokens);
    assert_eq!(acc, vec!["-c \"a\"".to_string(), "-s \"b\"".to_string()]);
    // merging the same sequence again changes nothing
    let once = acc.clone();
    merge_options(&mut acc, &tokens);
    assert_eq!(acc, once);
    // a later merge appends new tokens after the existing ones
    merge_options(&mut acc, &vec!["-e \"c\"".to_string(), "-s \"b\"".to_string()]);
    assert_eq!(
        acc,
        vec!["-c \"a\"".to_string(), "-s \"b\"".to_string(), "-e \"c\"".to_string()]
    );
}

#[test]
fn parser_keeps_headings_and_changes() {
    let doc = "intro text\n## v5.1.0 2021-06-10\n- first\n- second\nnoise\n## v5.0.0 2021-05-01\n";
    let entries = parse_changelog(doc);
    assert_eq!(entries.len(), 2);
    assert_eq!(entries[0].version, "v5.1.0");
    assert_eq!(entries[0].date, "2021-06-10");
    assert_eq!(entries[0].changes, vec!["- first".to_string(), "- second".to_string()]);
    assert_eq!(entries[1].version, "v5.0.0");
    assert!(entries[1].changes.is_empty());
}

#[test]
fn parser_round_trips_synthetic_document() {
    let mut doc = String::new();
    let triples = [
        ("v2.0.0", "2022-01-01", vec!["- one", "- two"]),
        ("v1.0.0", "2021-01-01", vec!["- three"]),
    ];
    for (ver, date, changes) in &triples {
        doc.push_str(&format!("## {} {}\n", ver, date));
        for c in changes {
            doc.push_str(c);
            doc.push('\n');
        }
    }
    let entries = parse_changelog(&doc);
    assert_eq!(entries.len(), triples.len());
    for (entry, (ver, date, changes)) in entries.iter().zip(triples.iter()) {
        assert_eq!(&entry.version, ver);
        assert_eq!(&entry.date, date);
        let expected: Vec<String> = changes.iter().map(|c| c.to_string()).collect();
        assert_eq!(entry.changes, expected);
    }
}

#[test]
fn parser_discards_list_items_before_first_heading() {
    let doc = "- stray item\n## v1.0.0 2020-01-01\n";
    let entries = parse_changelog(doc);
    assert_eq!(entries.len(), 1);
    assert!(entries[0].changes.is_empty());
}

#[test]
fn parser_handles_crlf_documents() {
    let doc = "## v1.2.0 2020-02-01\r\n- fix\r\n";
    let entries = parse_changelog(doc);
    assert_eq!(entries.len(), 1);
    assert_eq!(entries[0].date, "2020-02-01");
    assert_eq!(entries[0].changes, vec!["- fix".to_string()]);
}

#[test]
fn release_retries_later_marker() {
    // the first marker has no conforming fence; the later pair wins
    let body = "## [UPDATE]\nx\n## [UPDATE]\n```bash\nu\n```";
    assert_eq!(parse_release(body).unwrap().update, "u");
}

#[test]
fn release_uses_first_matching_pair() {
    let body = "## [UPDATE]\nno fence here\n## [UPDATE]\n```bash\nfirst\n```\n## [UPDATE]\n```bash\nsecond\n```";
    assert_eq!(parse_release(body).unwrap().update, "first");
}

#[test]
fn release_extract_absent_without_marker() {
    assert!(parse_release("a body\n```bash\nupdate\n```").is_none());
    assert!(parse_release("## [UPDATE]() but no fence").is_none());
}
