use changelog::{
    detect_manifests, generate_str, parse_str, Bump, Change, Changelog, Date, Json, ManifestType,
    Ref, Release, SemVer, Version,
};

const SAMPLE: &str = "# Changelog\n\nAll notable changes.\n\n## [Unreleased]\n\nStill brewing.\n\n### Added\n\n- first thing\n- second thing\n  with a continuation\n\n### Fixed\n\n- a repair\n\n## [1.0.0] - 2020-01-02\n\n### Removed\n\n- old cruft\n\n[Unreleased]: https://example.com/compare/v1.0.0...HEAD\n[1.0.0]: https://example.com/releases/v1.0.0\n";

#[test]
fn parse_reads_the_sample() {
    let c = parse_str(SAMPLE).unwrap();
    assert_eq!(c.intro, "# Changelog\n\nAll notable changes.\n\n");
    assert_eq!(c.releases.len(), 2);

    let unreleased = &c.releases[0];
    assert_eq!(unreleased.version, Version::Unreleased);
    assert!(unreleased.date.is_none());
    assert_eq!(unreleased.intro, "Still brewing.\n\n");
    assert_eq!(unreleased.added, vec!["first thing", "second thing\nwith a continuation"]);
    assert_eq!(unreleased.fixed, vec!["a repair"]);
    assert!(unreleased.removed.is_empty());
    assert!(unreleased.changed.is_empty());

    let released = &c.releases[1];
    assert_eq!(released.version, Version::Released(SemVer::parse("1.0.0").unwrap()));
    assert_eq!(released.date, Some(Date::new(2020, 1, 2)));
    assert_eq!(released.removed, vec!["old cruft"]);

    assert_eq!(c.refs.len(), 2);
    assert_eq!(c.refs[0].anchor, "Unreleased");
    assert_eq!(c.refs[0].href, "https://example.com/compare/v1.0.0...HEAD");
    assert_eq!(c.refs[1].anchor, "1.0.0");
    assert_eq!(c.refs[1].href, "https://example.com/releases/v1.0.0");
}

#[test]
fn structural_round_trip() {
    let first = parse_str(SAMPLE).unwrap();
    let regenerated = generate_str(&first);
    let second = parse_str(&regenerated).unwrap();
    assert_eq!(first, second);
}

#[test]
fn round_trip_normalizes_section_order() {
    let scrambled =
        "## [Unreleased]\n\n### Removed\n\n- gone\n\n### Added\n\n- here\n";
    let first = parse_str(scrambled).unwrap();
    let regenerated = generate_str(&first);
    assert_eq!(
        regenerated,
        "## [Unreleased]\n\n### Added\n\n- here\n\n### Removed\n\n- gone\n\n"
    );
    let second = parse_str(&regenerated).unwrap();
    assert_eq!(first, second);
}

#[test]
fn generate_renders_exactly() {
    let release = Release {
        version: Version::Released(SemVer::parse("1.2.3").unwrap()),
        date: Some(Date::new(2023, 11, 5)),
        intro: String::new(),
        added: vec![String::from("alpha"), String::from("beta\ngamma")],
        removed: vec![],
        fixed: vec![],
        changed: vec![String::from("delta")],
    };
    let model = Changelog {
        intro: String::from("Head\n\n"),
        releases: vec![release],
        refs: vec![Ref::new(String::from("1.2.3"), String::from("https://x/y"))],
    };
    let text = generate_str(&model);
    assert_eq!(
        text,
        "Head\n\n## [1.2.3] - 2023-11-05\n\n### Added\n\n- alpha\n- beta\n  gamma\n\n### Changed\n\n- delta\n\n[1.2.3]: https://x/y\n"
    );
}

#[test]
fn parse_rejects_nonconforming_text() {
    // A released heading must carry a date.
    assert!(parse_str("## [1.2.3]\n").is_none());
    // A released heading must carry a well-formed version.
    assert!(parse_str("## [not-a-version] - 2020-01-01\n").is_none());
    // The date must be within calendar bounds.
    assert!(parse_str("## [1.2.3] - 2020-13-01\n").is_none());
    // Inside a section only bullets, blank lines and boundaries may follow.
    assert!(parse_str("## [Unreleased]\n### Added\n- a\nplain text\n").is_none());
    // After the reference list nothing else may follow.
    assert!(parse_str("## [Unreleased]\n[a]: b\nplain text\n").is_none());
}

#[test]
fn parse_discards_unrecognized_sections() {
    let text = "## [Unreleased]\n### Deprecated\n- shaky\n### Added\n- kept\n";
    let c = parse_str(text).unwrap();
    assert_eq!(c.releases[0].added, vec!["kept"]);
    assert!(c.releases[0].removed.is_empty());
    assert!(c.releases[0].fixed.is_empty());
    assert!(c.releases[0].changed.is_empty());
}

#[test]
fn section_names_fold_case() {
    let text = "## [Unreleased]\n### ADDED\n- shouted\n";
    let c = parse_str(text).unwrap();
    assert_eq!(c.releases[0].added, vec!["shouted"]);
}

#[test]
fn version_is_the_maximum_released() {
    let text = "## [Unreleased]\n## [1.2.0] - 2020-01-01\n## [2.0.0-next.1] - 2020-02-01\n## [2.0.0] - 2020-03-01\n";
    let c = parse_str(text).unwrap();
    assert_eq!(c.version().unwrap(), SemVer::parse("2.0.0").unwrap());
    assert!(c.has_unreleased());
    assert_eq!(c.unreleased(), Some(0));
}

#[test]
fn bump_without_working_release_changes_nothing() {
    let text = "## [1.0.0] - 2020-01-01\n[1.0.0]: https://x/v1.0.0\n";
    let mut c = parse_str(text).unwrap();
    let before = c.clone();
    let new_version = SemVer::parse("1.1.0").unwrap();
    assert!(!c.bump(&new_version, Date::new(2024, 5, 6)));
    assert_eq!(c, before);
}

#[test]
fn bump_without_prior_release_changes_nothing() {
    let text = "## [Unreleased]\n### Added\n- a\n";
    let mut c = parse_str(text).unwrap();
    let before = c.clone();
    let new_version = SemVer::parse("0.1.0").unwrap();
    assert!(!c.bump(&new_version, Date::new(2024, 5, 6)));
    assert_eq!(c, before);
}

#[test]
fn bump_minor_replaces_the_working_release() {
    let text = "## [Unreleased]\n### Added\n- a\n## [1.0.0] - 2020-01-01\n";
    let mut c = parse_str(text).unwrap();
    let old_version = c.version().unwrap();
    let new_version = old_version.bump(Change::Minor);
    assert_eq!(new_version, SemVer::parse("1.1.0").unwrap());
    let today = Date::new(2024, 5, 6);
    assert!(c.bump(&new_version, today));
    assert_eq!(c.releases[0].version, Version::Released(SemVer::parse("1.1.0").unwrap()));
    assert_eq!(c.releases[0].date, Some(today));
    assert_eq!(c.releases[0].added, vec!["a"]);
    let out = generate_str(&c);
    assert!(out.contains("## [1.1.0] - 2024-05-06"));
    assert!(out.contains("- a"));
}

#[test]
fn bump_rewrites_the_reference_list() {
    let text = "## [Unreleased]\n### Added\n- a\n## [1.0.0] - 2020-01-01\n[Unreleased]: https://x/compare/v1.0.0...HEAD\n[1.0.0]: https://x/releases/v1.0.0\n";
    let mut c = parse_str(text).unwrap();
    let new_version = c.version().unwrap().bump(Change::Minor);
    assert!(c.bump(&new_version, Date::new(2024, 5, 6)));
    assert_eq!(c.refs.len(), 3);
    assert_eq!(c.refs[0].anchor, "Unreleased");
    assert_eq!(c.refs[0].href, "https://x/compare/v1.1.0...HEAD");
    assert_eq!(c.refs[1].anchor, "1.1.0");
    assert_eq!(c.refs[1].href, "https://x/compare/v1.0.0...v1.1.0");
    assert_eq!(c.refs[2].anchor, "1.0.0");
    assert_eq!(c.refs[2].href, "https://x/releases/v1.0.0");
}

#[test]
fn empty_document_parses_empty() {
    let c = parse_str("").unwrap();
    assert_eq!(c, Changelog::new());
}

#[test]
fn intro_only_document_keeps_its_text() {
    let c = parse_str("just some notes\nwith two lines\n").unwrap();
    assert_eq!(c.intro, "just some notes\nwith two lines\n");
    assert!(c.releases.is_empty());
    assert!(c.refs.is_empty());
}

#[test]
fn manifest_detection_reports_what_is_present() {
    assert_eq!(detect_manifests(true), vec![ManifestType::Cargo]);
    assert!(detect_manifests(false).is_empty());
    assert_eq!(ManifestType::Cargo.label(), "Rust (Cargo.lock, Cargo.toml)");
}

#[test]
fn json_summary_carries_its_fields() {
    let j = Json::new(String::from("1.1.0"), String::from("1.0.0"), true);
    assert_eq!(j.version, "1.1.0");
    assert_eq!(j.previous_version, "1.0.0");
    assert!(j.bump);
}

#[test]
fn version_tags_render_their_labels() {
    assert_eq!(Version::Unreleased.label(), "Unreleased");
    assert_eq!(
        Version::Released(SemVer::parse("1.2.3-next.4").unwrap()).label(),
        "1.2.3-next.4"
    );
}
