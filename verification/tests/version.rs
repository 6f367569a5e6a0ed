use changelog::{Bump, Change, PreTag, SemVer};

#[test]
fn bump_major() {
    let v_act = SemVer::parse("1.2.3").unwrap();
    let v_exp = SemVer::parse("2.0.0").unwrap();
    assert_eq!(v_act.bump(Change::Major), v_exp);

    let v_act = SemVer::parse("0.0.0").unwrap();
    let v_exp = SemVer::parse("1.0.0").unwrap();
    assert_eq!(v_act.bump(Change::Major), v_exp);

    let v_act = SemVer::parse("1.0.0-next.0").unwrap();
    let v_exp = SemVer::parse("1.0.0").unwrap();
    assert_eq!(v_act.bump(Change::Major), v_exp);

    let v_act = SemVer::parse("1.0.1-next.0").unwrap();
    let v_exp = SemVer::parse("2.0.0").unwrap();
    assert_eq!(v_act.bump(Change::Major), v_exp);

    let v_act = SemVer::parse("1.1.0-next.0").unwrap();
    let v_exp = SemVer::parse("2.0.0").unwrap();
    assert_eq!(v_act.bump(Change::Major), v_exp);
}

#[test]
fn bump_minor() {
    let v_act = SemVer::parse("1.2.3").unwrap();
    let v_exp = SemVer::parse("1.3.0").unwrap();
    assert_eq!(v_act.bump(Change::Minor), v_exp);

    let v_act = SemVer::parse("0.0.0").unwrap();
    let v_exp = SemVer::parse("0.1.0").unwrap();
    assert_eq!(v_act.bump(Change::Minor), v_exp);

    let v_act = SemVer::parse("1.0.1-next.0").unwrap();
    let v_exp = SemVer::parse("1.1.0").unwrap();
    assert_eq!(v_act.bump(Change::Minor), v_exp);

    let v_act = SemVer::parse("1.0.0-next.0").unwrap();
    let v_exp = SemVer::parse("1.0.0").unwrap();
    assert_eq!(v_act.bump(Change::Minor), v_exp);

    let v_act = SemVer::parse("1.1.0-next.0").unwrap();
    let v_exp = SemVer::parse("1.1.0").unwrap();
    assert_eq!(v_act.bump(Change::Minor), v_exp);
}

#[test]
fn bump_patch() {
    let v_act = SemVer::parse("1.2.3").unwrap();
    let v_exp = SemVer::parse("1.2.4").unwrap();
    assert_eq!(v_act.bump(Change::Patch), v_exp);

    let v_act = SemVer::parse("0.0.0").unwrap();
    let v_exp = SemVer::parse("0.0.1").unwrap();
    assert_eq!(v_act.bump(Change::Patch), v_exp);

    let v_act = SemVer::parse("1.0.1-next.0").unwrap();
    let v_exp = SemVer::parse("1.0.1").unwrap();
    assert_eq!(v_act.bump(Change::Patch), v_exp);
}

#[test]
fn bump_prerelease() {
    let v_act = SemVer::parse("1.2.3").unwrap();
    let v_exp = SemVer::parse("1.2.4-next.0").unwrap();
    assert_eq!(v_act.bump(Change::Prerelease), v_exp);

    let v_act = SemVer::parse("0.0.0").unwrap();
    let v_exp = SemVer::parse("0.0.1-next.0").unwrap();
    assert_eq!(v_act.bump(Change::Prerelease), v_exp);

    let v_act = SemVer::parse("1.0.1-next.0").unwrap();
    let v_exp = SemVer::parse("1.0.1-next.1").unwrap();
    assert_eq!(v_act.bump(Change::Prerelease), v_exp);
}

#[test]
fn parse_reads_every_field() {
    let v = SemVer::parse("10.20.30-next.7").unwrap();
    assert_eq!(v.major, 10);
    assert_eq!(v.minor, 20);
    assert_eq!(v.patch, 30);
    let tag = v.pre.unwrap();
    assert_eq!(tag.label, "next");
    assert_eq!(tag.counter, 7);

    let plain = SemVer::parse("0.1.2").unwrap();
    assert!(plain.pre.is_none());
}

#[test]
fn parse_keeps_dotted_labels() {
    let v = SemVer::parse("1.2.3-alpha.beta.4").unwrap();
    let tag = v.pre.unwrap();
    assert_eq!(tag.label, "alpha.beta");
    assert_eq!(tag.counter, 4);
}

#[test]
fn parse_rejects_malformed_versions() {
    assert!(SemVer::parse("").is_none());
    assert!(SemVer::parse("1.2").is_none());
    assert!(SemVer::parse("1.2.x").is_none());
    assert!(SemVer::parse("1.2.3-alpha").is_none());
    assert!(SemVer::parse("1.2.3-.0").is_none());
    assert!(SemVer::parse("1.2.3-next.x").is_none());
}

#[test]
fn version_text_round_trip() {
    for text in ["0.0.0", "1.2.3", "12.0.7", "1.2.3-next.0", "2.0.0-alpha.beta.15"] {
        let v = SemVer::parse(text).unwrap();
        assert_eq!(v.to_text(), text);
        assert_eq!(SemVer::parse(&v.to_text()).unwrap(), v);
    }
}

#[test]
fn ordering_puts_prerelease_below_release() {
    let pre = SemVer::parse("2.0.0-next.3").unwrap();
    let rel = SemVer::parse("2.0.0").unwrap();
    assert!(pre.at_most(&rel));
    assert!(!rel.at_most(&pre));

    let lower = SemVer::parse("1.9.9").unwrap();
    assert!(lower.at_most(&pre));

    let early = SemVer::parse("2.0.0-next.2").unwrap();
    assert!(early.at_most(&pre));
    assert!(!pre.at_most(&early));
}

#[test]
fn prerelease_counter_continues_from_custom_tag() {
    let v = SemVer {
        major: 3,
        minor: 1,
        patch: 4,
        pre: Some(PreTag { label: String::from("rc"), counter: 9 }),
    };
    let next = v.bump(Change::Prerelease);
    let tag = next.pre.unwrap();
    assert_eq!(tag.label, "rc");
    assert_eq!(tag.counter, 10);
    assert_eq!(next.major, 3);
    assert_eq!(next.minor, 1);
    assert_eq!(next.patch, 4);
}
