use release_notes::version::{increment, inc_kind_of, parse_version, version_lt, IncKind, Version};

fn ver(s: &str) -> Version {
    parse_version(s).expect("well-formed version text")
}

#[test]
fn parses_plain_triple() {
    let v = ver("1.2.3");
    assert_eq!(v.major, 1);
    assert_eq!(v.minor, 2);
    assert_eq!(v.patch, 3);
    assert!(v.pre.is_empty());
    assert!(v.build.is_empty());
}

#[test]
fn parses_pre_release_and_build() {
    let v = ver("2.0.0-rc.1+build.5");
    assert_eq!(v.major, 2);
    assert_eq!(v.pre, vec!["rc".to_string(), "1".to_string()]);
    assert_eq!(v.build, vec!["build".to_string(), "5".to_string()]);
}

#[test]
fn rejects_malformed_text() {
    assert!(parse_version("").is_none());
    assert!(parse_version("1.2").is_none());
    assert!(parse_version("1.2.3.4").is_none());
    assert!(parse_version("01.0.0").is_none());
    assert!(parse_version("1.0.0-").is_none());
    assert!(parse_version("1.0.0-alpha..1").is_none());
    assert!(parse_version("1.0.0-01").is_none());
    assert!(parse_version("1.0.0-al pha").is_none());
    assert!(parse_version("v1.0.0").is_none());
    assert!(parse_version("1.0.0x").is_none());
}

#[test]
fn rejects_numbers_too_large_for_a_machine_word() {
    // one past u64::MAX
    assert!(parse_version("18446744073709551616.0.0").is_none());
    assert!(parse_version("1.0.0-18446744073709551616").is_none());
    // u64::MAX itself is fine
    assert!(parse_version("18446744073709551615.0.0").is_some());
    assert!(parse_version("1.0.0-18446744073709551615").is_some());
}

#[test]
fn round_trips_well_formed_text() {
    for s in [
        "0.0.0",
        "1.2.3",
        "10.20.30",
        "0.1.0-alpha.1",
        "2.0.0-rc.1+build.5",
        "1.0.0+001",
        "1.0.0-alpha-beta.2",
        "18446744073709551615.0.0",
    ] {
        assert_eq!(ver(s).to_string(), s);
    }
}

#[test]
fn increment_major_resets_and_clears() {
    let next = increment(&ver("1.9.9"), IncKind::Major);
    assert_eq!(next.to_string(), "2.0.0");
}

#[test]
fn increment_minor_resets_patch() {
    let next = increment(&ver("1.9.9"), IncKind::Minor);
    assert_eq!(next.to_string(), "1.10.0");
}

#[test]
fn increment_patch_bumps_only_patch() {
    let next = increment(&ver("1.9.9"), IncKind::Patch);
    assert_eq!(next.to_string(), "1.9.10");
}

#[test]
fn increment_clears_pre_release_and_build() {
    let next = increment(&ver("1.2.3-rc.1+b7"), IncKind::Patch);
    assert_eq!(next.to_string(), "1.2.4");
}

#[test]
fn unknown_increment_kind_behaves_as_patch() {
    assert_eq!(inc_kind_of("major"), IncKind::Major);
    assert_eq!(inc_kind_of("minor"), IncKind::Minor);
    assert_eq!(inc_kind_of("patch"), IncKind::Patch);
    assert_eq!(inc_kind_of("banana"), IncKind::Patch);
    let next = increment(&ver("1.9.9"), inc_kind_of("banana"));
    assert_eq!(next.to_string(), "1.9.10");
}

#[test]
fn precedence_compares_numeric_triple() {
    assert!(version_lt(&ver("1.2.3"), &ver("1.3.0")));
    assert!(version_lt(&ver("1.3.0"), &ver("2.0.0")));
    assert!(!version_lt(&ver("2.0.0"), &ver("1.9.9")));
    assert!(!version_lt(&ver("1.2.3"), &ver("1.2.3")));
}

#[test]
fn precedence_ranks_pre_release_below_release() {
    assert!(version_lt(&ver("1.0.0-alpha"), &ver("1.0.0")));
    assert!(!version_lt(&ver("1.0.0"), &ver("1.0.0-alpha")));
}

#[test]
fn precedence_orders_pre_release_identifiers() {
    // numeric identifiers compare numerically
    assert!(version_lt(&ver("1.0.0-alpha.2"), &ver("1.0.0-alpha.10")));
    // numeric ranks below alphanumeric
    assert!(version_lt(&ver("1.0.0-1"), &ver("1.0.0-alpha")));
    // alphanumerics compare lexically
    assert!(version_lt(&ver("1.0.0-alpha"), &ver("1.0.0-beta")));
    // a prefix ranks below its extension
    assert!(version_lt(&ver("1.0.0-alpha"), &ver("1.0.0-alpha.1")));
}

#[test]
fn precedence_ignores_build_metadata() {
    assert!(!version_lt(&ver("1.0.0+a"), &ver("1.0.0+b")));
    assert!(!version_lt(&ver("1.0.0+b"), &ver("1.0.0+a")));
}
