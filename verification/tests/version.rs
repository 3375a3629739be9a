use firmware_inventory::text::{IntErrorKind, Precedence};
use firmware_inventory::version::{Version, VersionRequirement};

#[test]
fn a_revision_keeps_its_first_three_components() {
    assert_eq!(Version::try_coerced("10.6.0"), Ok(Version::new(10, 6, 0)));
    assert_eq!(Version::try_coerced("10.0.2.1"), Ok(Version::new(10, 0, 2)));
    assert_eq!(Version::try_coerced("10.0.2.2"), Ok(Version::new(10, 0, 2)));
    assert_eq!(Version::try_coerced("1.2.3.x.y"), Ok(Version::new(1, 2, 3)));
    assert_eq!(Version::try_coerced("+1.02.3"), Ok(Version::new(1, 2, 3)));
}

#[test]
fn a_revision_that_is_not_a_version_is_refused() {
    assert_eq!(Version::try_coerced("latest"), Err(IntErrorKind::InvalidDigit));
    assert_eq!(Version::try_coerced(""), Err(IntErrorKind::Empty));
    assert_eq!(Version::try_coerced("1.2"), Err(IntErrorKind::Empty));
    assert_eq!(Version::try_coerced("1"), Err(IntErrorKind::Empty));
    assert_eq!(Version::try_coerced("1..3"), Err(IntErrorKind::Empty));
    assert_eq!(Version::try_coerced("1.2.x"), Err(IntErrorKind::InvalidDigit));
    assert_eq!(Version::try_coerced("-1.2.3"), Err(IntErrorKind::InvalidDigit));
    assert_eq!(Version::try_coerced("+.2.3"), Err(IntErrorKind::InvalidDigit));
    assert_eq!(
        Version::try_coerced("18446744073709551616.0.0"),
        Err(IntErrorKind::PosOverflow)
    );
    assert_eq!(
        Version::try_coerced("18446744073709551615.0.0"),
        Ok(Version::new(u64::MAX, 0, 0))
    );
}

#[test]
fn a_revision_fails_as_the_standard_parser_does() {
    for text in ["", "+", "-", "x", "12a", "+7", "007", "18446744073709551616", "99999999999999999999x"] {
        let expected = text.parse::<u64>().map_err(|e| format!("{e}"));
        let got = Version::try_coerced(&format!("{text}.0.0"))
            .map(|v| v.major)
            .map_err(|e| {
                match e {
                    IntErrorKind::Empty => "cannot parse integer from empty string",
                    IntErrorKind::InvalidDigit => "invalid digit found in string",
                    IntErrorKind::PosOverflow => "number too large to fit in target type",
                }
                .to_string()
            });
        assert_eq!(got, expected, "{text:?}");
    }
}

#[test]
fn a_version_reads_back_from_its_text() {
    let v = Version::new(10, 0, 2);
    assert_eq!(v.to_string(), "10.0.2");
    assert_eq!(Version::try_coerced(&v.to_string()), Ok(v));
    let max = Version::new(u64::MAX, 0, 1234567890);
    assert_eq!(max.to_string(), "18446744073709551615.0.1234567890");
    assert_eq!(Version::try_coerced(&max.to_string()), Ok(max));
}

#[test]
fn a_version_matches_a_requirement_as_semver_does() {
    let req = VersionRequirement::parse(">=11.0.0, <12").unwrap();
    assert!(Version::new(11, 11, 192).matches(&req));
    assert!(!Version::new(10, 6, 0).matches(&req));
    assert_eq!(Version::new(1, 2, 3).semver(), semver::Version::new(1, 2, 3));
}

#[test]
fn versions_compare_by_major_then_minor_then_patch() {
    assert_eq!(Version::new(1, 2, 3).compare(&Version::new(1, 10, 0)), Precedence::Before);
    assert_eq!(Version::new(2, 0, 0).compare(&Version::new(1, 10, 0)), Precedence::After);
    assert_eq!(Version::new(1, 2, 3).compare(&Version::new(1, 2, 3)), Precedence::Same);
    assert!(Version::new(1, 2, 3) < Version::new(1, 10, 0));
}

#[test]
fn a_requirement_keeps_its_text_and_refuses_a_malformed_one() {
    assert_eq!(VersionRequirement::parse("^11").unwrap().as_str(), "^11");
    assert!(VersionRequirement::parse("not a requirement").is_err());
    let exact = VersionRequirement::parse("=10.6.0").unwrap();
    assert!(Version::new(10, 6, 0).matches(&exact));
    assert!(!Version::new(10, 6, 1).matches(&exact));
}
