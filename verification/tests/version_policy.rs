//! The version model: parsing, rendering, precedence and the bump policy.

use subpub::version::{
    bump_for_breaking_change, bump_for_compatible_change, maybe_bump_for_breaking_change,
    maybe_bump_for_compatible_change, parse_version, Version,
};

#[test]
fn test_bump_for_breaking_change() {
    // Patch version is bumped to minor
    assert_eq!(
        bump_for_breaking_change(Version::new(0, 0, 1)),
        Version::new(0, 1, 0)
    );

    // Minor version is bumped by its minor version component
    assert_eq!(
        bump_for_breaking_change(Version::new(0, 1, 0)),
        Version::new(0, 2, 0)
    );

    // Major version is bumped by its major version component
    assert_eq!(
        bump_for_breaking_change(Version::new(1, 0, 0)),
        Version::new(2, 0, 0)
    );

    // A pre-release tag is stripped without an increment
    assert_eq!(
        bump_for_breaking_change(parse_version("0.0.1-dev").unwrap()),
        Version::new(0, 0, 1)
    );
}

#[test]
fn test_maybe_bump_for_breaking_change() {
    // Picks the highest version among (previous versions + the current version)
    // when previous versions have the highest version
    assert_eq!(
        maybe_bump_for_breaking_change(vec![Version::new(0, 2, 0)], Version::new(0, 1, 0)),
        Some(Version::new(0, 3, 0))
    );

    // Picks the highest version among (previous versions + the current version)
    // when the current version is the highest version
    assert_eq!(
        maybe_bump_for_breaking_change(vec![Version::new(0, 1, 0)], Version::new(0, 2, 0)),
        Some(Version::new(0, 3, 0))
    );

    // Avoids producing a new version if there's no previous version and the
    // current version doesn't have a pre-release component
    assert_eq!(
        maybe_bump_for_breaking_change(vec![], Version::new(0, 1, 0)),
        None
    );

    // Produces a new version if there's no previous version and the current
    // version has a pre-release component
    assert_eq!(
        maybe_bump_for_breaking_change(vec![], parse_version("0.0.1-dev").unwrap()),
        Some(Version::new(0, 0, 1))
    );
}

#[test]
fn compatible_bump_increments_patch() {
    assert_eq!(
        bump_for_compatible_change(Version::new(1, 2, 3)),
        Version::new(1, 2, 4)
    );
    assert_eq!(
        maybe_bump_for_compatible_change(vec![Version::new(1, 2, 3)], Version::new(1, 2, 0)),
        Some(Version::new(1, 2, 4))
    );
}

#[test]
fn parse_and_render_round_trip() {
    let v = parse_version("1.2.3-alpha.1+build.5").unwrap();
    assert_eq!(v.major, 1);
    assert_eq!(v.minor, 2);
    assert_eq!(v.patch, 3);
    assert_eq!(v.pre, vec!["alpha".to_owned(), "1".to_owned()]);
    assert_eq!(v.build, vec!["build".to_owned(), "5".to_owned()]);
    assert_eq!(v.to_display_string(), "1.2.3-alpha.1+build.5".to_owned());
    assert_eq!(parse_version("1.2.3").unwrap(), Version::new(1, 2, 3));
    assert_eq!(Version::new(10, 0, 7).to_display_string(), "10.0.7".to_owned());
    assert!(parse_version("not a version").is_none());
    assert!(parse_version("1.2").is_none());
}

#[test]
fn precedence_orders_pre_releases_before_releases() {
    let release = Version::new(1, 0, 0);
    let alpha = parse_version("1.0.0-alpha").unwrap();
    let alpha1 = parse_version("1.0.0-alpha.1").unwrap();
    let two = parse_version("1.0.0-2").unwrap();
    let ten = parse_version("1.0.0-10").unwrap();
    assert!(alpha.lt(&release));
    assert!(!release.lt(&alpha));
    assert!(alpha.lt(&alpha1));
    // Numeric identifiers are compared numerically, not lexically.
    assert!(two.lt(&ten));
    // Numeric identifiers come before alphanumeric ones.
    assert!(ten.lt(&alpha));
}
