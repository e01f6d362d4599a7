use gaiety::version::{parse_version, parse_version_lenient, satisfies};

#[test]
fn test_parse_version_lenient() {
    assert!(*parse_version_lenient("1.2.3").unwrap().semver() == semver::Version::new(1, 2, 3));
    assert!(*parse_version_lenient("1.2").unwrap().semver() == semver::Version::new(1, 2, 0));
    assert!(*parse_version_lenient("1").unwrap().semver() == semver::Version::new(1, 0, 0));
    assert!(*parse_version_lenient("1.2-alpha").unwrap().semver() == semver::Version::parse("1.2.0-alpha").unwrap());
}

#[test]
fn test_parse_version() {
    assert!(*parse_version("1.2.3").unwrap().semver() == semver::Version::new(1, 2, 3));
    assert!(*parse_version("1.2").unwrap().semver() == semver::Version::new(1, 2, 0));
    assert!(*parse_version("1").unwrap().semver() == semver::Version::new(1, 0, 0));
    assert!(*parse_version("1.2-alpha").unwrap().semver() == semver::Version::parse("1.2.0-alpha").unwrap());
}

#[test]
fn test_satisfies() {
    assert!(satisfies("1.2.3", ">=1.0.0").unwrap());
    assert!(!satisfies("0.9.0", ">=1.0.0").unwrap());
    assert!(satisfies("2.0.0", "^2.0.0").unwrap());
    assert!(satisfies("1.5", "<2.0.0").unwrap());
}

#[test]
fn version_fields() {
    let v = parse_version("3.4.5-rc.1+build.7").unwrap();
    assert_eq!((v.major(), v.minor(), v.patch()), (3, 4, 5));
    assert_eq!(v.pre(), "rc.1");
    assert_eq!(v.build(), "build.7");
    let w = parse_version("2+meta").unwrap();
    assert_eq!((w.major(), w.minor(), w.patch()), (2, 0, 0));
    assert_eq!(w.build(), "meta");
}

#[test]
fn bad_versions() {
    assert!(parse_version("").is_err());
    assert!(parse_version("x.y").is_err());
    assert!(parse_version("1.2.3.4").is_err());
}

#[test]
fn constraint_operators() {
    assert!(satisfies("1.2.9", "~1.2.3").unwrap());
    assert!(!satisfies("1.3.0", "~1.2.3").unwrap());
    assert!(satisfies("1.9.0", "^1.2.3").unwrap());
    assert!(!satisfies("2.0.0", "^1.2.3").unwrap());
    assert!(satisfies("1.5.0", ">=1.0, <2.0").unwrap());
    assert!(!satisfies("2.0.0", ">=1.0, <2.0").unwrap());
    assert!(satisfies("1.2.3", "=1.2.3").unwrap());
    assert!(!satisfies("1.2.3", ">1.2.3").unwrap());
    assert!(satisfies("1.2.3", "<=1.2.3").unwrap());
}

#[test]
fn prerelease_needs_prerelease_constraint() {
    assert!(!satisfies("1.0.1-alpha", ">=1.0.0").unwrap());
    assert!(satisfies("1.0.0-beta", ">=1.0.0-alpha").unwrap());
}

#[test]
fn satisfies_errors() {
    let e = satisfies("x", ">=1.0.0").err().unwrap();
    assert!(e.starts_with("invalid version 'x': "));
    let e = satisfies("1.0.0", ">>1").err().unwrap();
    assert!(e.starts_with("invalid constraint '>>1': "));
}
