use std::convert::TryFrom;

use versions::debian::DebianVersion;
use versions::{InvalidVersion, SimpleVersion, Version};

fn version(text: &str) -> Version {
    Version::new_unchecked(text.to_string())
}

#[test]
fn version_end_to_end_order() {
    assert!(version("1.2") < version("1.2.0"));
    assert!(version("1.3.1") > version("1.1.3"));
    assert!(version("1.1~rc1") < version("1.1"));
    assert!(version("1.1-fix1") > version("1.1"));
}

#[test]
fn parse_checks_alphabet() {
    assert!(Version::parse("1.2.3~rc1+b-2".to_string()).is_ok());
    assert!(Version::parse(String::new()).is_ok());
    assert_eq!(Version::parse("1.2:3".to_string()).err(), Some(InvalidVersion::InvalidCharacter));
    assert_eq!(Version::parse("1.2A".to_string()).err(), Some(InvalidVersion::InvalidCharacter));
    assert_eq!(Version::try_from("1 2".to_string()).err(), Some(InvalidVersion::InvalidCharacter));
    let v = Version::try_from("4.5".to_string()).ok().unwrap();
    assert_eq!(v.as_str(), "4.5");
}

#[test]
fn epoch_defaults_to_zero() {
    assert_eq!(version("1.2").epoch(), 0);
    assert_eq!(version("2:1.2").epoch(), 2);
    assert_eq!(version("12:1.2").epoch(), 12);
    assert_eq!(version(":1.2").epoch(), 0);
    assert_eq!(version("a:1.2").epoch(), 0);
    assert_eq!(version("99999999999:1").epoch(), 0);
}

#[test]
fn simple_versions() {
    let s = SimpleVersion::new(version("1.2.3")).unwrap();
    assert_eq!(s.as_ref().as_str(), "1.2.3");
    assert!(SimpleVersion::new(version("1.2~rc1")).is_none());
    assert!(SimpleVersion::new(version("")).is_some());
    let a = SimpleVersion::new(version("1.10")).unwrap();
    let b = SimpleVersion::new(version("1.9")).unwrap();
    assert!(a > b);
    assert!(SimpleVersion::new(version("1.01")).unwrap() == SimpleVersion::new(version("1.1")).unwrap());
}

#[test]
fn debian_accessors() {
    let d = DebianVersion::new(version("1.2.3-4ubuntu1"));
    assert_eq!(d.upstream_version(), "1.2.3");
    assert_eq!(d.debian_revision(), Some("4ubuntu1"));
    let d = DebianVersion::new(version("1.2-3-4"));
    assert_eq!(d.upstream_version(), "1.2-3");
    assert_eq!(d.debian_revision(), Some("4"));
    let d = DebianVersion::new(version("1.2"));
    assert_eq!(d.upstream_version(), "1.2");
    assert_eq!(d.debian_revision(), None);
    let d = DebianVersion::new(version("1.2-"));
    assert_eq!(d.upstream_version(), "1.2");
    assert_eq!(d.debian_revision(), Some(""));
    assert!(DebianVersion::new(version("1.02")) == DebianVersion::new(version("1.2")));
    assert_eq!(d.as_version().as_str(), "1.2-");
}
