use versions::semver::{SemverVersion, ToSemver, ToSemverError};
use versions::Version;

fn version(text: &str) -> Version {
    Version::new_unchecked(text.to_string())
}

fn semver(text: &str) -> Result<String, ToSemverError> {
    version(text).to_semver().map(|v| v.as_str().to_string())
}

fn lossy(text: &str) -> String {
    version(text).to_semver_lossy().as_str().to_string()
}

#[test]
fn test_to_semver() {
    assert_eq!(semver("1.2.3"), Ok("1.2.3".to_string()));
    assert_eq!(semver("1.2.3.4"), Err(ToSemverError::TooManyFields));
    assert_eq!(semver("1.2"), Ok("1.2.0".to_string()));
    assert_eq!(semver("8"), Ok("8.0.0".to_string()));
    assert_eq!(semver("0:1.2.3"), Ok("1.2.3".to_string()));
    assert_eq!(semver("1:1.2.3"), Err(ToSemverError::HasEpoch));
    assert_eq!(semver("0:0:1.2.3"), Err(ToSemverError::InvalidCharacter));
    assert_eq!(semver(":1.2.3"), Err(ToSemverError::InvalidCharacter));
    assert_eq!(semver("1.02"), Err(ToSemverError::LeadingZero));
    assert_eq!(semver(".2"), Err(ToSemverError::InvalidCharacter));
    assert_eq!(semver("-2"), Err(ToSemverError::InvalidCharacter));
    assert_eq!(semver("~2"), Err(ToSemverError::InvalidCharacter));
    assert_eq!(semver("1.2~rc1"), Ok("1.2.0-rc.1".to_string()));
    assert_eq!(semver("1.2~0ubuntu3"), Ok("1.2.0-0.ubuntu.3".to_string()));
    assert_eq!(semver("1.-2"), Err(ToSemverError::InvalidCharacter));
}

#[test]
fn semver_other_errors() {
    assert_eq!(semver("1.2-3"), Err(ToSemverError::HasPost));
    assert_eq!(semver("1a"), Err(ToSemverError::InvalidCharacter));
    assert_eq!(semver(""), Err(ToSemverError::InvalidCharacter));
    assert_eq!(semver("1."), Err(ToSemverError::InvalidCharacter));
    assert_eq!(semver("1~"), Err(ToSemverError::InvalidCharacter));
    assert_eq!(semver("1.2.3+b"), Err(ToSemverError::InvalidCharacter));
    assert_eq!(semver("10:1.2"), Err(ToSemverError::HasEpoch));
}

#[test]
fn semver_pre_release_parts() {
    assert_eq!(semver("1.2.4~rc1"), Ok("1.2.4-rc.1".to_string()));
    assert_eq!(semver("1~alpha.2"), Ok("1.0.0-alpha.2".to_string()));
    assert_eq!(semver("1~a~b"), Ok("1.0.0-a-b".to_string()));
    assert_eq!(semver("1.0~1.2.3.4"), Ok("1.0.0-1.2.3.4".to_string()));
}

#[test]
fn semver_try_from() {
    let v = version("3.1");
    assert_eq!(SemverVersion::try_from(&v).map(|s| s.as_str().to_string()), Ok("3.1.0".to_string()));
    assert_eq!(SemverVersion::try_from(&version("3.1.2.0")).map(|s| s.to_string()), Err(ToSemverError::TooManyFields));
}

#[test]
fn semver_back_to_version() {
    let s = version("1.2~rc1").to_semver().unwrap();
    let back = Version::from(s.clone());
    assert_eq!(back.as_str(), "1.2.0~rc.1");
    assert_eq!(s.to_string(), "1.2.0-rc.1");
}

#[test]
fn semver_round_trip_values() {
    for text in ["1.2", "8", "0:1.2.3", "1.2~rc1", "1.2~0ubuntu3", "1~a~b", "3.0.1~beta.2"] {
        let s = version(text).to_semver().unwrap();
        let back = Version::from(s.clone());
        assert_eq!(back.as_str(), s.as_str().replace('-', "~"));
        assert_eq!(back.to_semver().unwrap(), s);
    }
}

#[test]
fn semver_lossy() {
    assert_eq!(lossy("1.2"), "1.2.0");
    assert_eq!(lossy("1.2.4~rc1"), "1.2.4-rc.1");
    assert_eq!(lossy("1.2.3.1"), "1.2.3+1");
    assert_eq!(lossy("1.2.3.4.5"), "1.2.3+4.5");
    assert_eq!(lossy("2:1.2.2"), "1.2.2");
    assert_eq!(lossy("0:1.2.2"), "1.2.2");
    assert_eq!(lossy("1.2-3"), "1.2.0+3");
    assert_eq!(lossy("1.0-1ubuntu2"), "1.0.0+1ubuntu2");
    assert_eq!(lossy("1.2.3+b1"), "1.2.3+b1");
    assert_eq!(lossy("1.2--~x"), "1.2.0+x");
    assert_eq!(lossy("1.2~"), "1.2.0");
    assert_eq!(lossy("1.02"), "1.0.0+2");
    assert_eq!(lossy("abc"), "0.0.0+abc");
    assert_eq!(lossy(""), "0.0.0");
}
