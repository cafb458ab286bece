//! Version numbers: a total order compatible with Debian's versioning policy,
//! and conversion to and from semver.org's Semantic Versioning.
//!
//! The library is based around Debian's versioning scheme, which is both very
//! expressive and very compatible: it accepts nearly any version string found
//! in the wild. Versions of stricter schemes, such as semver, can be converted
//! to and from it.
use std::cmp::Ordering;

use vstd::prelude::*;
use vstd::string::StringSliceAdditionalSpecFns;
use vstd::utf8::encode_utf8;

pub mod cmp;
pub mod debian;
pub mod python;
pub mod semver;
pub mod utils;

use crate::utils::{is_digit, DOT};
use crate::cmp::{
    compare_versions, epoch_of, leading_epoch, lemma_version_order_antisymmetric,
    lemma_version_order_equal, lemma_version_order_less, rank, reversed, version_order,
};

verus! {

/// Whether every byte of `s` belongs to the alphabet of versions: `a` to `z`,
/// `0` to `9`, `+`, `-`, `~` and `.`.
pub open spec fn valid_text(s: Seq<u8>) -> bool {
    forall|i: int| 0 <= i < s.len() ==> rank(#[trigger] s[i]) != 255
}

/// A version number. Versions are ordered by [`Version::cmp`], which `==`
/// and `<` follow.
#[derive(Clone, Debug)]
pub struct Version(String);

impl View for Version {
    type V = Seq<u8>;

    /// The bytes of the version's text.
    closed spec fn view(&self) -> Seq<u8> {
        encode_utf8(self.0@)
    }
}

/// Error for the version parser.
#[derive(Clone, Copy, Debug, PartialEq, Eq, Structural)]
#[non_exhaustive]
pub enum InvalidVersion {
    /// The version contains invalid characters.
    InvalidCharacter,
    /// The version number contains numeric fields with a leading zero.
    LeadingZero,
}

impl Version {
    /// Takes `text` as a version as it stands, without checking its alphabet.
    /// The order and the conversions are defined on any text.
    pub fn new_unchecked(text: String) -> (r: Version)
        ensures
            r@ == encode_utf8(text@),
            r == Version::holding(text),
    {
        Version(text)
    }

    /// The version's text.
    pub fn as_str(&self) -> (r: &str)
        ensures
            r.spec_bytes() == self@,
    {
        self.0.as_str()
    }

    /// Orders two versions; see [`version_order`].
    pub fn cmp(&self, other: &Version) -> (r: Ordering)
        ensures
            r == version_order(self@, other@),
    {
        compare_versions(self.0.as_str(), other.0.as_str())
    }

    /// The epoch: the number that stands before a `:` at the start of the
    /// version; 0 where there is none, or where it does not fit in a `u32`.
    pub fn epoch(&self) -> (r: u32)
        ensures
            r == epoch_of(self@),
    {
        leading_epoch(self.0.as_str().as_bytes())
    }

    /// The version whose text is `text`.
    pub closed spec fn holding(text: String) -> Version {
        Version(text)
    }

    /// Accepts `text` where each of its bytes belongs to the alphabet of
    /// versions (see [`valid_text`]).
    pub fn parse(text: String) -> (r: Result<Version, InvalidVersion>)
        ensures
            r is Ok <==> valid_text(encode_utf8(text@)),
            r matches Ok(v) ==> v@ == encode_utf8(text@) && v == Version::holding(text),
            r matches Err(e) ==> e == InvalidVersion::InvalidCharacter,
    {
        let bytes = text.as_str().as_bytes();
        let mut i: usize = 0;
        while i < bytes.len()
            invariant
                bytes@ == encode_utf8(text@),
                i <= bytes@.len(),
                forall|j: int| 0 <= j < i ==> rank(#[trigger] bytes@[j]) != 255,
            decreases bytes@.len() - i,
        {
            if crate::cmp::char_order(bytes[i]) == 255 {
                return Err(InvalidVersion::InvalidCharacter);
            }
            i = i + 1;
        }
        Ok(Version(text))
    }
}

impl TryFrom<String> for Version {
    type Error = InvalidVersion;

    /// See [`Version::parse`].
    fn try_from(text: String) -> (r: Result<Version, InvalidVersion>) {
        Version::parse(text)
    }
}

impl vstd::std_specs::convert::TryFromSpecImpl<String> for Version {
    open spec fn obeys_try_from_spec() -> bool {
        true
    }

    open spec fn try_from_spec(text: String) -> Result<Version, InvalidVersion> {
        if valid_text(encode_utf8(text@)) {
            Ok(Version::holding(text))
        } else {
            Err(InvalidVersion::InvalidCharacter)
        }
    }
}

impl PartialEq for Version {
    /// Versions are equal where they compare `Equal`.
    fn eq(&self, other: &Version) -> (r: bool) {
        match self.cmp(other) {
            Ordering::Equal => true,
            _ => false,
        }
    }
}

impl vstd::std_specs::cmp::PartialEqSpecImpl for Version {
    open spec fn obeys_eq_spec() -> bool {
        true
    }

    open spec fn eq_spec(&self, other: &Version) -> bool {
        version_order(self@, other@) == Ordering::Equal
    }
}

impl Eq for Version {

}

impl PartialOrd for Version {
    fn partial_cmp(&self, other: &Version) -> (r: Option<Ordering>) {
        Some(self.cmp(other))
    }
}

impl vstd::std_specs::cmp::PartialOrdSpecImpl for Version {
    open spec fn obeys_partial_cmp_spec() -> bool {
        true
    }

    open spec fn partial_cmp_spec(&self, other: &Version) -> Option<Ordering> {
        Some(version_order(self@, other@))
    }
}

/// The order on versions is total: exactly one of `a < b`, `a == b` and
/// `a > b` holds, swapping the two reverses the outcome, and `<` and `==` are
/// transitive.
pub proof fn version_total_order(a: Version, b: Version, c: Version)
    ensures
        version_order(a@, b@) == Ordering::Less || version_order(a@, b@) == Ordering::Equal
            || version_order(a@, b@) == Ordering::Greater,
        version_order(b@, a@) == reversed(version_order(a@, b@)),
        version_order(a@, b@) == Ordering::Less && version_order(b@, c@) == Ordering::Less
            ==> version_order(a@, c@) == Ordering::Less,
        version_order(a@, b@) == Ordering::Equal && version_order(b@, c@) == Ordering::Equal
            ==> version_order(a@, c@) == Ordering::Equal,
        version_order(a@, b@) == Ordering::Equal ==> version_order(a@, c@) == version_order(
            b@,
            c@,
        ),
{
    lemma_version_order_antisymmetric(a@, b@);
    if version_order(a@, b@) == Ordering::Less && version_order(b@, c@) == Ordering::Less {
        lemma_version_order_less(a@, b@, c@);
    }
    if version_order(a@, b@) == Ordering::Equal {
        lemma_version_order_equal(a@, b@, c@);
    }
}

/// A simple "old-school" version number: only digits and dots.
///
/// It reads the same in all versioning schemes (but for semver's demand of
/// exactly three fields).
#[derive(Clone, Debug)]
pub struct SimpleVersion(Version);

/// Whether `s` holds only digits and dots.
pub open spec fn simple_text(s: Seq<u8>) -> bool {
    forall|i: int| 0 <= i < s.len() ==> (is_digit(#[trigger] s[i]) || s[i] == DOT)
}

impl SimpleVersion {
    /// Accepts `version` where it holds only digits and dots.
    pub fn new(version: Version) -> (r: Option<SimpleVersion>)
        ensures
            r is Some <==> simple_text(version@),
            r matches Some(s) ==> s.version()@ == version@,
    {
        let bytes = version.as_str().as_bytes();
        let mut i: usize = 0;
        while i < bytes.len()
            invariant
                bytes@ == version@,
                i <= bytes@.len(),
                forall|j: int|
                    0 <= j < i ==> (is_digit(#[trigger] bytes@[j]) || bytes@[j]
                        == DOT),
            decreases bytes@.len() - i,
        {
            let c = bytes[i];
            if !((0x30 <= c && c <= 0x39) || c == DOT) {
                return None;
            }
            i = i + 1;
        }
        Some(SimpleVersion(version))
    }

    /// The version itself.
    pub closed spec fn version(&self) -> Version {
        self.0
    }

    /// The version itself.
    pub fn as_ref(&self) -> (r: &Version)
        ensures
            *r == self.version(),
    {
        &self.0
    }
}

impl PartialEq for SimpleVersion {
    /// Simple versions are equal where their versions compare `Equal`.
    fn eq(&self, other: &SimpleVersion) -> (r: bool) {
        match self.0.cmp(&other.0) {
            Ordering::Equal => true,
            _ => false,
        }
    }
}

impl vstd::std_specs::cmp::PartialEqSpecImpl for SimpleVersion {
    open spec fn obeys_eq_spec() -> bool {
        true
    }

    open spec fn eq_spec(&self, other: &SimpleVersion) -> bool {
        version_order(self.version()@, other.version()@) == Ordering::Equal
    }
}

impl Eq for SimpleVersion {

}

impl PartialOrd for SimpleVersion {
    fn partial_cmp(&self, other: &SimpleVersion) -> (r: Option<Ordering>) {
        Some(self.0.cmp(&other.0))
    }
}

impl vstd::std_specs::cmp::PartialOrdSpecImpl for SimpleVersion {
    open spec fn obeys_partial_cmp_spec() -> bool {
        true
    }

    open spec fn partial_cmp_spec(&self, other: &SimpleVersion) -> Option<Ordering> {
        Some(version_order(self.version()@, other.version()@))
    }
}

} // verus!
