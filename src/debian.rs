//! Debian's versioning scheme.
//!
//! The order of [`Version`] is Debian's, so this is a thin wrapper around it
//! that adds Debian's accessors: the upstream version and the revision, which
//! the last `-` separates.
use std::cmp::Ordering;

use vstd::prelude::*;
use vstd::string::StringSliceAdditionalSpecFns;
use vstd::utf8::{
    encode_utf8_valid_utf8, is_char_boundary, is_char_boundary_iff_not_is_continuation_byte,
};

use crate::cmp::version_order;
use crate::utils::DASH;
use crate::Version;

verus! {

/// Index of the last `-` of `s`, if any.
pub open spec fn last_dash(s: Seq<u8>) -> Option<int>
    decreases s.len(),
{
    if s.len() == 0 {
        None
    } else if s.last() == DASH {
        Some(s.len() - 1)
    } else {
        last_dash(s.drop_last())
    }
}

/// The upstream part of a Debian version: what stands before its last `-`,
/// or all of it where there is none.
pub open spec fn upstream_of(s: Seq<u8>) -> Seq<u8> {
    match last_dash(s) {
        Some(h) => s.take(h),
        None => s,
    }
}

/// The revision of a Debian version: what follows its last `-`, if any.
pub open spec fn revision_of(s: Seq<u8>) -> Option<Seq<u8>> {
    match last_dash(s) {
        Some(h) => Some(s.skip(h + 1)),
        None => None,
    }
}

/// A Debian version number.
#[derive(Clone, Debug)]
pub struct DebianVersion(Version);

impl View for DebianVersion {
    type V = Seq<u8>;

    /// The bytes of the version's text.
    closed spec fn view(&self) -> Seq<u8> {
        self.0@
    }
}

/// Index of the last `-` of `s`.
fn rfind_dash(s: &[u8]) -> (r: Option<usize>)
    ensures
        r matches Some(h) ==> last_dash(s@) == Some(h as int) && h < s@.len() && s@[h as int]
            == DASH,
        r is None ==> last_dash(s@) is None,
{
    let mut i = s.len();
    proof {
        assert(s@.take(i as int) =~= s@);
    }
    while i > 0
        invariant
            i <= s@.len(),
            last_dash(s@) == last_dash(s@.take(i as int)),
        decreases i,
    {
        proof {
            assert(s@.take(i as int).drop_last() =~= s@.take(i - 1));
        }
        if s[i - 1] == DASH {
            return Some(i - 1);
        }
        i = i - 1;
    }
    assert(s@.take(0) =~= Seq::<u8>::empty());
    None
}

impl DebianVersion {
    /// Reads `version` as a Debian version.
    pub fn new(version: Version) -> (r: DebianVersion)
        ensures
            r@ == version@,
    {
        DebianVersion(version)
    }

    /// The version itself.
    pub fn as_version(&self) -> (r: &Version)
        ensures
            r@ == self@,
    {
        &self.0
    }

    /// The upstream version: the version of the packaged software.
    pub fn upstream_version(&self) -> (r: &str)
        ensures
            r.spec_bytes() == upstream_of(self@),
    {
        let text = self.0.as_str();
        let bytes = text.as_bytes();
        match rfind_dash(bytes) {
            Some(hyphen) => {
                proof {
                    encode_utf8_valid_utf8(text@);
                    is_char_boundary_iff_not_is_continuation_byte(text.spec_bytes(), hyphen as int);
                }
                let (upstream, _) = text.split_at(hyphen);
                assert(upstream.spec_bytes() =~= upstream_of(self@));
                upstream
            },
            None => text,
        }
    }

    /// The Debian revision: the version of the packaging itself.
    pub fn debian_revision(&self) -> (r: Option<&str>)
        ensures
            r matches Some(t) ==> revision_of(self@) == Some(t.spec_bytes()),
            r is None ==> revision_of(self@) is None,
    {
        let text = self.0.as_str();
        let bytes = text.as_bytes();
        match rfind_dash(bytes) {
            Some(hyphen) => {
                proof {
                    encode_utf8_valid_utf8(text@);
                    is_char_boundary_iff_not_is_continuation_byte(text.spec_bytes(), hyphen as int);
                }
                let (_, tail) = text.split_at(hyphen);
                proof {
                    encode_utf8_valid_utf8(tail@);
                    assert(tail.spec_bytes() =~= bytes@.skip(hyphen as int));
                    assert(tail.spec_bytes()[0] == DASH);
                    reveal_with_fuel(is_char_boundary, 2);
                }
                let (_, revision) = tail.split_at(1);
                assert(revision.spec_bytes() =~= self@.skip(hyphen + 1));
                Some(revision)
            },
            None => None,
        }
    }
}

impl PartialEq for DebianVersion {
    /// Debian versions are equal where they compare `Equal`.
    fn eq(&self, other: &DebianVersion) -> (r: bool) {
        match self.0.cmp(&other.0) {
            Ordering::Equal => true,
            _ => false,
        }
    }
}

impl vstd::std_specs::cmp::PartialEqSpecImpl for DebianVersion {
    open spec fn obeys_eq_spec() -> bool {
        true
    }

    open spec fn eq_spec(&self, other: &DebianVersion) -> bool {
        version_order(self@, other@) == Ordering::Equal
    }
}

impl Eq for DebianVersion {

}

} // verus!
