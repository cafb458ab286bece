//! Semantic Versioning, as semver.org describes it.
//!
//! A semantic version is three numbers `major.minor.patch`, with an optional
//! pre-release part after a dash. It is stricter than Debian's scheme: it has
//! no epoch and no post-release, and it has exactly three fields. This module
//! converts versions that fit into that form, and tells why others do not.
use vstd::prelude::*;
use vstd::string::StringSliceAdditionalSpecFns;
use vstd::utf8::{encode_utf8, encode_utf8_valid_utf8, is_ascii_chars, is_ascii_chars_encode_utf8, valid_utf8};

use crate::cmp::{digit_len, lemma_run_len_at, position};
use crate::utils::{is_digit, NumChecker, COLON, DASH, DOT, PLUS, TILDE, ZERO};
use crate::Version;

verus! {

/// A semantic version, as semver.org defines it. Only the conversion from a
/// [`Version`] makes one.
#[derive(Debug, PartialEq, Eq)]
pub struct SemverVersion(String);

impl Clone for SemverVersion {
    fn clone(&self) -> (r: SemverVersion)
        ensures
            r@ == self@,
    {
        proof {
            use_type_invariant(self);
        }
        SemverVersion(self.0.clone())
    }
}

impl View for SemverVersion {
    type V = Seq<u8>;

    /// The bytes of the version's text.
    closed spec fn view(&self) -> Seq<u8> {
        encode_utf8(self.0@)
    }
}

impl SemverVersion {
    /// The text of a semantic version is ASCII.
    #[verifier::type_invariant]
    closed spec fn inv(self) -> bool {
        ascii_bytes(encode_utf8(self.0@))
    }

    /// The version's text.
    pub fn as_str(&self) -> (r: &str)
        ensures
            r.spec_bytes() == self@,
    {
        self.0.as_str()
    }

    /// The version's text, as an owned string.
    pub fn to_string(&self) -> (r: String)
        ensures
            encode_utf8(r@) == self@,
    {
        self.0.clone()
    }
}

/// Why a version is not a semantic version.
#[derive(Clone, Copy, Debug, PartialEq, Eq, Structural)]
pub enum ToSemverError {
    /// An epoch other than `0` stands before a `:`.
    HasEpoch,
    /// A `-` introduces a post-release.
    HasPost,
    /// More than three numeric fields.
    TooManyFields,
    /// A numeric field starts with `0` and has more digits.
    LeadingZero,
    /// A byte that semver does not allow there, or an empty field.
    InvalidCharacter,
}

/// State of the scan that converts a version to semver, after some prefix of
/// its bytes.
pub struct Scan {
    /// Index of the current field: 0, 1 and 2 for the three numbers, 3
    /// inside the pre-release part.
    pub field: nat,
    /// Classification of the current field.
    pub num: NumChecker,
    /// The semver text written so far.
    pub out: Seq<u8>,
    /// Whether a `0:` epoch was read and dropped.
    pub epoch_read: bool,
}

/// The scan before any byte is read.
pub open spec fn scan_start() -> Scan {
    Scan { field: 0, num: NumChecker::Start, out: Seq::empty(), epoch_read: false }
}

/// `.0` for each of the fields from `field` up to the third one.
pub open spec fn zero_fields(field: nat) -> Seq<u8>
    decreases 2 - field,
{
    if field >= 2 {
        Seq::empty()
    } else {
        seq![DOT, ZERO] + zero_fields(field + 1)
    }
}

/// Reads one byte `c` of the version.
pub open spec fn scan_step(st: Scan, c: u8) -> Result<Scan, ToSemverError> {
    if is_digit(c) {
        let (out, num) = if st.num == NumChecker::NotNum {
            (st.out.push(DOT), NumChecker::Start)
        } else {
            (st.out, st.num)
        };
        match num.next(c) {
            Some(n) => Ok(Scan { out: out.push(c), num: n, ..st }),
            None => Err(ToSemverError::LeadingZero),
        }
    } else if c == DOT {
        if st.num == NumChecker::Start {
            Err(ToSemverError::InvalidCharacter)
        } else if st.field == 2 {
            Err(ToSemverError::TooManyFields)
        } else {
            let field = if st.field < 3 {
                st.field + 1
            } else {
                st.field
            };
            Ok(Scan { out: st.out.push(DOT), field, num: NumChecker::Start, ..st })
        }
    } else if c == TILDE {
        if st.num == NumChecker::Start {
            Err(ToSemverError::InvalidCharacter)
        } else {
            Ok(
                Scan {
                    out: st.out + zero_fields(st.field) + seq![DASH],
                    field: 3,
                    num: NumChecker::Start,
                    ..st
                },
            )
        }
    } else if c == COLON && st.field == 0 && !st.epoch_read && st.out.len() > 0 {
        if st.out == seq![ZERO] {
            Ok(Scan { out: Seq::empty(), num: NumChecker::Start, epoch_read: true, ..st })
        } else {
            Err(ToSemverError::HasEpoch)
        }
    } else if c == DASH && st.num != NumChecker::Start {
        Err(ToSemverError::HasPost)
    } else if 0x61 <= c <= 0x7a {
        if st.field < 3 {
            Err(ToSemverError::InvalidCharacter)
        } else {
            let out = if st.num.is_numeric() {
                st.out.push(DOT)
            } else {
                st.out
            };
            Ok(Scan { out: out.push(c), num: NumChecker::NotNum, ..st })
        }
    } else {
        Err(ToSemverError::InvalidCharacter)
    }
}

/// The scan after all bytes of `s`, or the first error it met.
pub open spec fn scan(s: Seq<u8>) -> Result<Scan, ToSemverError>
    decreases s.len(),
{
    if s.len() == 0 {
        Ok(scan_start())
    } else {
        match scan(s.drop_last()) {
            Ok(st) => scan_step(st, s.last()),
            Err(e) => Err(e),
        }
    }
}

/// The semantic version of the version text `s`, or why there is none. A
/// field left empty at the end is refused; missing numbers become `.0`.
pub open spec fn semver_of(s: Seq<u8>) -> Result<Seq<u8>, ToSemverError> {
    match scan(s) {
        Ok(st) => if st.num == NumChecker::Start {
            Err(ToSemverError::InvalidCharacter)
        } else {
            Ok(st.out + zero_fields(st.field))
        },
        Err(e) => Err(e),
    }
}

/// Whether every byte of `s` is ASCII.
pub open spec fn ascii_bytes(s: Seq<u8>) -> bool {
    forall|i: int| 0 <= i < s.len() ==> #[trigger] s[i] < 0x80
}

proof fn lemma_ascii_valid_utf8(s: Seq<u8>)
    requires
        ascii_bytes(s),
    ensures
        valid_utf8(s),
{
    let chars = Seq::new(s.len(), |i: int| s[i] as char);
    assert(is_ascii_chars(chars));
    is_ascii_chars_encode_utf8(chars);
    assert(encode_utf8(chars) =~= s);
    encode_utf8_valid_utf8(chars);
}

/// Relies on `String::from_utf8`: on valid UTF-8 it returns a string that
/// holds exactly the given bytes.
#[verifier::external_body]
fn string_from_utf8(bytes: Vec<u8>) -> (r: String)
    requires
        valid_utf8(bytes@),
    ensures
        encode_utf8(r@) == bytes@,
{
    String::from_utf8(bytes).unwrap()
}

/// Appends `.0` for each of the fields from `field` up to the third one.
fn push_zero_fields(version: &mut Vec<u8>, field: usize)
    ensures
        final(version)@ == old(version)@ + zero_fields(field as nat),
{
    let mut f = field;
    proof {
        assert(version@ =~= old(version)@ + zero_fields(field as nat).take(0));
    }
    while f < 2
        invariant
            field <= f,
            f > 2 ==> f == field,
            zero_fields(field as nat) =~= zero_fields(field as nat).take(
                (2 * (f - field)) as int,
            ) + zero_fields(f as nat),
            version@ =~= old(version)@ + zero_fields(field as nat).take((2 * (f - field)) as int),
        decreases 2 - f,
    {
        proof {
            let z = zero_fields(field as nat);
            let k = (2 * (f - field)) as int;
            assert(zero_fields(f as nat) =~= seq![DOT, ZERO] + zero_fields((f + 1) as nat));
            assert(z.take(k + 2) =~= z.take(k).push(DOT).push(ZERO)) by {
                assert(z =~= z.take(k) + zero_fields(f as nat));
            }
            assert(z =~= z.take(k + 2) + zero_fields((f + 1) as nat)) by {
                assert(z =~= z.take(k) + zero_fields(f as nat));
            }
        }
        version.push(DOT);
        version.push(ZERO);
        f = f + 1;
    }
    proof {
        assert(zero_fields(f as nat) =~= Seq::<u8>::empty());
        assert(zero_fields(field as nat).take((2 * (f - field)) as int) =~= zero_fields(
            field as nat,
        ));
    }
}

/// Once the scan of a prefix has failed, the scan of the whole fails alike.
proof fn lemma_scan_error_stays(s: Seq<u8>, k: int)
    requires
        0 <= k <= s.len(),
        scan(s.take(k)) is Err,
    ensures
        scan(s) == scan(s.take(k)),
    decreases s.len() - k,
{
    if k < s.len() {
        assert(s.take(k + 1).drop_last() =~= s.take(k));
        lemma_scan_error_stays(s, k + 1);
    } else {
        assert(s.take(k) =~= s);
    }
}

proof fn lemma_zero_fields_ascii(field: nat)
    ensures
        ascii_bytes(zero_fields(field)),
    decreases 2 - field,
{
    if field < 2 {
        lemma_zero_fields_ascii(field + 1);
    }
}

/// The scan writes only ASCII bytes, its field index stays below 4, and it
/// reads letters only in the pre-release part.
proof fn lemma_scan_ascii(s: Seq<u8>)
    ensures
        scan(s) matches Ok(st) ==> ascii_bytes(st.out) && st.field <= 3 && (st.num
            == NumChecker::NotNum ==> st.field == 3),
    decreases s.len(),
{
    if s.len() > 0 {
        lemma_scan_ascii(s.drop_last());
        if let Ok(st) = scan(s.drop_last()) {
            lemma_zero_fields_ascii(st.field);
            let c = s.last();
            if let Ok(next) = scan_step(st, c) {
                assert(ascii_bytes(next.out));
            }
        }
    }
}

/// Runs the conversion over the bytes `s` of a version; see [`semver_of`].
fn convert(s: &[u8]) -> (r: Result<Vec<u8>, ToSemverError>)
    ensures
        match r {
            Ok(v) => semver_of(s@) == Ok::<Seq<u8>, ToSemverError>(v@) && ascii_bytes(v@),
            Err(e) => semver_of(s@) == Err::<Seq<u8>, ToSemverError>(e),
        },
{
    let mut field: usize = 0;
    let mut num_check = NumChecker::new();
    let mut version: Vec<u8> = Vec::new();
    let mut read_epoch = false;
    let mut i: usize = 0;
    proof {
        assert(s@.take(0) =~= Seq::<u8>::empty());
    }
    while i < s.len()
        invariant
            i <= s@.len(),
            field <= 3,
            scan(s@.take(i as int)) == Ok::<Scan, ToSemverError>(
                Scan { field: field as nat, num: num_check, out: version@, epoch_read: read_epoch },
            ),
        decreases s@.len() - i,
    {
        let c = s[i];
        let ghost st = Scan {
            field: field as nat,
            num: num_check,
            out: version@,
            epoch_read: read_epoch,
        };
        proof {
            assert(s@.take(i + 1).drop_last() =~= s@.take(i as int));
            assert(scan(s@.take(i + 1)) == scan_step(st, c));
            if scan_step(st, c) is Err {
                lemma_scan_error_stays(s@, i + 1);
            }
        }
        if 0x30 <= c && c <= 0x39 {
            if num_check == NumChecker::NotNum {
                version.push(DOT);
                num_check.reset();
            }
            version.push(c);
            if !num_check.check(c) {
                return Err(ToSemverError::LeadingZero);
            }
        } else if c == DOT {
            if num_check == NumChecker::Start {
                return Err(ToSemverError::InvalidCharacter);
            }
            if field == 2 {
                return Err(ToSemverError::TooManyFields);
            }
            version.push(c);
            if field < 3 {
                field = field + 1;
            }
            num_check.reset();
        } else if c == TILDE {
            if num_check == NumChecker::Start {
                return Err(ToSemverError::InvalidCharacter);
            }
            push_zero_fields(&mut version, field);
            version.push(DASH);
            field = 3;
            num_check.reset();
        } else if c == COLON && field == 0 && !read_epoch && version.len() > 0 {
            if version.len() == 1 && version[0] == ZERO {
                assert(version@ =~= seq![ZERO]);
                version.clear();
                read_epoch = true;
                num_check.reset();
            } else {
                assert(version@ != seq![ZERO]) by {
                    if version@ == seq![ZERO] {
                        assert(version@[0] == ZERO);
                    }
                }
                return Err(ToSemverError::HasEpoch);
            }
        } else if c == DASH && num_check != NumChecker::Start {
            return Err(ToSemverError::HasPost);
        } else if 0x61 <= c && c <= 0x7a {
            if field < 3 {
                return Err(ToSemverError::InvalidCharacter);
            }
            if num_check.numeric() {
                version.push(DOT);
                num_check.reset();
            }
            version.push(c);
            num_check.check(c);
        } else {
            return Err(ToSemverError::InvalidCharacter);
        }
        proof {
            assert(version@ =~= scan_step(st, c)->Ok_0.out);
        }
        i = i + 1;
    }
    proof {
        assert(s@.take(i as int) =~= s@);
    }
    if num_check == NumChecker::Start {
        return Err(ToSemverError::InvalidCharacter);
    }
    push_zero_fields(&mut version, field);
    proof {
        lemma_scan_ascii(s@);
        lemma_zero_fields_ascii(field as nat);
        assert(ascii_bytes(version@));
    }
    Ok(version)
}

/// Replaces each `-` of `s` by `~`.
pub open spec fn dashes_to_tildes(s: Seq<u8>) -> Seq<u8> {
    s.map_values(|c: u8| if c == DASH { TILDE } else { c })
}

/// The outcome of a conversion, with the semantic version read as its bytes.
pub open spec fn semver_bytes(r: Result<SemverVersion, ToSemverError>) -> Result<
    Seq<u8>,
    ToSemverError,
> {
    match r {
        Ok(v) => Ok(v@),
        Err(e) => Err(e),
    }
}

/// `s` without a leading epoch: digits followed by `:`.
pub open spec fn without_epoch(s: Seq<u8>) -> Seq<u8> {
    let n = digit_len(s);
    if n < s.len() && s[n as int] == COLON {
        s.skip(n + 1 as int)
    } else {
        s
    }
}

/// Length of the longest prefix of `s`, of at most `k` bytes, that converts;
/// 0 where none does.
pub open spec fn semver_prefix_len(s: Seq<u8>, k: nat) -> nat
    decreases k,
{
    if k == 0 {
        0
    } else if semver_of(s.take(k as int)) is Ok {
        k
    } else {
        semver_prefix_len(s, (k - 1) as nat)
    }
}

/// Whether `c` may stand in an identifier of semver's build metadata.
pub open spec fn identifier_byte(c: u8) -> bool {
    is_digit(c) || 0x61 <= c <= 0x7a
}

/// Build metadata made of `s`: its digits and letters, where each run of
/// other bytes between two of them becomes one `.`. The second component
/// tells whether such a run is pending.
pub open spec fn metadata_scan(s: Seq<u8>) -> (Seq<u8>, bool)
    decreases s.len(),
{
    if s.len() == 0 {
        (Seq::empty(), false)
    } else {
        let (out, pending) = metadata_scan(s.drop_last());
        let c = s.last();
        if identifier_byte(c) {
            (
                if pending {
                    out.push(DOT).push(c)
                } else {
                    out.push(c)
                },
                false,
            )
        } else {
            (out, out.len() > 0)
        }
    }
}

/// The lossy semantic version of the version text `s`. An epoch is dropped.
/// The longest prefix that converts gives the version (`0.0.0` where none
/// does); what follows it (further fields, a post-release, bytes that semver
/// does not allow) is kept as build metadata after a `+`, as far as it holds
/// digits and letters.
pub open spec fn lossy_semver_of(s: Seq<u8>) -> Seq<u8> {
    let t = without_epoch(s);
    let k = semver_prefix_len(t, t.len());
    let base = if k == 0 {
        seq![ZERO, DOT, ZERO, DOT, ZERO]
    } else {
        semver_of(t.take(k as int))->Ok_0
    };
    let metadata = metadata_scan(t.skip(k as int)).0;
    if metadata.len() == 0 {
        base
    } else {
        base + seq![PLUS] + metadata
    }
}

/// Appends to `out` the build metadata made of `s`; see [`metadata_scan`].
fn push_metadata(out: &mut Vec<u8>, s: &[u8])
    requires
        ascii_bytes(old(out)@),
    ensures
        final(out)@ == old(out)@ + metadata_scan(s@).0,
        ascii_bytes(final(out)@),
{
    let ghost start = out@;
    let start_len = out.len();
    let mut pending = false;
    let mut i: usize = 0;
    proof {
        assert(s@.take(0) =~= Seq::<u8>::empty());
        assert(out@ =~= start + Seq::<u8>::empty());
    }
    while i < s.len()
        invariant
            i <= s@.len(),
            ascii_bytes(out@),
            out@ =~= start + metadata_scan(s@.take(i as int)).0,
            start_len == start.len(),
            pending == metadata_scan(s@.take(i as int)).1,
        decreases s@.len() - i,
    {
        let c = s[i];
        proof {
            assert(s@.take(i + 1).drop_last() =~= s@.take(i as int));
        }
        if (0x30 <= c && c <= 0x39) || (0x61 <= c && c <= 0x7a) {
            if pending {
                out.push(DOT);
            }
            out.push(c);
            pending = false;
        } else {
            pending = out.len() > start_len;
        }
        i = i + 1;
    }
    proof {
        assert(s@.take(i as int) =~= s@);
    }
}

/// Conversion to semver.org's Semantic Versioning.
pub trait ToSemver: View<V = Seq<u8>> {
    /// Converts where the version is a semantic version; see [`semver_of`].
    fn to_semver(&self) -> (r: Result<SemverVersion, ToSemverError>)
        ensures
            semver_bytes(r) == semver_of(self@),
    ;

    /// Converts as well as can be, never failing; see [`lossy_semver_of`].
    fn to_semver_lossy(&self) -> (r: SemverVersion)
        ensures
            r@ == lossy_semver_of(self@),
    ;
}

fn semver_from_bytes(bytes: Vec<u8>) -> (r: SemverVersion)
    requires
        ascii_bytes(bytes@),
    ensures
        r@ == bytes@,
{
    proof {
        lemma_ascii_valid_utf8(bytes@);
    }
    let text = string_from_utf8(bytes);
    assert(ascii_bytes(encode_utf8(text@)));
    SemverVersion(text)
}

impl ToSemver for Version {
    /// Converts to a semantic version. This works where the version has at
    /// most three fields, and no post-release or epoch other than `0`:
    /// `1.2` gives `1.2.0`, `1.2.4~rc1` gives `1.2.4-rc.1`.
    fn to_semver(&self) -> (r: Result<SemverVersion, ToSemverError>) {
        match convert(self.as_str().as_bytes()) {
            Ok(bytes) => Ok(semver_from_bytes(bytes)),
            Err(e) => Err(e),
        }
    }

    /// Converts to a semantic version, folding into build metadata what
    /// does not fit: `1.2` gives `1.2.0`, `1.2.3.1` gives `1.2.3+1`,
    /// `1.0-1ubuntu2` gives `1.0.0+1ubuntu2`, `2:1.2.2` gives `1.2.2`.
    fn to_semver_lossy(&self) -> (r: SemverVersion) {
        let s = self.as_str().as_bytes();
        let end = position(s, 0, false);
        proof {
            lemma_run_len_at(s@, end as int, true);
        }
        let t = if end < s.len() && s[end] == COLON {
            &s[end + 1..s.len()]
        } else {
            s
        };
        assert(t@ =~= without_epoch(self@));
        let mut k = t.len();
        let mut base: Vec<u8> = vec![ZERO, DOT, ZERO, DOT, ZERO];
        while k > 0
            invariant_except_break
                base@ == seq![ZERO, DOT, ZERO, DOT, ZERO],
            invariant
                t@ == without_epoch(self@),
                k <= t@.len(),
                semver_prefix_len(t@, t@.len()) == semver_prefix_len(t@, k as nat),
            ensures
                k == 0 ==> base@ == seq![ZERO, DOT, ZERO, DOT, ZERO],
                k > 0 ==> semver_of(t@.take(k as int)) == Ok::<Seq<u8>, ToSemverError>(base@)
                    && ascii_bytes(base@),
            decreases k,
        {
            let prefix = &t[0..k];
            assert(prefix@ =~= t@.take(k as int));
            match convert(prefix) {
                Ok(bytes) => {
                    base = bytes;
                    break;
                },
                Err(_) => {},
            }
            k = k - 1;
        }
        let ghost base_spec = if k == 0 {
            seq![ZERO, DOT, ZERO, DOT, ZERO]
        } else {
            semver_of(t@.take(k as int))->Ok_0
        };
        assert(k == semver_prefix_len(t@, t@.len()));
        assert(base@ == base_spec);
        assert(ascii_bytes(base@));
        let rest = &t[k..t.len()];
        assert(rest@ =~= t@.skip(k as int));
        let mut metadata: Vec<u8> = Vec::new();
        assert(ascii_bytes(metadata@));
        push_metadata(&mut metadata, rest);
        assert(metadata@ =~= metadata_scan(rest@).0);
        if metadata.len() > 0 {
            base.push(PLUS);
            let ghost with_plus = base@;
            let mut j: usize = 0;
            while j < metadata.len()
                invariant
                    j <= metadata@.len(),
                    ascii_bytes(metadata@),
                    ascii_bytes(base@),
                    base@ =~= with_plus + metadata@.take(j as int),
                decreases metadata@.len() - j,
            {
                base.push(metadata[j]);
                j = j + 1;
                assert(metadata@.take(j as int) =~= metadata@.take(j - 1).push(metadata@[j - 1]));
            }
            assert(metadata@.take(j as int) =~= metadata@);
        }
        semver_from_bytes(base)
    }
}

impl SemverVersion {
    /// Converts `version`; see [`ToSemver::to_semver`].
    pub fn try_from(version: &Version) -> (r: Result<SemverVersion, ToSemverError>)
        ensures
            semver_bytes(r) == semver_of(version@),
    {
        version.to_semver()
    }
}

impl Version {
    /// The version that a semantic version stands for: its text, with each
    /// `-` rewritten as `~`.
    pub fn from(semver: SemverVersion) -> (r: Version)
        ensures
            r@ == dashes_to_tildes(semver@),
    {
        proof {
            use_type_invariant(&semver);
        }
        let s = semver.as_str().as_bytes();
        let mut out: Vec<u8> = Vec::new();
        let mut i: usize = 0;
        while i < s.len()
            invariant
                s@ == semver@,
                ascii_bytes(s@),
                i <= s@.len(),
                out@ =~= dashes_to_tildes(s@.take(i as int)),
                ascii_bytes(out@),
            decreases s@.len() - i,
        {
            let c = s[i];
            if c == DASH {
                out.push(TILDE);
            } else {
                out.push(c);
            }
            i = i + 1;
        }
        assert(s@.take(i as int) =~= s@);
        proof {
            lemma_ascii_valid_utf8(out@);
        }
        Version::new_unchecked(string_from_utf8(out))
    }
}

proof fn lemma_scan_push(x: Seq<u8>, c: u8)
    ensures
        scan(x.push(c)) == match scan(x) {
            Ok(st) => scan_step(st, c),
            Err(e) => Err(e),
        },
{
    assert(x.push(c).drop_last() =~= x);
}

proof fn lemma_tildes_concat(a: Seq<u8>, b: Seq<u8>)
    ensures
        dashes_to_tildes(a + b) =~= dashes_to_tildes(a) + dashes_to_tildes(b),
{
}

/// Reading the `.0` of the missing fields from a state inside a number.
proof fn lemma_scan_zero_fields(x: Seq<u8>, st: Scan)
    requires
        scan(x) == Ok::<Scan, ToSemverError>(st),
        st.num != NumChecker::Start,
        st.field <= 3,
    ensures
        scan(x + zero_fields(st.field)) == Ok::<Scan, ToSemverError>(
            Scan {
                out: st.out + zero_fields(st.field),
                field: if st.field < 2 {
                    2
                } else {
                    st.field
                },
                num: if st.field < 2 {
                    NumChecker::Zero
                } else {
                    st.num
                },
                ..st
            },
        ),
    decreases 2 - st.field,
{
    if st.field >= 2 {
        assert(x + zero_fields(st.field) =~= x);
        assert(st.out + zero_fields(st.field) =~= st.out);
    } else {
        let y = x.push(DOT).push(ZERO);
        lemma_scan_push(x, DOT);
        lemma_scan_push(x.push(DOT), ZERO);
        let next = Scan {
            out: st.out.push(DOT).push(ZERO),
            field: st.field + 1,
            num: NumChecker::Zero,
            ..st
        };
        assert(scan(y) == Ok::<Scan, ToSemverError>(next));
        lemma_scan_zero_fields(y, next);
        assert(x + zero_fields(st.field) =~= y + zero_fields(st.field + 1));
        assert(st.out + zero_fields(st.field) =~= next.out + zero_fields(st.field + 1));
    }
}

proof fn lemma_zero_fields_no_dash(field: nat)
    ensures
        dashes_to_tildes(zero_fields(field)) == zero_fields(field),
    decreases 2 - field,
{
    if field < 2 {
        lemma_zero_fields_no_dash(field + 1);
        lemma_tildes_concat(seq![DOT, ZERO], zero_fields(field + 1));
        assert(dashes_to_tildes(seq![DOT, ZERO]) =~= seq![DOT, ZERO]);
    } else {
        assert(dashes_to_tildes(zero_fields(field)) =~= zero_fields(field));
    }
}

/// What the scan of `p` wrote so far, read back with `~` for `-`, scans to
/// the same text, field and classification.
proof fn lemma_scan_tildes(p: Seq<u8>)
    ensures
        scan(p) matches Ok(st) ==> (scan(dashes_to_tildes(st.out)) matches Ok(back) && back.out
            == st.out && back.num == st.num && back.field == st.field),
    decreases p.len(),
{
    if p.len() == 0 {
        assert(dashes_to_tildes(Seq::<u8>::empty()) =~= Seq::<u8>::empty());
    } else {
        let x = p.drop_last();
        let c = p.last();
        lemma_scan_tildes(x);
        lemma_scan_ascii(x);
        if let Ok(st) = scan(x) {
            if let Ok(st2) = scan_step(st, c) {
                let w0 = dashes_to_tildes(st.out);
                let back = scan(w0)->Ok_0;
                assert(scan(w0) == Ok::<Scan, ToSemverError>(back));
                if is_digit(c) {
                    if st.num == NumChecker::NotNum {
                        lemma_scan_push(w0, DOT);
                        lemma_scan_push(w0.push(DOT), c);
                        lemma_tildes_concat(st.out, seq![DOT, c]);
                        assert(st2.out =~= st.out + seq![DOT, c]);
                        assert(dashes_to_tildes(seq![DOT, c]) =~= seq![DOT, c]);
                        assert(w0.push(DOT).push(c) =~= w0 + seq![DOT, c]);
                    } else {
                        lemma_scan_push(w0, c);
                        lemma_tildes_concat(st.out, seq![c]);
                        assert(st2.out =~= st.out + seq![c]);
                        assert(dashes_to_tildes(seq![c]) =~= seq![c]);
                        assert(w0.push(c) =~= w0 + seq![c]);
                    }
                } else if c == DOT {
                    lemma_scan_push(w0, DOT);
                    lemma_tildes_concat(st.out, seq![DOT]);
                    assert(st2.out =~= st.out + seq![DOT]);
                    assert(dashes_to_tildes(seq![DOT]) =~= seq![DOT]);
                    assert(w0.push(DOT) =~= w0 + seq![DOT]);
                } else if c == TILDE {
                    lemma_scan_zero_fields(w0, back);
                    let w1 = w0 + zero_fields(st.field);
                    lemma_scan_push(w1, TILDE);
                    lemma_tildes_concat(st.out + zero_fields(st.field), seq![DASH]);
                    lemma_tildes_concat(st.out, zero_fields(st.field));
                    lemma_zero_fields_no_dash(st.field);
                    assert(dashes_to_tildes(seq![DASH]) =~= seq![TILDE]);
                    assert(w1.push(TILDE) =~= w1 + seq![TILDE]);
                    let f2: nat = if st.field < 2 {
                        2
                    } else {
                        st.field
                    };
                    assert(zero_fields(f2) =~= Seq::<u8>::empty());
                    assert(st.out + zero_fields(st.field) + zero_fields(f2) + seq![DASH]
                        =~= st.out + zero_fields(st.field) + seq![DASH]);
                } else if c == COLON && st.field == 0 && !st.epoch_read && st.out.len() > 0 {
                    assert(dashes_to_tildes(st2.out) =~= Seq::<u8>::empty());
                } else {
                    if st.num.is_numeric() {
                        lemma_scan_push(w0, DOT);
                        lemma_scan_push(w0.push(DOT), c);
                        lemma_tildes_concat(st.out, seq![DOT, c]);
                        assert(st2.out =~= st.out + seq![DOT, c]);
                        assert(dashes_to_tildes(seq![DOT, c]) =~= seq![DOT, c]);
                        assert(w0.push(DOT).push(c) =~= w0 + seq![DOT, c]);
                    } else {
                        lemma_scan_push(w0, c);
                        lemma_tildes_concat(st.out, seq![c]);
                        assert(st2.out =~= st.out + seq![c]);
                        assert(dashes_to_tildes(seq![c]) =~= seq![c]);
                        assert(w0.push(c) =~= w0 + seq![c]);
                    }
                }
            }
        }
    }
}

/// A semantic version that the conversion gave, read back as a version with
/// `~` for each `-`, converts to itself again.
pub proof fn semver_round_trip(version: Version)
    requires
        semver_of(version@) is Ok,
    ensures
        semver_of(dashes_to_tildes(semver_of(version@)->Ok_0)) == semver_of(version@),
{
    let v = version@;
    lemma_scan_tildes(v);
    lemma_scan_ascii(v);
    let st = scan(v)->Ok_0;
    let w0 = dashes_to_tildes(st.out);
    let back = scan(w0)->Ok_0;
    assert(scan(w0) == Ok::<Scan, ToSemverError>(back));
    lemma_scan_zero_fields(w0, back);
    lemma_tildes_concat(st.out, zero_fields(st.field));
    lemma_zero_fields_no_dash(st.field);
    let f2: nat = if st.field < 2 {
        2
    } else {
        st.field
    };
    assert(zero_fields(f2) =~= Seq::<u8>::empty());
    assert(st.out + zero_fields(st.field) + zero_fields(f2) =~= st.out + zero_fields(st.field));
}

} // verus!
