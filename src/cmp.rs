//! The order on version strings.
//!
//! A version is read as alternating runs: a run of non-digits, then a run of
//! digits, and so on. Runs of non-digits are compared byte by byte through
//! their rank (see [`rank`]), runs of digits by their value.
use std::cmp::Ordering;

use vstd::prelude::*;
use vstd::string::StringSliceAdditionalSpecFns;

use crate::utils::{is_digit, COLON, DASH, DOT, PLUS, TILDE};

verus! {

/// Rank of a byte inside a run of non-digits: `~` first, then the letters
/// `a` to `z`, then `+`, `-`, the digits `0` to `9` and `.`. Every other byte
/// has the rank 255, which marks it as outside the alphabet of versions.
pub open spec fn rank(c: u8) -> u8 {
    if c == TILDE {
        0
    } else if 0x61 <= c <= 0x7a {
        (c - 0x60) as u8
    } else if c == PLUS {
        27
    } else if c == DASH {
        28
    } else if is_digit(c) {
        (c - 0x30 + 29) as u8
    } else if c == DOT {
        39
    } else {
        255
    }
}

/// Rank of `c`, as [`rank`] gives it.
pub fn char_order(c: u8) -> (r: u8)
    ensures
        r == rank(c),
{
    if c == TILDE {
        0
    } else if 0x61 <= c && c <= 0x7a {
        c - 0x60
    } else if c == PLUS {
        27
    } else if c == DASH {
        28
    } else if 0x30 <= c && c <= 0x39 {
        c - 0x30 + 29
    } else if c == DOT {
        39
    } else {
        255
    }
}

/// Order of two runs of non-digits. The first differing rank decides. Where
/// one run is a prefix of the other, the end of the shorter one sorts after
/// any continuation but one that starts with `~`.
pub open spec fn alpha_order(a: Seq<u8>, b: Seq<u8>) -> Ordering
    decreases a.len(),
{
    if a.len() == 0 {
        if b.len() == 0 {
            Ordering::Equal
        } else if b[0] == TILDE {
            Ordering::Greater
        } else {
            Ordering::Less
        }
    } else if b.len() == 0 {
        if a[0] == TILDE {
            Ordering::Less
        } else {
            Ordering::Greater
        }
    } else if rank(a[0]) < rank(b[0]) {
        Ordering::Less
    } else if rank(a[0]) > rank(b[0]) {
        Ordering::Greater
    } else {
        alpha_order(a.drop_first(), b.drop_first())
    }
}

/// Length of the run of non-digits that starts `s`.
pub open spec fn alpha_len(s: Seq<u8>) -> nat
    decreases s.len(),
{
    if s.len() == 0 || is_digit(s[0]) {
        0
    } else {
        1 + alpha_len(s.drop_first())
    }
}

/// Length of the run of digits that starts `s`.
pub open spec fn digit_len(s: Seq<u8>) -> nat
    decreases s.len(),
{
    if s.len() == 0 || !is_digit(s[0]) {
        0
    } else {
        1 + digit_len(s.drop_first())
    }
}

/// Value of a sequence of digits, written in base ten.
pub open spec fn digits_value(s: Seq<u8>) -> nat
    decreases s.len(),
{
    if s.len() == 0 {
        0
    } else {
        digits_value(s.drop_last()) * 10 + (s.last() - 0x30) as nat
    }
}

/// Value of a run of digits as the order reads it: an empty run, and one
/// whose value does not fit in a `u32`, count as 0.
pub open spec fn run_value(s: Seq<u8>) -> nat {
    if digits_value(s) <= u32::MAX {
        digits_value(s)
    } else {
        0
    }
}

/// Order of two natural numbers.
pub open spec fn num_order(x: nat, y: nat) -> Ordering {
    if x < y {
        Ordering::Less
    } else if x > y {
        Ordering::Greater
    } else {
        Ordering::Equal
    }
}

/// What is left of `s` once its leading run of non-digits and the run of
/// digits after it are read.
pub open spec fn after_runs(s: Seq<u8>) -> Seq<u8> {
    let rest = s.skip(alpha_len(s) as int);
    rest.skip(digit_len(rest) as int)
}

/// The run of digits that follows the leading run of non-digits of `s`.
pub open spec fn num_run(s: Seq<u8>) -> Seq<u8> {
    let rest = s.skip(alpha_len(s) as int);
    rest.take(digit_len(rest) as int)
}

/// Order of two version strings: runs of non-digits and runs of digits are
/// compared in turn, from the start, until one pair differs or both strings
/// are read.
pub open spec fn version_order(a: Seq<u8>, b: Seq<u8>) -> Ordering
    decreases a.len() + b.len(),
{
    if a.len() == 0 && b.len() == 0 {
        Ordering::Equal
    } else {
        let o = alpha_order(a.take(alpha_len(a) as int), b.take(alpha_len(b) as int));
        if o != Ordering::Equal {
            o
        } else {
            let n = num_order(run_value(num_run(a)), run_value(num_run(b)));
            if n != Ordering::Equal {
                n
            } else {
                proof {
                    lemma_after_runs_shorter(a);
                    lemma_after_runs_shorter(b);
                }
                version_order(after_runs(a), after_runs(b))
            }
        }
    }
}

pub proof fn lemma_run_lens(s: Seq<u8>)
    ensures
        alpha_len(s) <= s.len(),
        digit_len(s) <= s.len(),
        s.len() > 0 && alpha_len(s) == 0 ==> digit_len(s) > 0,
    decreases s.len(),
{
    if s.len() > 0 {
        lemma_run_lens(s.drop_first());
    }
}

pub proof fn lemma_after_runs_shorter(s: Seq<u8>)
    ensures
        after_runs(s).len() <= s.len(),
        s.len() > 0 ==> after_runs(s).len() < s.len(),
{
    lemma_run_lens(s);
    lemma_run_lens(s.skip(alpha_len(s) as int));
}

/// One step of [`version_order`]. It holds of two empty strings as well.
proof fn lemma_version_order_step(a: Seq<u8>, b: Seq<u8>)
    ensures
        version_order(a, b) == ({
            let o = alpha_order(a.take(alpha_len(a) as int), b.take(alpha_len(b) as int));
            let n = num_order(run_value(num_run(a)), run_value(num_run(b)));
            if o != Ordering::Equal {
                o
            } else if n != Ordering::Equal {
                n
            } else {
                version_order(after_runs(a), after_runs(b))
            }
        }),
{
    if a.len() == 0 && b.len() == 0 {
        assert(after_runs(a) =~= a);
        assert(after_runs(b) =~= b);
        assert(num_run(a) =~= Seq::<u8>::empty());
        assert(num_run(b) =~= Seq::<u8>::empty());
    }
}

/// `k` is the length of the leading run of non-digits of `s` (of digits,
/// where `digit` holds) when the bytes before `k` are of the run and the one at
/// `k`, if any, is not.
pub(crate) proof fn lemma_run_len_at(s: Seq<u8>, k: int, digit: bool)
    requires
        0 <= k <= s.len(),
        forall|j: int| 0 <= j < k ==> is_digit(#[trigger] s[j]) == digit,
        k < s.len() ==> is_digit(s[k]) != digit,
    ensures
        digit ==> digit_len(s) == k,
        !digit ==> alpha_len(s) == k,
    decreases k,
{
    if k > 0 {
        let t = s.drop_first();
        assert forall|j: int| 0 <= j < k - 1 implies is_digit(#[trigger] t[j]) == digit by {
            assert(t[j] == s[j + 1]);
        }
        lemma_run_len_at(t, k - 1, digit);
    }
}

/// Compares two runs of non-digits; see [`alpha_order`].
pub fn compare_alpha(a: &[u8], b: &[u8]) -> (r: Ordering)
    ensures
        r == alpha_order(a@, b@),
{
    let n = if a.len() < b.len() {
        a.len()
    } else {
        b.len()
    };
    let mut i: usize = 0;
    proof {
        assert(a@.skip(0) =~= a@);
        assert(b@.skip(0) =~= b@);
    }
    while i < n
        invariant
            n <= a@.len(),
            n <= b@.len(),
            n == a@.len() || n == b@.len(),
            i <= n,
            alpha_order(a@, b@) == alpha_order(a@.skip(i as int), b@.skip(i as int)),
        decreases n - i,
    {
        let pa = char_order(a[i]);
        let pb = char_order(b[i]);
        proof {
            let (sa, sb) = (a@.skip(i as int), b@.skip(i as int));
            assert(sa[0] == a@[i as int] && sb[0] == b@[i as int]);
            assert(sa.drop_first() =~= a@.skip(i + 1));
            assert(sb.drop_first() =~= b@.skip(i + 1));
        }
        if pa < pb {
            return Ordering::Less;
        } else if pa > pb {
            return Ordering::Greater;
        }
        i = i + 1;
    }
    proof {
        assert(a@.skip(i as int).len() == a@.len() - i);
        assert(b@.skip(i as int).len() == b@.len() - i);
        if a@.len() > i {
            assert(a@.skip(i as int)[0] == a@[i as int]);
        }
        if b@.len() > i {
            assert(b@.skip(i as int)[0] == b@[i as int]);
        }
    }
    if a.len() == b.len() {
        Ordering::Equal
    } else if a.len() < b.len() {
        if b[a.len()] == TILDE {
            Ordering::Greater
        } else {
            Ordering::Less
        }
    } else {
        if a[b.len()] == TILDE {
            Ordering::Less
        } else {
            Ordering::Greater
        }
    }
}

/// The first index from `start` on whose byte is a digit (or, where `digit`
/// is false, is not), or the length of `slice` where there is none.
pub(crate) fn position(slice: &[u8], start: usize, digit: bool) -> (r: usize)
    requires
        start <= slice@.len(),
    ensures
        start <= r <= slice@.len(),
        forall|j: int| start <= j < r ==> is_digit(#[trigger] slice@[j]) != digit,
        r < slice@.len() ==> is_digit(slice@[r as int]) == digit,
{
    let mut i = start;
    while i < slice.len()
        invariant
            start <= i <= slice@.len(),
            forall|j: int| start <= j < i ==> is_digit(#[trigger] slice@[j]) != digit,
        decreases slice@.len() - i,
    {
        let c = slice[i];
        if (0x30 <= c && c <= 0x39) == digit {
            return i;
        }
        i = i + 1;
    }
    i
}

proof fn lemma_digits_value_push(s: Seq<u8>, c: u8)
    ensures
        digits_value(s.push(c)) == digits_value(s) * 10 + (c - 0x30) as nat,
{
    assert(s.push(c).drop_last() =~= s);
}

/// Value of a run of digits; 0 where it does not fit in a `u32`.
fn parse_int(slice: &[u8]) -> (r: u32)
    requires
        forall|j: int| 0 <= j < slice@.len() ==> is_digit(#[trigger] slice@[j]),
    ensures
        r == run_value(slice@),
{
    let mut v: u32 = 0;
    let mut i: usize = 0;
    while i < slice.len()
        invariant
            i <= slice@.len(),
            forall|j: int| 0 <= j < slice@.len() ==> is_digit(#[trigger] slice@[j]),
            v == digits_value(slice@.take(i as int)),
        decreases slice@.len() - i,
    {
        proof {
            assert(slice@.take(i + 1) =~= slice@.take(i as int).push(slice@[i as int]));
            lemma_digits_value_push(slice@.take(i as int), slice@[i as int]);
            assert(is_digit(slice@[i as int]));
        }
        let d = (slice[i] - 0x30) as u32;
        if v > (u32::MAX - d) / 10 {
            proof {
                lemma_digits_value_mono(slice@, i as int + 1);
            }
            return 0;
        }
        v = v * 10 + d;
        i = i + 1;
    }
    proof {
        assert(slice@.take(i as int) =~= slice@);
    }
    v
}

/// A longer prefix of a run of digits is worth at least as much.
proof fn lemma_digits_value_mono(s: Seq<u8>, k: int)
    requires
        0 <= k <= s.len(),
        forall|j: int| 0 <= j < s.len() ==> is_digit(#[trigger] s[j]),
    ensures
        digits_value(s.take(k)) <= digits_value(s),
    decreases s.len() - k,
{
    if k < s.len() {
        lemma_digits_value_mono(s, k + 1);
        assert(is_digit(s[k]));
        assert(s.take(k + 1) =~= s.take(k).push(s[k]));
        lemma_digits_value_push(s.take(k), s[k]);
    } else {
        assert(s.take(k) =~= s);
    }
}

/// The runs that start at `pos` in `s` end at `end_alpha` and `end_num`.
proof fn lemma_runs_at(s: Seq<u8>, pos: int, end_alpha: int, end_num: int)
    requires
        0 <= pos <= end_alpha <= end_num <= s.len(),
        forall|j: int| pos <= j < end_alpha ==> !is_digit(#[trigger] s[j]),
        end_alpha < s.len() ==> is_digit(s[end_alpha]),
        forall|j: int| end_alpha <= j < end_num ==> is_digit(#[trigger] s[j]),
        end_num < s.len() ==> !is_digit(s[end_num]),
    ensures
        s.subrange(pos, end_alpha) == s.skip(pos).take(alpha_len(s.skip(pos)) as int),
        s.subrange(end_alpha, end_num) == num_run(s.skip(pos)),
        after_runs(s.skip(pos)) == s.skip(end_num),
{
    let t = s.skip(pos);
    assert forall|j: int| 0 <= j < end_alpha - pos implies !is_digit(#[trigger] t[j]) by {
        assert(t[j] == s[pos + j]);
    }
    lemma_run_len_at(t, end_alpha - pos, false);
    let r = t.skip(alpha_len(t) as int);
    assert(r =~= s.skip(end_alpha));
    assert forall|j: int| 0 <= j < end_num - end_alpha implies is_digit(#[trigger] r[j]) by {
        assert(r[j] == s[end_alpha + j]);
    }
    lemma_run_len_at(r, end_num - end_alpha, true);
    assert(s.subrange(pos, end_alpha) =~= t.take(alpha_len(t) as int));
    assert(s.subrange(end_alpha, end_num) =~= num_run(t));
    assert(after_runs(t) =~= s.skip(end_num));
}

/// The epoch of a version's text: the value of the digits before a leading
/// `:`, as [`run_value`] reads them; 0 where there is no such `:`.
pub open spec fn epoch_of(s: Seq<u8>) -> nat {
    let n = digit_len(s);
    if n < s.len() && s[n as int] == COLON {
        run_value(s.take(n as int))
    } else {
        0
    }
}

/// Reads the epoch of a version's text; see [`epoch_of`].
pub(crate) fn leading_epoch(s: &[u8]) -> (r: u32)
    ensures
        r == epoch_of(s@),
{
    let end = position(s, 0, false);
    proof {
        lemma_run_len_at(s@, end as int, true);
    }
    if end < s.len() && s[end] == COLON {
        let digits = &s[0..end];
        assert(digits@ == s@.take(end as int));
        parse_int(digits)
    } else {
        0
    }
}

/// Compares two version strings byte by byte; see [`version_order`].
pub fn compare_versions(a: &str, b: &str) -> (r: Ordering)
    ensures
        r == version_order(a.spec_bytes(), b.spec_bytes()),
{
    let x = a.as_bytes();
    let y = b.as_bytes();
    let mut pos_a: usize = 0;
    let mut pos_b: usize = 0;
    proof {
        assert(x@.skip(0) =~= x@);
        assert(y@.skip(0) =~= y@);
    }
    while pos_a < x.len() || pos_b < y.len()
        invariant
            x@ == a.spec_bytes(),
            y@ == b.spec_bytes(),
            pos_a <= x@.len(),
            pos_b <= y@.len(),
            version_order(x@, y@) == version_order(x@.skip(pos_a as int), y@.skip(pos_b as int)),
        decreases x@.len() + y@.len() - pos_a - pos_b,
    {
        let ghost rest_a = x@.skip(pos_a as int);
        let ghost rest_b = y@.skip(pos_b as int);
        proof {
            lemma_version_order_step(rest_a, rest_b);
        }
        let end_alpha_a = position(x, pos_a, true);
        let end_alpha_b = position(y, pos_b, true);
        let end_num_a = position(x, end_alpha_a, false);
        let end_num_b = position(y, end_alpha_b, false);
        proof {
            lemma_runs_at(x@, pos_a as int, end_alpha_a as int, end_num_a as int);
            lemma_runs_at(y@, pos_b as int, end_alpha_b as int, end_num_b as int);
        }
        let run_a = &x[pos_a..end_alpha_a];
        let run_b = &y[pos_b..end_alpha_b];
        let o = compare_alpha(run_a, run_b);
        assert(run_a@ == rest_a.take(alpha_len(rest_a) as int));
        assert(run_b@ == rest_b.take(alpha_len(rest_b) as int));
        match o {
            Ordering::Equal => {},
            _ => return o,
        }
        let digits_a = &x[end_alpha_a..end_num_a];
        let digits_b = &y[end_alpha_b..end_num_b];
        assert(digits_a@ == num_run(rest_a) && digits_b@ == num_run(rest_b));
        let num_a = parse_int(digits_a);
        let num_b = parse_int(digits_b);
        assert(num_a == run_value(num_run(rest_a)) && num_b == run_value(num_run(rest_b)));
        if num_a < num_b {
            return Ordering::Less;
        } else if num_a > num_b {
            return Ordering::Greater;
        }
        pos_a = end_num_a;
        pos_b = end_num_b;
    }
    proof {
        assert(x@.skip(pos_a as int).len() == 0);
        assert(y@.skip(pos_b as int).len() == 0);
    }
    Ordering::Equal
}

/// The order read the other way round.
pub open spec fn reversed(o: Ordering) -> Ordering {
    match o {
        Ordering::Less => Ordering::Greater,
        Ordering::Equal => Ordering::Equal,
        Ordering::Greater => Ordering::Less,
    }
}

proof fn lemma_rank_zero(c: u8)
    ensures
        rank(c) == 0 <==> c == TILDE,
{
}

/// Swapping the runs reverses their order.
pub proof fn lemma_alpha_order_antisymmetric(a: Seq<u8>, b: Seq<u8>)
    ensures
        alpha_order(b, a) == reversed(alpha_order(a, b)),
    decreases a.len(),
{
    if a.len() > 0 && b.len() > 0 {
        lemma_alpha_order_antisymmetric(a.drop_first(), b.drop_first());
    }
}

/// Runs that compare equal compare alike with any third run.
pub proof fn lemma_alpha_order_equal(a: Seq<u8>, b: Seq<u8>, c: Seq<u8>)
    requires
        alpha_order(a, b) == Ordering::Equal,
    ensures
        alpha_order(a, c) == alpha_order(b, c),
    decreases a.len(),
{
    if a.len() > 0 && b.len() > 0 {
        lemma_rank_zero(a[0]);
        lemma_rank_zero(b[0]);
        if c.len() > 0 {
            lemma_alpha_order_equal(a.drop_first(), b.drop_first(), c.drop_first());
        }
    }
}

/// `Less` between runs is transitive.
pub proof fn lemma_alpha_order_less(a: Seq<u8>, b: Seq<u8>, c: Seq<u8>)
    requires
        alpha_order(a, b) == Ordering::Less,
        alpha_order(b, c) == Ordering::Less,
    ensures
        alpha_order(a, c) == Ordering::Less,
    decreases a.len(),
{
    if a.len() > 0 {
        lemma_rank_zero(a[0]);
    }
    if b.len() > 0 {
        lemma_rank_zero(b[0]);
    }
    if c.len() > 0 {
        lemma_rank_zero(c[0]);
    }
    if a.len() > 0 && b.len() > 0 && c.len() > 0 && rank(a[0]) == rank(b[0]) && rank(b[0])
        == rank(c[0]) {
        lemma_alpha_order_less(a.drop_first(), b.drop_first(), c.drop_first());
    }
}

/// Swapping two version strings reverses their order.
pub proof fn lemma_version_order_antisymmetric(a: Seq<u8>, b: Seq<u8>)
    ensures
        version_order(b, a) == reversed(version_order(a, b)),
    decreases a.len() + b.len(),
{
    if a.len() > 0 || b.len() > 0 {
        lemma_version_order_step(a, b);
        lemma_version_order_step(b, a);
        lemma_alpha_order_antisymmetric(a.take(alpha_len(a) as int), b.take(alpha_len(b) as int));
        lemma_after_runs_shorter(a);
        lemma_after_runs_shorter(b);
        lemma_version_order_antisymmetric(after_runs(a), after_runs(b));
    }
}

/// Version strings that compare equal compare alike with any third one.
pub proof fn lemma_version_order_equal(a: Seq<u8>, b: Seq<u8>, c: Seq<u8>)
    requires
        version_order(a, b) == Ordering::Equal,
    ensures
        version_order(a, c) == version_order(b, c),
    decreases a.len() + b.len() + c.len(),
{
    if a.len() > 0 || b.len() > 0 || c.len() > 0 {
        lemma_version_order_step(a, b);
        lemma_version_order_step(a, c);
        lemma_version_order_step(b, c);
        let (ra, rb, rc) = (
            a.take(alpha_len(a) as int),
            b.take(alpha_len(b) as int),
            c.take(alpha_len(c) as int),
        );
        lemma_alpha_order_equal(ra, rb, rc);
        lemma_after_runs_shorter(a);
        lemma_after_runs_shorter(b);
        lemma_after_runs_shorter(c);
        lemma_version_order_equal(after_runs(a), after_runs(b), after_runs(c));
    } else {
        assert(a =~= b);
    }
}

/// `Less` between version strings is transitive.
pub proof fn lemma_version_order_less(a: Seq<u8>, b: Seq<u8>, c: Seq<u8>)
    requires
        version_order(a, b) == Ordering::Less,
        version_order(b, c) == Ordering::Less,
    ensures
        version_order(a, c) == Ordering::Less,
    decreases a.len() + b.len() + c.len(),
{
    lemma_version_order_step(a, b);
    lemma_version_order_step(a, c);
    lemma_version_order_step(b, c);
    let (ra, rb, rc) = (
        a.take(alpha_len(a) as int),
        b.take(alpha_len(b) as int),
        c.take(alpha_len(c) as int),
    );
    lemma_alpha_order_antisymmetric(ra, rb);
    lemma_alpha_order_antisymmetric(rb, rc);
    lemma_alpha_order_antisymmetric(ra, rc);
    if alpha_order(ra, rb) == Ordering::Equal {
        lemma_alpha_order_equal(ra, rb, rc);
    } else if alpha_order(rb, rc) == Ordering::Equal {
        lemma_alpha_order_equal(rb, rc, ra);
    } else {
        lemma_alpha_order_less(ra, rb, rc);
    }
    if alpha_order(ra, rb) == Ordering::Equal && alpha_order(rb, rc) == Ordering::Equal {
        if run_value(num_run(a)) == run_value(num_run(b)) && run_value(num_run(b)) == run_value(
            num_run(c),
        ) {
            lemma_after_runs_shorter(a);
            lemma_after_runs_shorter(b);
            lemma_after_runs_shorter(c);
            if a.len() > 0 || b.len() > 0 || c.len() > 0 {
                lemma_version_order_less(after_runs(a), after_runs(b), after_runs(c));
            }
        }
    }
}

} // verus!
