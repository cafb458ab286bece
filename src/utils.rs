//! Classification of numeric fields, one byte at a time.
use vstd::prelude::*;

verus! {

/// The byte `0`.
pub const ZERO: u8 = 0x30;

/// The byte `.`.
pub const DOT: u8 = 0x2e;

/// The byte `-`.
pub const DASH: u8 = 0x2d;

/// The byte `~`.
pub const TILDE: u8 = 0x7e;

/// The byte `+`.
pub const PLUS: u8 = 0x2b;

/// The byte `:`.
pub const COLON: u8 = 0x3a;

/// Whether `c` is an ASCII digit.
pub open spec fn is_digit(c: u8) -> bool {
    0x30 <= c <= 0x39
}

/// State of a scan over the bytes of a field: it tells apart a number with a
/// leading zero from other numbers, so that such a zero can be refused.
#[derive(Clone, Copy, Debug, PartialEq, Eq, Structural)]
pub enum NumChecker {
    /// Nothing read since the last reset.
    Start,
    /// The last byte read is not a digit.
    NotNum,
    /// The current number is a lone `0`.
    Zero,
    /// The current number starts with a digit other than `0`.
    OtherNum,
}

impl NumChecker {
    /// The state after reading `c`; `None` where a digit follows a lone `0`.
    pub open spec fn next(self, c: u8) -> Option<NumChecker> {
        match self {
            NumChecker::Start | NumChecker::NotNum => Some(
                if c == 0x30 {
                    NumChecker::Zero
                } else if is_digit(c) {
                    NumChecker::OtherNum
                } else {
                    NumChecker::NotNum
                },
            ),
            NumChecker::Zero => if is_digit(c) {
                None
            } else {
                Some(NumChecker::NotNum)
            },
            NumChecker::OtherNum => Some(
                if is_digit(c) {
                    NumChecker::OtherNum
                } else {
                    NumChecker::NotNum
                },
            ),
        }
    }

    /// The scan stands inside a number.
    pub open spec fn is_numeric(self) -> bool {
        self is Zero || self is OtherNum
    }

    pub fn new() -> (r: NumChecker)
        ensures
            r == NumChecker::Start,
    {
        NumChecker::Start
    }

    pub fn reset(&mut self)
        ensures
            *final(self) == NumChecker::Start,
    {
        *self = NumChecker::Start;
    }

    pub fn numeric(&self) -> (r: bool)
        ensures
            r == self.is_numeric(),
    {
        match *self {
            NumChecker::Start => false,
            NumChecker::NotNum => false,
            NumChecker::Zero => true,
            NumChecker::OtherNum => true,
        }
    }

    /// Reads `c`. Returns `false`, and keeps the state, where `c` is a digit
    /// that follows a lone `0`.
    pub fn check(&mut self, c: u8) -> (r: bool)
        ensures
            r == old(self).next(c) is Some,
            r ==> Some(*final(self)) == old(self).next(c),
            !r ==> *final(self) == *old(self),
    {
        let is_digit = 0x30 <= c && c <= 0x39;
        *self = match *self {
            NumChecker::Start | NumChecker::NotNum => {
                if c == 0x30 {
                    NumChecker::Zero
                } else if is_digit {
                    NumChecker::OtherNum
                } else {
                    NumChecker::NotNum
                }
            },
            NumChecker::Zero => {
                if is_digit {
                    return false;
                } else {
                    NumChecker::NotNum
                }
            },
            NumChecker::OtherNum => {
                if is_digit {
                    NumChecker::OtherNum
                } else {
                    NumChecker::NotNum
                }
            },
        };
        true
    }
}

} // verus!
