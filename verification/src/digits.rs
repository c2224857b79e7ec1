//! The ten decimal digit symbols and their constant-time arithmetic
//! primitives: addition, subtraction, multiplication and division of one
//! digit by another, each returning a result digit together with a
//! carry, borrow, overflow or remainder digit.

use vstd::prelude::*;

verus! {

use crate::MathErrors;

/// One decimal digit: a closed ten-symbol set, so no invalid digit is
/// representable.
#[derive(Clone, Copy, Debug, PartialEq, Eq, Structural)]
pub enum Digits {
    Zero,
    One,
    Two,
    Three,
    Four,
    Five,
    Six,
    Seven,
    Eight,
    Nine,
}

impl Digits {
    /// The numeric value of the digit, as a mathematical integer.
    pub open spec fn as_int(self) -> int {
        match self {
            Digits::Zero => 0,
            Digits::One => 1,
            Digits::Two => 2,
            Digits::Three => 3,
            Digits::Four => 4,
            Digits::Five => 5,
            Digits::Six => 6,
            Digits::Seven => 7,
            Digits::Eight => 8,
            Digits::Nine => 9,
        }
    }

    /// The character that renders the digit.
    pub open spec fn as_char(self) -> char {
        match self {
            Digits::Zero => '0',
            Digits::One => '1',
            Digits::Two => '2',
            Digits::Three => '3',
            Digits::Four => '4',
            Digits::Five => '5',
            Digits::Six => '6',
            Digits::Seven => '7',
            Digits::Eight => '8',
            Digits::Nine => '9',
        }
    }

    /// The numeric value of the digit, as a machine integer.
    pub fn to_usize(self) -> (v: usize)
        ensures
            v == self.as_int(),
    {
        match self {
            Digits::Zero => 0,
            Digits::One => 1,
            Digits::Two => 2,
            Digits::Three => 3,
            Digits::Four => 4,
            Digits::Five => 5,
            Digits::Six => 6,
            Digits::Seven => 7,
            Digits::Eight => 8,
            Digits::Nine => 9,
        }
    }

    /// The character that renders the digit.
    pub fn to_char(self) -> (c: char)
        ensures
            c == self.as_char(),
    {
        match self {
            Digits::Zero => '0',
            Digits::One => '1',
            Digits::Two => '2',
            Digits::Three => '3',
            Digits::Four => '4',
            Digits::Five => '5',
            Digits::Six => '6',
            Digits::Seven => '7',
            Digits::Eight => '8',
            Digits::Nine => '9',
        }
    }

    /// The digit whose value is `v`; the inverse of [`Digits::to_usize`].
    fn from_usize(v: usize) -> (d: Digits)
        requires
            v < 10,
        ensures
            d.as_int() == v,
    {
        if v == 0 {
            Digits::Zero
        } else if v == 1 {
            Digits::One
        } else if v == 2 {
            Digits::Two
        } else if v == 3 {
            Digits::Three
        } else if v == 4 {
            Digits::Four
        } else if v == 5 {
            Digits::Five
        } else if v == 6 {
            Digits::Six
        } else if v == 7 {
            Digits::Seven
        } else if v == 8 {
            Digits::Eight
        } else {
            Digits::Nine
        }
    }

    /// Adds `rhs` to `self`; returns the sum digit and the carry digit.
    ///
    /// The carry is `0` or `1`, and `self + rhs == carry * 10 + sum`.
    pub fn addition(self, rhs: Digits) -> (r: (Digits, Digits))
        ensures
            self.as_int() + rhs.as_int() == r.1.as_int() * 10 + r.0.as_int(),
            r.1.as_int() <= 1,
    {
        let s: usize = self.to_usize() + rhs.to_usize();
        if s >= 10 {
            (Digits::from_usize(s - 10), Digits::One)
        } else {
            (Digits::from_usize(s), Digits::Zero)
        }
    }

    /// Subtracts `rhs` from `self`; returns the difference digit and the
    /// borrow digit.
    ///
    /// The borrow is `0` or `1`, and `self - rhs == difference - borrow * 10`,
    /// so the borrow is `1` exactly when `self < rhs`.
    pub fn subtract(self, rhs: Digits) -> (r: (Digits, Digits))
        ensures
            self.as_int() - rhs.as_int() == r.0.as_int() - r.1.as_int() * 10,
            r.1.as_int() <= 1,
            r.1.as_int() == 1 <==> self.as_int() < rhs.as_int(),
    {
        let a: usize = self.to_usize();
        let b: usize = rhs.to_usize();
        if a >= b {
            (Digits::from_usize(a - b), Digits::Zero)
        } else {
            (Digits::from_usize(a + 10 - b), Digits::One)
        }
    }

    /// Multiplies `self` by `rhs`; returns the ones digit and the tens digit,
    /// with `self * rhs == tens * 10 + ones`.
    pub fn multiply(self, rhs: Digits) -> (r: (Digits, Digits))
        ensures
            self.as_int() * rhs.as_int() == r.1.as_int() * 10 + r.0.as_int(),
    {
        let p: usize = self.to_usize() * rhs.to_usize();
        (Digits::from_usize(p % 10), Digits::from_usize(p / 10))
    }

    /// Divides `self` by `rhs`; returns the quotient digit and the remainder
    /// digit, with `self == quotient * rhs + remainder` and
    /// `remainder < rhs`.
    ///
    /// Fails with [`MathErrors::DivisionByZero`] exactly when `rhs` is the
    /// digit zero.
    pub fn divide(self, rhs: Digits) -> (r: Result<(Digits, Digits), MathErrors>)
        ensures
            r is Err <==> rhs.as_int() == 0,
            r is Err ==> r->Err_0 == MathErrors::DivisionByZero,
            r is Ok ==> {
                let (q, rem) = r->Ok_0;
                &&& self.as_int() == q.as_int() * rhs.as_int() + rem.as_int()
                &&& 0 <= rem.as_int() < rhs.as_int()
            },
    {
        let a: usize = self.to_usize();
        let b: usize = rhs.to_usize();
        if b == 0 {
            Err(MathErrors::DivisionByZero)
        } else {
            Ok((Digits::from_usize(a / b), Digits::from_usize(a % b)))
        }
    }

    /// Adds `rhs` and an incoming carry to `self` in one step; returns the
    /// sum digit and the outgoing carry digit.
    ///
    /// The incoming carry must be `0` or `1`; the outgoing carry is `0` or
    /// `1`, and `self + rhs + carry == carry_out * 10 + sum`.  This is the
    /// step used for carry propagation across a digit run.
    pub fn fused_addition(self, rhs: Digits, carry: Digits) -> (r: (Digits, Digits))
        requires
            carry.as_int() <= 1,
        ensures
            self.as_int() + rhs.as_int() + carry.as_int() == r.1.as_int() * 10 + r.0.as_int(),
            r.1.as_int() <= 1,
    {
        let s: usize = self.to_usize() + rhs.to_usize() + carry.to_usize();
        if s >= 10 {
            (Digits::from_usize(s - 10), Digits::One)
        } else {
            (Digits::from_usize(s), Digits::Zero)
        }
    }

    /// The nine's complement of `d`: the digit whose value is `9 - d`.
    pub fn complement(d: Digits) -> (r: Digits)
        ensures
            r.as_int() == 9 - d.as_int(),
    {
        Digits::from_usize(9 - d.to_usize())
    }
}

/// Builds the digits of `v` in reverse order.
pub(crate) fn reversed(v: &Vec<Digits>) -> (r: Vec<Digits>)
    ensures
        r@ == v@.reverse(),
{
    let mut r: Vec<Digits> = Vec::new();
    let mut i: usize = v.len();
    while i > 0
        invariant
            i <= v@.len(),
            r@.len() == v@.len() - i,
            forall|t: int| 0 <= t < r@.len() ==> r@[t] == v@[v@.len() - 1 - t],
        decreases i,
    {
        i -= 1;
        let d = v[i];
        r.push(d);
    }
    proof {
        assert(r@ =~= v@.reverse());
    }
    r
}

/// The digit standing in the ones place of `x`.
pub(crate) fn digit_of_remainder(x: u128) -> (d: Digits)
    ensures
        d.as_int() == x as int % 10,
{
    let r = x % 10;
    Digits::from_usize(r as usize)
}

/// Copies a digit run.
pub(crate) fn copy_digits(v: &Vec<Digits>) -> (r: Vec<Digits>)
    ensures
        r@ == v@,
{
    let mut r: Vec<Digits> = Vec::new();
    let mut i: usize = 0;
    while i < v.len()
        invariant
            i <= v@.len(),
            r@ =~= v@.take(i as int),
        decreases v@.len() - i,
    {
        let d = v[i];
        r.push(d);
        i += 1;
    }
    proof {
        assert(r@ =~= v@);
    }
    r
}

} // verus!
