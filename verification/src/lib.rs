//! An arbitrary-precision signed decimal number type built from individual
//! decimal digits.
//!
//! A [`BigNumber`] keeps an integer digit run and a fractional digit run
//! (both most-significant digit first) together with a [`Sign`].  Digit-level
//! arithmetic lives in [`digits`], the place-value alignment of two runs in
//! [`iterators`], and the composite engine (addition, subtraction, ordering)
//! on `BigNumber` itself.

use vstd::prelude::*;

pub mod arith;
pub mod digits;
pub mod iterators;
pub mod laws;
pub mod magnitude;
pub mod text;

pub use digits::Digits;
pub use iterators::DecimalsByAscendingPower;
pub use iterators::DecimalsByDescendingPower;
pub use iterators::IntegersByAscendingPower;
pub use iterators::IntegersByDescendingPower;
pub use text::matches_grammar;

verus! {

use crate::magnitude::pad_back;
use crate::magnitude::pow10;
use crate::magnitude::seq_val;
use crate::magnitude::lemma_pow10_pos;
use crate::magnitude::lemma_seq_val_bounds;
use crate::magnitude::lemma_seq_val_singleton;
use crate::magnitude::lemma_seq_val_split;
use crate::magnitude::lemma_seq_val_zero_iff;
use crate::magnitude::lemma_mag_rescale;
use crate::magnitude::lemma_neg_mul;

/// The two failure modes of the library: dividing a digit by zero, and a
/// string that does not match the accepted number grammar.
#[derive(Clone, Copy, Debug, PartialEq, Eq, Structural)]
pub enum MathErrors {
    DivisionByZero,
    ParseError,
}

/// The sign of a [`BigNumber`].  Positive is the identity sign; a
/// normalized zero always carries it.
#[derive(Clone, Copy, Debug, PartialEq, Eq, Structural)]
pub enum Sign {
    Negative,
    Positive,
}

impl Sign {
    /// The other sign.
    pub open spec fn opposite(self) -> Sign {
        match self {
            Sign::Negative => Sign::Positive,
            Sign::Positive => Sign::Negative,
        }
    }

    pub fn is_negative(self) -> (r: bool)
        ensures
            r == (self is Negative),
    {
        self == Sign::Negative
    }

    pub fn is_positive(self) -> (r: bool)
        ensures
            r == (self is Positive),
    {
        self == Sign::Positive
    }

    /// Flips the sign.
    pub fn flip(self) -> (r: Sign)
        ensures
            r == self.opposite(),
    {
        match self {
            Sign::Negative => Sign::Positive,
            Sign::Positive => Sign::Negative,
        }
    }
}

/// An arbitrary-precision signed decimal number.
///
/// `integer` holds the digits before the decimal point, most-significant
/// digit first; `decimal` holds the digits after the decimal point,
/// most-significant fractional digit first.  The value denoted is
/// `sign * (seq_val(integer) + seq_val(decimal) / 10^decimal.len())`;
/// the spec functions below state this over integers by scaling everything
/// by a power of ten.
#[derive(Clone, Debug, PartialEq)]
pub struct BigNumber {
    pub integer: Vec<Digits>,
    pub decimal: Vec<Digits>,
    pub sign: Sign,
}

impl BigNumber {
    /// How many fractional digits the number carries.
    pub open spec fn scale(self) -> nat {
        self.decimal@.len()
    }

    /// The magnitude of the number, scaled by `10^scale()` so that it is an
    /// integer.
    pub open spec fn mag(self) -> int {
        seq_val(self.integer@) * pow10(self.scale()) + seq_val(self.decimal@)
    }

    /// The signed value of the number, scaled by `10^scale()`.
    pub open spec fn signed(self) -> int {
        if self.sign is Negative {
            -self.mag()
        } else {
            self.mag()
        }
    }

    /// The magnitude of the number, scaled by `10^k`; defined for any scale
    /// `k` at least as fine as the number's own.
    pub open spec fn mag_at(self, k: nat) -> int
        recommends
            k >= self.scale(),
    {
        self.mag() * pow10((k - self.scale()) as nat)
    }

    /// The signed value of the number, scaled by `10^k`.
    pub open spec fn num_at(self, k: nat) -> int
        recommends
            k >= self.scale(),
    {
        self.signed() * pow10((k - self.scale()) as nat)
    }

    /// The coarsest scale at which both `self` and `other` can be read as
    /// integers.
    pub open spec fn common_scale(self, other: BigNumber) -> nat {
        if self.scale() >= other.scale() {
            self.scale()
        } else {
            other.scale()
        }
    }

    /// Whether `self` and `other` denote the same value.
    pub open spec fn same_value(self, other: BigNumber) -> bool {
        self.num_at(self.common_scale(other)) == other.num_at(self.common_scale(other))
    }

    /// The number denotes zero.
    pub open spec fn is_spec_zero(self) -> bool {
        self.mag() == 0
    }

    /// The integer run is in normal form: never empty, and no leading zero
    /// digit beyond a single zero standing alone.
    pub open spec fn integer_run_normal(self) -> bool {
        &&& self.integer@.len() >= 1
        &&& (self.integer@.len() == 1 || self.integer@[0] != Digits::Zero)
    }

    /// The fractional run is in normal form: no trailing zero digit.
    pub open spec fn decimal_run_normal(self) -> bool {
        self.decimal@.len() == 0 || self.decimal@.last() != Digits::Zero
    }

    /// The normal form every value produced by the engine satisfies: both
    /// runs carry no spurious zero digits, and zero is always positive.
    pub open spec fn well_formed(self) -> bool {
        &&& self.integer_run_normal()
        &&& self.decimal_run_normal()
        &&& (self.is_spec_zero() ==> self.sign is Positive)
    }

    pub fn is_the_same_sign_as(&self, other: &Self) -> (r: bool)
        ensures
            r == (self.sign == other.sign),
    {
        self.sign == other.sign
    }

    pub fn is_negative(&self) -> (r: bool)
        ensures
            r == (self.sign is Negative),
    {
        self.sign == Sign::Negative
    }

    pub fn is_positive(&self) -> (r: bool)
        ensures
            r == (self.sign is Positive),
    {
        self.sign == Sign::Positive
    }

    /// Whether a number with normal digit runs is the canonical zero.
    fn is_zero_value(&self) -> (r: bool)
        requires
            self.integer_run_normal(),
            self.decimal_run_normal(),
        ensures
            r == self.is_spec_zero(),
    {
        proof {
            lemma_wf_zero_shape(*self);
            lemma_seq_val_singleton(Digits::Zero);
        }
        let r = self.integer.len() == 1 && self.decimal.len() == 0 && matches!(
            self.integer[0],
            Digits::Zero,
        );
        proof {
            if r {
                assert(self.integer@ =~= seq![Digits::Zero]);
            }
        }
        r
    }

    /// Flips the sign of the number in place.  A zero stays canonical: its
    /// sign remains positive.
    pub fn negate(&mut self)
        requires
            old(self).well_formed(),
        ensures
            final(self).well_formed(),
            final(self).integer@ == old(self).integer@,
            final(self).decimal@ == old(self).decimal@,
            final(self).signed() == -old(self).signed(),
            final(self).sign == (if old(self).is_spec_zero() {
                Sign::Positive
            } else {
                old(self).sign.opposite()
            }),
    {
        if self.is_zero_value() {
            self.sign = Sign::Positive;
        } else {
            self.sign = self.sign.flip();
        }
    }

    /// The canonical representation of zero: a single zero integer digit,
    /// no fractional digits, positive sign.
    pub fn zero() -> (z: BigNumber)
        ensures
            z.well_formed(),
            z.is_spec_zero(),
            z.scale() == 0,
            z.sign == Sign::Positive,
            z.integer@ == seq![Digits::Zero],
            z.decimal@ == Seq::<Digits>::empty(),
    {
        let mut v: Vec<Digits> = Vec::new();
        v.push(Digits::Zero);
        proof {
            assert(v@ =~= seq![Digits::Zero]);
            lemma_seq_val_singleton(Digits::Zero);
        }
        BigNumber { integer: v, decimal: Vec::new(), sign: Sign::Positive }
    }

    /// Builds the number an unsigned machine integer denotes, by repeated
    /// division by ten: its decimal digits most-significant first, no
    /// fractional run, positive sign.  The value zero becomes the single
    /// digit zero.
    pub fn from_unsigned(value: u128) -> (r: BigNumber)
        ensures
            r.well_formed(),
            r.sign == Sign::Positive,
            r.scale() == 0,
            r.mag() == value,
    {
        proof {
            vstd::arithmetic::power::lemma_pow0(10);
        }
        let mut low_digits: Vec<Digits> = Vec::new();
        let mut x: u128 = value;
        while x >= 10
            invariant
                crate::magnitude::rev_val(low_digits@) + x * pow10(low_digits@.len()) == value,
                low_digits@.len() > 0 ==> x >= 1,
            decreases x,
        {
            let ghost prev = low_digits@;
            let ghost x0 = x as int;
            let digit = crate::digits::digit_of_remainder(x);
            low_digits.push(digit);
            x = x / 10;
            proof {
                vstd::arithmetic::div_mod::lemma_fundamental_div_mod(x0, 10);
                crate::magnitude::lemma_rev_val_push(prev, digit);
                crate::magnitude::lemma_pow10_adds(prev.len(), 1);
                vstd::arithmetic::power::lemma_pow1(10);
                lemma_division_step(
                    crate::magnitude::rev_val(low_digits@),
                    crate::magnitude::rev_val(prev),
                    x0,
                    x as int,
                    digit.as_int(),
                    pow10(prev.len()),
                    pow10(low_digits@.len()),
                    value as int,
                );
            }
        }
        let ghost prev = low_digits@;
        let last = crate::digits::digit_of_remainder(x);
        low_digits.push(last);
        proof {
            crate::magnitude::lemma_rev_val_push(prev, last);
            assert(x % 10 == x) by {
                vstd::arithmetic::div_mod::lemma_small_mod(x as nat, 10);
            }
        }
        let integer = crate::digits::reversed(&low_digits);
        proof {
            crate::magnitude::lemma_rev_val_reverse(low_digits@);
            assert(seq_val(integer@) == value);
            assert(integer@[0] == low_digits@.last());
        }
        BigNumber { integer, decimal: Vec::new(), sign: Sign::Positive }
    }

    /// Cleans up the internal representation: strips leading zero digits
    /// from the integer run (leaving a single zero for a zero integer part),
    /// strips trailing zero digits from the fractional run, and forces the
    /// sign of a zero to positive.  The denoted value is unchanged.
    pub fn normalize(&mut self)
        ensures
            final(self).well_formed(),
            final(self).scale() <= old(self).scale(),
            final(self).num_at(old(self).scale()) == old(self).num_at(old(self).scale()),
            final(self).sign == (if final(self).is_spec_zero() {
                Sign::Positive
            } else {
                old(self).sign
            }),
    {
        let ghost s0 = old(self).scale();
        // Strip leading zeros from the integer run.
        let mut lead: usize = 0;
        while lead < self.integer.len() && self.integer[lead] == Digits::Zero
            invariant
                lead <= self.integer@.len(),
                forall|j: int| 0 <= j < lead ==> self.integer@[j] == Digits::Zero,
                *self == *old(self),
            decreases self.integer@.len() - lead,
        {
            lead += 1;
        }
        let mut new_integer: Vec<Digits> = Vec::new();
        if lead == self.integer.len() {
            new_integer.push(Digits::Zero);
        } else {
            let mut j: usize = lead;
            while j < self.integer.len()
                invariant
                    lead <= j <= self.integer@.len(),
                    new_integer@ =~= self.integer@.subrange(lead as int, j as int),
                    *self == *old(self),
                decreases self.integer@.len() - j,
        {
                let d = self.integer[j];
                new_integer.push(d);
                j += 1;
            }
        }
        proof {
            lemma_strip_leading_zeros(old(self).integer@, lead as int, new_integer@);
        }
        // Strip trailing zeros from the fractional run.
        let mut keep: usize = self.decimal.len();
        while keep > 0 && self.decimal[keep - 1] == Digits::Zero
            invariant
                keep <= self.decimal@.len(),
                forall|j: int| keep <= j < self.decimal@.len() ==> self.decimal@[j] == Digits::Zero,
                *self == *old(self),
            decreases keep,
        {
            keep -= 1;
        }
        let ghost old_decimal = self.decimal@;
        self.decimal.truncate(keep);
        self.integer = new_integer;
        proof {
            assert(pad_back(self.decimal@, s0) =~= old_decimal);
            crate::magnitude::lemma_pad_back_val(self.decimal@, s0);
        }
        // Force the canonical sign onto a zero.
        if self.is_zero_value() {
            self.sign = Sign::Positive;
        }
        proof {
            let nv = *self;
            let iv = seq_val(old(self).integer@);
            let m = nv.scale();
            let dv = seq_val(nv.decimal@);
            let q = pow10((s0 - m) as nat);
            lemma_mag_rescale(iv, dv, m, s0);
            assert(nv.mag() == iv * pow10(m) + dv);
            assert(nv.mag() * q == old(self).mag());
            vstd::arithmetic::power::lemma_pow0(10);
            lemma_neg_mul(nv.mag(), q);
            if nv.sign is Negative {
                assert(old(self).sign is Negative);
                assert(nv.num_at(s0) == (-nv.mag()) * q);
                assert((-nv.mag()) * q == -(nv.mag() * q));
                assert(old(self).num_at(s0) == (-old(self).mag()) * pow10(0));
                assert(old(self).num_at(s0) == -old(self).mag());
                assert(nv.num_at(s0) == old(self).num_at(s0));
            } else if old(self).sign is Negative {
                assert(nv.mag() == 0);
                assert(old(self).mag() == 0);
                assert(nv.num_at(s0) == 0);
                assert(old(self).num_at(s0) == (-old(self).mag()) * pow10(0));
                assert(nv.num_at(s0) == old(self).num_at(s0));
            } else {
                assert(nv.num_at(s0) == nv.mag() * q);
                assert(old(self).num_at(s0) == old(self).mag() * pow10(0));
                assert(nv.num_at(s0) == old(self).num_at(s0));
            }
        }
    }
}

/// Under the well-formedness invariant, denoting zero is the same as having
/// the canonical zero shape: a lone zero integer digit and no fractional
/// digits.
pub proof fn lemma_wf_zero_shape(x: BigNumber)
    requires
        x.integer_run_normal(),
        x.decimal_run_normal(),
    ensures
        x.is_spec_zero() <==> (x.integer@ == seq![Digits::Zero] && x.decimal@.len() == 0),
{
    lemma_seq_val_bounds(x.integer@);
    lemma_seq_val_bounds(x.decimal@);
    lemma_pow10_pos(x.scale());
    lemma_seq_val_zero_iff(x.integer@);
    lemma_seq_val_zero_iff(x.decimal@);
    if x.is_spec_zero() {
        assert(seq_val(x.integer@) * pow10(x.scale()) >= 0) by {
            vstd::arithmetic::mul::lemma_mul_nonnegative(seq_val(x.integer@), pow10(x.scale()));
        }
        assert(seq_val(x.integer@) * pow10(x.scale()) == 0 && seq_val(x.decimal@) == 0);
        assert(seq_val(x.integer@) == 0) by {
            if seq_val(x.integer@) > 0 {
                vstd::arithmetic::mul::lemma_mul_strictly_positive(
                    seq_val(x.integer@),
                    pow10(x.scale()),
                );
            }
        }
        assert(x.integer@ =~= seq![Digits::Zero]);
        if x.decimal@.len() > 0 {
            assert(x.decimal@.last() == x.decimal@[x.decimal@.len() - 1]);
        }
    }
    if x.integer@ == seq![Digits::Zero] && x.decimal@.len() == 0 {
        lemma_seq_val_singleton(Digits::Zero);
    }
}

/// One step of decomposing a machine integer: pushing the ones digit and
/// dividing by ten keeps the running total.
proof fn lemma_division_step(
    rv_new: int,
    rv: int,
    x0: int,
    x1: int,
    d: int,
    p: int,
    p_next: int,
    value: int,
)
    requires
        rv_new == rv + d * p,
        rv + x0 * p == value,
        x0 == 10 * x1 + d,
        p_next == p * 10,
    ensures
        rv_new + x1 * p_next == value,
{
    assert(rv_new + x1 * p_next == value) by (nonlinear_arith)
        requires
            rv_new == rv + d * p,
            rv + x0 * p == value,
            x0 == 10 * x1 + d,
            p_next == p * 10,
    ;
}

/// Stripping an all-zero prefix from a digit run keeps its value.
proof fn lemma_strip_leading_zeros(s: Seq<Digits>, lead: int, r: Seq<Digits>)
    requires
        0 <= lead <= s.len(),
        forall|j: int| 0 <= j < lead ==> s[j] == Digits::Zero,
        lead == s.len() || s[lead] != Digits::Zero,
        r == (if lead == s.len() {
            seq![Digits::Zero]
        } else {
            s.subrange(lead, s.len() as int)
        }),
    ensures
        seq_val(r) == seq_val(s),
        r.len() >= 1,
        r.len() == 1 || r[0] != Digits::Zero,
{
    lemma_seq_val_split(s, lead);
    assert(seq_val(s.take(lead)) == 0) by {
        lemma_seq_val_zero_iff(s.take(lead));
    }
    if lead == s.len() {
        assert(s.skip(lead) =~= Seq::<Digits>::empty());
        lemma_seq_val_singleton(Digits::Zero);
    } else {
        assert(s.skip(lead) =~= s.subrange(lead, s.len() as int));
    }
}

} // verus!
