//! The laws of the arithmetic engine, stated and proved over the same
//! spec functions that the public operations' contracts use: addition is
//! commutative and has zero as its identity, subtracting a value from
//! itself yields zero, the order is consistent and total, and a value has
//! exactly one well-formed representation.

use vstd::prelude::*;

verus! {

use core::cmp::Ordering;
use crate::BigNumber;
use crate::Sign;
use crate::digits::Digits;
use crate::arith::difference_value;
use crate::arith::spec_cmp;
use crate::arith::sum_value;
use crate::arith::lemma_mag_at_expand;
use crate::arith::lemma_num_at_by_sign;
use crate::arith::lemma_mag_at_nonneg;
use crate::magnitude::pad_back;
use crate::magnitude::pow10;
use crate::magnitude::seq_val;
use crate::magnitude::lemma_pow10_adds;
use crate::magnitude::lemma_pow10_pos;
use crate::magnitude::lemma_seq_val_bounds;
use crate::magnitude::lemma_seq_val_injective;
use crate::magnitude::lemma_seq_val_leading_nonzero;
use crate::lemma_wf_zero_shape;

/// Reading a value at a coarser scale multiplies it by the matching power
/// of ten.
pub proof fn lemma_num_at_rescale(x: BigNumber, k1: nat, k2: nat)
    requires
        x.scale() <= k1 <= k2,
    ensures
        x.num_at(k2) == x.num_at(k1) * pow10((k2 - k1) as nat),
{
    lemma_pow10_adds((k1 - x.scale()) as nat, (k2 - k1) as nat);
    vstd::arithmetic::mul::lemma_mul_is_associative(
        x.signed(),
        pow10((k1 - x.scale()) as nat),
        pow10((k2 - k1) as nat),
    );
}

/// The order of two numbers can be read off at any scale both can be read
/// at, not only the coarsest one.
pub proof fn lemma_cmp_at_any_scale(x: BigNumber, y: BigNumber, k: nat)
    requires
        k >= x.scale(),
        k >= y.scale(),
    ensures
        spec_cmp(x, y) == Ordering::Less <==> x.num_at(k) < y.num_at(k),
        spec_cmp(x, y) == Ordering::Equal <==> x.num_at(k) == y.num_at(k),
        spec_cmp(x, y) == Ordering::Greater <==> x.num_at(k) > y.num_at(k),
{
    let k0 = x.common_scale(y);
    let q = pow10((k - k0) as nat);
    lemma_pow10_pos((k - k0) as nat);
    lemma_num_at_rescale(x, k0, k);
    lemma_num_at_rescale(y, k0, k);
    if x.num_at(k0) < y.num_at(k0) {
        vstd::arithmetic::mul::lemma_mul_strict_inequality(x.num_at(k0), y.num_at(k0), q);
    }
    if y.num_at(k0) < x.num_at(k0) {
        vstd::arithmetic::mul::lemma_mul_strict_inequality(y.num_at(k0), x.num_at(k0), q);
    }
}

/// Two numbers denote the same value exactly when the order ranks them
/// equal.
pub proof fn lemma_same_value_is_equal(x: BigNumber, y: BigNumber)
    ensures
        x.same_value(y) <==> spec_cmp(x, y) == Ordering::Equal,
{
}

/// Addition is commutative: every result of adding `x` to `y` and every
/// result of adding `y` to `x` denote the same value, so the order ranks
/// them equal.
pub proof fn lemma_add_commutative(
    x: BigNumber,
    y: BigNumber,
    rxy: BigNumber,
    ryx: BigNumber,
)
    requires
        x.well_formed(),
        y.well_formed(),
        sum_value(rxy, x, y),
        sum_value(ryx, y, x),
    ensures
        rxy.same_value(ryx),
        spec_cmp(rxy, ryx) == Ordering::Equal,
{
    let k = x.common_scale(y);
    assert(rxy.num_at(k) == ryx.num_at(k));
    lemma_cmp_at_any_scale(rxy, ryx, k);
}

/// Zero is the identity of addition: every result of adding a zero to `x`
/// denotes exactly `x`'s value, and when it is well formed it is `x`'s
/// representation itself.
pub proof fn lemma_add_zero_identity(x: BigNumber, z: BigNumber, r: BigNumber)
    requires
        x.well_formed(),
        z.well_formed(),
        z.is_spec_zero(),
        sum_value(r, x, z),
    ensures
        r.same_value(x),
        spec_cmp(r, x) == Ordering::Equal,
        r.well_formed() ==> r.integer@ == x.integer@ && r.decimal@ == x.decimal@ && r.sign
            == x.sign,
{
    lemma_wf_zero_shape(z);
    let k = x.common_scale(z);
    assert(z.num_at(k) == 0) by {
        assert(z.signed() == 0);
    }
    assert(r.num_at(k) == x.num_at(k));
    lemma_cmp_at_any_scale(r, x, k);
    if r.well_formed() {
        lemma_well_formed_unique(r, x);
    }
}

/// Subtracting a value from itself yields zero — in well-formed shape,
/// the canonical zero itself.
pub proof fn lemma_subtract_self_is_zero(x: BigNumber, r: BigNumber)
    requires
        x.well_formed(),
        r.well_formed(),
        difference_value(r, x, x),
    ensures
        r.is_spec_zero(),
        r.integer@ == seq![Digits::Zero],
        r.decimal@.len() == 0,
        r.sign == Sign::Positive,
{
    let k = x.common_scale(x);
    assert(r.num_at(k) == 0);
    lemma_mag_at_nonneg(r, k);
    lemma_num_at_by_sign(r, k);
    assert(r.mag_at(k) == 0);
    assert(r.is_spec_zero()) by {
        lemma_pow10_pos((k - r.scale()) as nat);
        if r.mag() > 0 {
            vstd::arithmetic::mul::lemma_mul_strictly_positive(
                r.mag(),
                pow10((k - r.scale()) as nat),
            );
        }
    }
    lemma_wf_zero_shape(r);
}

/// The order ranks two numbers equal exactly when it ranks them neither
/// lower nor higher.
pub proof fn lemma_compare_consistency(x: BigNumber, y: BigNumber)
    ensures
        spec_cmp(x, y) == Ordering::Equal <==> (spec_cmp(x, y) != Ordering::Less && spec_cmp(x, y)
            != Ordering::Greater),
{
}

/// The order is antisymmetric: swapping the operands swaps lower and
/// higher and keeps equality.
pub proof fn lemma_compare_antisymmetric(x: BigNumber, y: BigNumber)
    ensures
        spec_cmp(x, y) == Ordering::Less <==> spec_cmp(y, x) == Ordering::Greater,
        spec_cmp(x, y) == Ordering::Equal <==> spec_cmp(y, x) == Ordering::Equal,
{
    let k = x.common_scale(y);
    lemma_cmp_at_any_scale(x, y, k);
    lemma_cmp_at_any_scale(y, x, k);
}

/// The order is transitive, through equal and strict steps alike.
pub proof fn lemma_compare_transitive(x: BigNumber, y: BigNumber, z: BigNumber)
    requires
        spec_cmp(x, y) != Ordering::Greater,
        spec_cmp(y, z) != Ordering::Greater,
    ensures
        spec_cmp(x, z) != Ordering::Greater,
        spec_cmp(x, y) == Ordering::Less || spec_cmp(y, z) == Ordering::Less ==> spec_cmp(x, z)
            == Ordering::Less,
{
    let k = if x.common_scale(y) >= z.scale() {
        x.common_scale(y)
    } else {
        z.scale()
    };
    lemma_cmp_at_any_scale(x, y, k);
    lemma_cmp_at_any_scale(y, z, k);
    lemma_cmp_at_any_scale(x, z, k);
}

/// A value has exactly one well-formed representation: two well-formed
/// numbers denoting the same value agree in sign and digit for digit.
pub proof fn lemma_well_formed_unique(a: BigNumber, b: BigNumber)
    requires
        a.well_formed(),
        b.well_formed(),
        a.same_value(b),
    ensures
        a.integer@ == b.integer@,
        a.decimal@ == b.decimal@,
        a.sign == b.sign,
{
    let k = a.common_scale(b);
    lemma_num_at_by_sign(a, k);
    lemma_num_at_by_sign(b, k);
    lemma_mag_at_nonneg(a, k);
    lemma_mag_at_nonneg(b, k);
    lemma_wf_zero_shape(a);
    lemma_wf_zero_shape(b);
    // The signs agree: a negative well-formed number denotes a strictly
    // negative value, a positive one a non-negative value.
    if a.num_at(k) == 0 {
        assert(a.mag_at(k) == 0 && b.mag_at(k) == 0);
        assert(a.is_spec_zero() && b.is_spec_zero()) by {
            lemma_pow10_pos((k - a.scale()) as nat);
            lemma_pow10_pos((k - b.scale()) as nat);
            if a.mag() > 0 {
                vstd::arithmetic::mul::lemma_mul_strictly_positive(
                    a.mag(),
                    pow10((k - a.scale()) as nat),
                );
            }
            if b.mag() > 0 {
                vstd::arithmetic::mul::lemma_mul_strictly_positive(
                    b.mag(),
                    pow10((k - b.scale()) as nat),
                );
            }
        }
    } else {
        assert(a.sign == b.sign);
        assert(a.mag_at(k) == b.mag_at(k));
    }
    assert(a.mag_at(k) == b.mag_at(k));
    // Equal magnitudes split identically into integer and fractional
    // parts, because the fractional part lies below one unit of the
    // integer part's place.
    lemma_mag_at_expand(a, k);
    lemma_mag_at_expand(b, k);
    let ia = seq_val(a.integer@);
    let ib = seq_val(b.integer@);
    let fa = pad_back(a.decimal@, k);
    let fb = pad_back(b.decimal@, k);
    crate::magnitude::lemma_pad_back_val(a.decimal@, k);
    crate::magnitude::lemma_pad_back_val(b.decimal@, k);
    lemma_seq_val_bounds(fa);
    lemma_seq_val_bounds(fb);
    lemma_pow10_pos(k);
    assert(ia == ib && seq_val(fa) == seq_val(fb)) by {
        let d = ia - ib;
        assert(d * pow10(k) == seq_val(fb) - seq_val(fa)) by {
            vstd::arithmetic::mul::lemma_mul_is_distributive_sub_other_way(pow10(k), ia, ib);
        }
        if d >= 1 {
            vstd::arithmetic::mul::lemma_mul_inequality(1, d, pow10(k));
        }
        if d <= -1 {
            vstd::arithmetic::mul::lemma_mul_inequality(d, -1, pow10(k));
            vstd::arithmetic::mul::lemma_mul_is_distributive_sub_other_way(pow10(k), 0, 1);
        }
    }
    // Equal integer-run values under the no-leading-zero rule force equal
    // lengths, hence equal runs.
    lemma_front_normal_lengths_agree(a.integer@, b.integer@);
    lemma_seq_val_injective(a.integer@, b.integer@);
    // The padded fractional runs agree; stripping the padding — which the
    // no-trailing-zero rule pins down — recovers equal runs.
    lemma_seq_val_injective(fa, fb);
    assert(a.decimal@ == b.decimal@) by {
        if a.decimal@.len() < b.decimal@.len() {
            let j = b.decimal@.len() - 1;
            assert(fb[j as int] == b.decimal@.last());
            assert(fa[j as int] == Digits::Zero);
        }
        if b.decimal@.len() < a.decimal@.len() {
            let j = a.decimal@.len() - 1;
            assert(fa[j as int] == a.decimal@.last());
            assert(fb[j as int] == Digits::Zero);
        }
        assert(a.decimal@.len() == b.decimal@.len());
        assert forall|i: int| 0 <= i < a.decimal@.len() implies a.decimal@[i] == b.decimal@[i] by {
            assert(fa[i] == a.decimal@[i] && fb[i] == b.decimal@[i]);
        }
        assert(a.decimal@ =~= b.decimal@);
    }
}

/// Two integer runs in normal form denoting the same value have the same
/// length.
proof fn lemma_front_normal_lengths_agree(a: Seq<Digits>, b: Seq<Digits>)
    requires
        a.len() >= 1,
        a.len() == 1 || a[0] != Digits::Zero,
        b.len() >= 1,
        b.len() == 1 || b[0] != Digits::Zero,
        seq_val(a) == seq_val(b),
    ensures
        a.len() == b.len(),
{
    lemma_seq_val_bounds(a);
    lemma_seq_val_bounds(b);
    if a.len() > b.len() {
        lemma_seq_val_leading_nonzero(a);
        assert(pow10(b.len()) <= pow10((a.len() - 1) as nat)) by {
            vstd::arithmetic::power::lemma_pow_increases(10, b.len(), (a.len() - 1) as nat);
        }
    }
    if b.len() > a.len() {
        lemma_seq_val_leading_nonzero(b);
        assert(pow10(a.len()) <= pow10((b.len() - 1) as nat)) by {
            vstd::arithmetic::power::lemma_pow_increases(10, a.len(), (b.len() - 1) as nat);
        }
    }
}

} // verus!
