//! The composite-number arithmetic engine: magnitude addition and
//! nine's-complement subtraction over aligned digit runs, the total order
//! on signed values, and the public `add` / `subtract` / `compare`
//! operations built from them.

use vstd::prelude::*;

verus! {

use core::cmp::Ordering;
use crate::BigNumber;
use crate::Sign;
use crate::digits::Digits;
use crate::digits::copy_digits;
use crate::digits::reversed;
use crate::iterators::DecimalsByAscendingPower;
use crate::iterators::DecimalsByDescendingPower;
use crate::iterators::IntegersByAscendingPower;
use crate::iterators::IntegersByDescendingPower;
use crate::iterators::decimal_asc_pairs;
use crate::iterators::decimal_desc_pairs;
use crate::iterators::integer_asc_pairs;
use crate::iterators::integer_desc_pairs;
use crate::iterators::run_max_len;
use crate::magnitude::pad_back;
use crate::magnitude::pad_front;
use crate::magnitude::pow10;
use crate::magnitude::rev_val;
use crate::magnitude::seq_val;
use crate::magnitude::lemma_mag_rescale;
use crate::magnitude::lemma_neg_mul;
use crate::magnitude::lemma_pad_back_val;
use crate::magnitude::lemma_pad_front_val;
use crate::magnitude::lemma_pow10_adds;
use crate::magnitude::lemma_pow10_pos;
use crate::magnitude::lemma_rev_val_push;
use crate::magnitude::lemma_rev_val_reverse;
use crate::magnitude::lemma_seq_val_bounds;
use crate::magnitude::lemma_seq_val_leading_nonzero;
use crate::magnitude::lemma_seq_val_lex;
use crate::magnitude::lemma_seq_val_skip_step;

/// `r` denotes the sum of `x` and `y`: read at the scale both operands
/// share, the values add up exactly.
pub open spec fn sum_value(r: BigNumber, x: BigNumber, y: BigNumber) -> bool {
    let k = x.common_scale(y);
    &&& r.scale() <= k
    &&& r.num_at(k) == x.num_at(k) + y.num_at(k)
}

/// `r` denotes the difference of `x` and `y`: read at the scale both
/// operands share, the values subtract exactly.
pub open spec fn difference_value(r: BigNumber, x: BigNumber, y: BigNumber) -> bool {
    let k = x.common_scale(y);
    &&& r.scale() <= k
    &&& r.num_at(k) == x.num_at(k) - y.num_at(k)
}

/// The order of the signed values of `x` and `y`, read at their common
/// scale.  [`BigNumber::compare`] returns exactly this.
pub open spec fn spec_cmp(x: BigNumber, y: BigNumber) -> Ordering {
    let k = x.common_scale(y);
    if x.num_at(k) < y.num_at(k) {
        Ordering::Less
    } else if x.num_at(k) == y.num_at(k) {
        Ordering::Equal
    } else {
        Ordering::Greater
    }
}

/// The order of the magnitudes of `x` and `y`, ignoring their signs.
pub open spec fn spec_mag_cmp(x: BigNumber, y: BigNumber) -> Ordering {
    let k = x.common_scale(y);
    if x.mag_at(k) < y.mag_at(k) {
        Ordering::Less
    } else if x.mag_at(k) == y.mag_at(k) {
        Ordering::Equal
    } else {
        Ordering::Greater
    }
}

/// Read at scale `k`, a magnitude splits into the integer run scaled by
/// `10^k` plus the tail-padded fractional run.
pub proof fn lemma_mag_at_expand(x: BigNumber, k: nat)
    requires
        k >= x.scale(),
    ensures
        x.mag_at(k) == seq_val(x.integer@) * pow10(k) + seq_val(pad_back(x.decimal@, k)),
{
    lemma_pad_back_val(x.decimal@, k);
    lemma_mag_rescale(seq_val(x.integer@), seq_val(x.decimal@), x.scale(), k);
}

/// A magnitude is never negative, at any scale.
pub proof fn lemma_mag_at_nonneg(x: BigNumber, k: nat)
    requires
        k >= x.scale(),
    ensures
        x.mag() >= 0,
        x.mag_at(k) >= 0,
        x.mag() > 0 ==> x.mag_at(k) > 0,
{
    lemma_seq_val_bounds(x.integer@);
    lemma_seq_val_bounds(x.decimal@);
    lemma_pow10_pos(x.scale());
    lemma_pow10_pos((k - x.scale()) as nat);
    vstd::arithmetic::mul::lemma_mul_nonnegative(seq_val(x.integer@), pow10(x.scale()));
    vstd::arithmetic::mul::lemma_mul_nonnegative(x.mag(), pow10((k - x.scale()) as nat));
    if x.mag() > 0 {
        vstd::arithmetic::mul::lemma_mul_strictly_positive(x.mag(), pow10((k - x.scale()) as nat));
    }
}

/// The signed value at scale `k` is the magnitude at scale `k`, negated
/// for a negative sign.
pub proof fn lemma_num_at_by_sign(x: BigNumber, k: nat)
    requires
        k >= x.scale(),
    ensures
        x.sign is Positive ==> x.num_at(k) == x.mag_at(k),
        x.sign is Negative ==> x.num_at(k) == -x.mag_at(k),
{
    lemma_neg_mul(x.mag(), pow10((k - x.scale()) as nat));
}

/// One step of the ascending carry chain of addition: consuming the digit
/// pair `(dx, dy)` at place value `p` extends the built value `rv` and the
/// consumed low parts `av`, `bv` consistently.
proof fn lemma_add_chain_step(
    rv_new: int,
    rv: int,
    av_new: int,
    av: int,
    bv_new: int,
    bv: int,
    dx: int,
    dy: int,
    t: int,
    cin: int,
    cout: int,
    p: int,
    p_next: int,
    base: int,
)
    requires
        rv_new == rv + t * p,
        rv + cin * p == av + bv + base,
        t + cout * 10 == dx + dy + cin,
        av_new == dx * p + av,
        bv_new == dy * p + bv,
        p_next == p * 10,
    ensures
        rv_new + cout * p_next == av_new + bv_new + base,
{
    assert(rv_new + cout * p_next == av_new + bv_new + base) by (nonlinear_arith)
        requires
            rv_new == rv + t * p,
            rv + cin * p == av + bv + base,
            t + cout * 10 == dx + dy + cin,
            av_new == dx * p + av,
            bv_new == dy * p + bv,
            p_next == p * 10,
    ;
}

/// One step of the ascending chain of nine's-complement subtraction: the
/// digit pushed is the complement of the chain digit `t`, and the built
/// value tracks the difference of the consumed low parts.
proof fn lemma_sub_chain_step(
    rv_new: int,
    rv: int,
    av_new: int,
    av: int,
    bv_new: int,
    bv: int,
    dx: int,
    dy: int,
    t: int,
    out: int,
    cin: int,
    cout: int,
    p: int,
    p_next: int,
    base: int,
)
    requires
        rv_new == rv + out * p,
        rv == av - bv + cin * p - base,
        t + cout * 10 == (9 - dx) + dy + cin,
        out == 9 - t,
        av_new == dx * p + av,
        bv_new == dy * p + bv,
        p_next == p * 10,
    ensures
        rv_new == av_new - bv_new + cout * p_next - base,
{
    assert(rv_new == av_new - bv_new + cout * p_next - base) by (nonlinear_arith)
        requires
            rv_new == rv + out * p,
            rv == av - bv + cin * p - base,
            t + cout * 10 == (9 - dx) + dy + cin,
            out == 9 - t,
            av_new == dx * p + av,
            bv_new == dy * p + bv,
            p_next == p * 10,
    ;
}

/// Reassembling an addition result from its integer part `ri` (which
/// absorbed the boundary carry `c`) and its fractional part `rd` gives the
/// sum of the two operands' magnitude parts.
proof fn lemma_add_assemble(ri: int, rd: int, ia: int, ib: int, fav: int, fbv: int, c: int, pk: int)
    requires
        ri == ia + ib + c,
        rd == fav + fbv - c * pk,
    ensures
        ri * pk + rd == (ia * pk + fav) + (ib * pk + fbv),
{
    assert(ri * pk + rd == (ia * pk + fav) + (ib * pk + fbv)) by (nonlinear_arith)
        requires
            ri == ia + ib + c,
            rd == fav + fbv - c * pk,
    ;
}

/// Reassembling a subtraction result from its integer part `ri` and its
/// fractional part `rd` leaves the operands' difference plus the final
/// carry at the topmost place.
proof fn lemma_sub_assemble(
    ri: int,
    rd: int,
    ia: int,
    ib: int,
    fav: int,
    fbv: int,
    c_end: int,
    c_f: int,
    pm: int,
    pk: int,
    pmk: int,
)
    requires
        ri == ia - ib + c_end * pm - c_f,
        rd == fav - fbv + c_f * pk,
        pmk == pm * pk,
    ensures
        ri * pk + rd == (ia * pk + fav) - (ib * pk + fbv) + c_end * pmk,
{
    assert(ri * pk + rd == (ia * pk + fav) - (ib * pk + fbv) + c_end * pmk) by (nonlinear_arith)
        requires
            ri == ia - ib + c_end * pm - c_f,
            rd == fav - fbv + c_f * pk,
            pmk == pm * pk,
    ;
}

/// A value `ihigh * 10^k + low` built from a high part below `10^m` and a
/// low part below `10^k` stays below `10^(m + k)`.
proof fn lemma_two_part_bound(ihigh: int, low: int, m: nat, k: nat)
    requires
        0 <= ihigh < pow10(m),
        0 <= low < pow10(k),
    ensures
        0 <= ihigh * pow10(k) + low < pow10((m + k) as nat),
{
    lemma_pow10_adds(m, k);
    lemma_pow10_pos(k);
    assert(ihigh * pow10(k) <= (pow10(m) - 1) * pow10(k)) by {
        vstd::arithmetic::mul::lemma_mul_inequality(ihigh, pow10(m) - 1, pow10(k));
    }
    assert((pow10(m) - 1) * pow10(k) == pow10(m) * pow10(k) - pow10(k)) by {
        vstd::arithmetic::mul::lemma_mul_is_distributive_sub_other_way(pow10(k), pow10(m), 1);
    }
    vstd::arithmetic::mul::lemma_mul_nonnegative(ihigh, pow10(k));
}

/// Runs the ascending carry chain of addition over two aligned
/// fractional runs; returns the produced digits least-significant first
/// together with the carry out of the topmost fractional place.
#[verifier::rlimit(100)]
#[verifier::loop_isolation(false)]
fn add_decimal_run(x: &Vec<Digits>, y: &Vec<Digits>) -> (r: (Vec<Digits>, Digits))
    ensures
        ({
            let n = run_max_len(x@, y@);
            &&& r.1.as_int() <= 1
            &&& r.0@.len() == n
            &&& rev_val(r.0@) + r.1.as_int() * pow10(n) == seq_val(pad_back(x@, n)) + seq_val(
                pad_back(y@, n),
            )
        }),
{
    let ghost fa = pad_back(x@, run_max_len(x@, y@));
    let ghost fb = pad_back(y@, run_max_len(x@, y@));
    proof {
        lemma_pad_back_val(x@, run_max_len(x@, y@));
        lemma_pad_back_val(y@, run_max_len(x@, y@));
        vstd::arithmetic::power::lemma_pow0(10);
    }
    let n: usize = if x.len() >= y.len() {
        x.len()
    } else {
        y.len()
    };
    let mut low_digits: Vec<Digits> = Vec::new();
    let mut carry: Digits = Digits::Zero;
    if n != 0 {
        let mut aligned = DecimalsByAscendingPower::new(x, y);
        let mut i: usize = 0;
        while i < n
            invariant
                i <= n,
                aligned.remaining() == decimal_asc_pairs(x@, y@).skip(i as int),
                carry.as_int() <= 1,
                low_digits@.len() == i,
                rev_val(low_digits@) + carry.as_int() * pow10(i as nat) == seq_val(fa.skip(n - i))
                    + seq_val(fb.skip(n - i)),
            decreases n - i,
        {
            let p = aligned.next();
            let (tx, ty) = p.unwrap();
            proof {
                let pairs = decimal_asc_pairs(x@, y@);
                assert(pairs.skip(i as int)[0] == pairs[i as int]);
                assert(pairs[i as int] == decimal_desc_pairs(x@, y@)[n - 1 - i]);
                assert(tx == fa[n - 1 - i] && ty == fb[n - 1 - i]);
                lemma_seq_val_skip_step(fa, n - 1 - i);
                lemma_seq_val_skip_step(fb, n - 1 - i);
            }
            let ghost prev = low_digits@;
            let ghost c0 = carry.as_int();
            let (t, c) = tx.fused_addition(ty, carry);
            low_digits.push(t);
            carry = c;
            proof {
                lemma_rev_val_push(prev, t);
                lemma_pow10_adds(i as nat, 1);
                vstd::arithmetic::power::lemma_pow1(10);
                assert(pow10((i + 1) as nat) == pow10(i as nat) * 10);
                lemma_add_chain_step(
                    rev_val(low_digits@),
                    rev_val(prev),
                    seq_val(fa.skip(n - i - 1)),
                    seq_val(fa.skip(n - i)),
                    seq_val(fb.skip(n - i - 1)),
                    seq_val(fb.skip(n - i)),
                    tx.as_int(),
                    ty.as_int(),
                    t.as_int(),
                    c0,
                    carry.as_int(),
                    pow10(i as nat),
                    pow10((i + 1) as nat),
                    0,
                );
            }
            i += 1;
        }
    }
    proof {
        assert(fa.skip(0) =~= fa);
        assert(fb.skip(0) =~= fb);
        if n == 0 {
            assert(fa =~= Seq::<Digits>::empty());
            assert(fb =~= Seq::<Digits>::empty());
        }
    }
    (low_digits, carry)
}

/// Runs the ascending carry chain of addition over two aligned integer
/// runs, starting from the carry handed across the fraction boundary;
/// returns the produced digits least-significant first, a remaining carry
/// appended as one more digit.  When both runs are empty the carry itself
/// is the only digit.
#[verifier::rlimit(100)]
#[verifier::loop_isolation(false)]
fn add_integer_run(x: &Vec<Digits>, y: &Vec<Digits>, carry_in: Digits) -> (r: Vec<Digits>)
    requires
        carry_in.as_int() <= 1,
    ensures
        ({
            let m = run_max_len(x@, y@);
            rev_val(r@) == seq_val(pad_front(x@, m)) + seq_val(pad_front(y@, m))
                + carry_in.as_int()
        }),
{
    let ghost ga = pad_front(x@, run_max_len(x@, y@));
    let ghost gb = pad_front(y@, run_max_len(x@, y@));
    proof {
        lemma_pad_front_val(x@, run_max_len(x@, y@));
        lemma_pad_front_val(y@, run_max_len(x@, y@));
        vstd::arithmetic::power::lemma_pow0(10);
    }
    let m: usize = if x.len() >= y.len() {
        x.len()
    } else {
        y.len()
    };
    let mut high_digits: Vec<Digits> = Vec::new();
    let mut carry = carry_in;
    if m == 0 {
        high_digits.push(carry);
        proof {
            lemma_rev_val_push(Seq::<Digits>::empty(), carry);
            assert(ga =~= Seq::<Digits>::empty());
            assert(gb =~= Seq::<Digits>::empty());
        }
    } else {
        let mut aligned = IntegersByAscendingPower::new(x, y);
        let mut i: usize = 0;
        while i < m
            invariant
                i <= m,
                aligned.remaining() == integer_asc_pairs(x@, y@).skip(i as int),
                carry.as_int() <= 1,
                high_digits@.len() == i,
                rev_val(high_digits@) + carry.as_int() * pow10(i as nat) == seq_val(ga.skip(m - i))
                    + seq_val(gb.skip(m - i)) + carry_in.as_int(),
            decreases m - i,
        {
            let p = aligned.next();
            let (tx, ty) = p.unwrap();
            proof {
                let pairs = integer_asc_pairs(x@, y@);
                assert(pairs.skip(i as int)[0] == pairs[i as int]);
                assert(pairs[i as int] == integer_desc_pairs(x@, y@)[m - 1 - i]);
                assert(tx == ga[m - 1 - i] && ty == gb[m - 1 - i]);
                lemma_seq_val_skip_step(ga, m - 1 - i);
                lemma_seq_val_skip_step(gb, m - 1 - i);
            }
            let ghost prev = high_digits@;
            let ghost c0 = carry.as_int();
            let (t, c) = tx.fused_addition(ty, carry);
            high_digits.push(t);
            carry = c;
            proof {
                lemma_rev_val_push(prev, t);
                lemma_pow10_adds(i as nat, 1);
                vstd::arithmetic::power::lemma_pow1(10);
                assert(pow10((i + 1) as nat) == pow10(i as nat) * 10);
                lemma_add_chain_step(
                    rev_val(high_digits@),
                    rev_val(prev),
                    seq_val(ga.skip(m - i - 1)),
                    seq_val(ga.skip(m - i)),
                    seq_val(gb.skip(m - i - 1)),
                    seq_val(gb.skip(m - i)),
                    tx.as_int(),
                    ty.as_int(),
                    t.as_int(),
                    c0,
                    carry.as_int(),
                    pow10(i as nat),
                    pow10((i + 1) as nat),
                    carry_in.as_int(),
                );
            }
            i += 1;
        }
        proof {
            assert(ga.skip(0) =~= ga);
            assert(gb.skip(0) =~= gb);
        }
        let ghost before_carry = high_digits@;
        if carry.to_usize() != 0 {
            high_digits.push(carry);
            proof {
                lemma_rev_val_push(before_carry, carry);
            }
        }
    }
    high_digits
}

/// Runs the ascending chain of nine's-complement subtraction over two
/// aligned fractional runs; returns the produced digits least-significant
/// first together with the carry handed across the fraction boundary.
#[verifier::rlimit(100)]
#[verifier::loop_isolation(false)]
fn sub_decimal_run(x: &Vec<Digits>, y: &Vec<Digits>) -> (r: (Vec<Digits>, Digits))
    ensures
        ({
            let n = run_max_len(x@, y@);
            &&& r.1.as_int() <= 1
            &&& r.0@.len() == n
            &&& rev_val(r.0@) == seq_val(pad_back(x@, n)) - seq_val(pad_back(y@, n))
                + r.1.as_int() * pow10(n)
        }),
{
    let ghost fa = pad_back(x@, run_max_len(x@, y@));
    let ghost fb = pad_back(y@, run_max_len(x@, y@));
    proof {
        lemma_pad_back_val(x@, run_max_len(x@, y@));
        lemma_pad_back_val(y@, run_max_len(x@, y@));
        vstd::arithmetic::power::lemma_pow0(10);
    }
    let n: usize = if x.len() >= y.len() {
        x.len()
    } else {
        y.len()
    };
    let mut low_digits: Vec<Digits> = Vec::new();
    let mut carry: Digits = Digits::Zero;
    if n != 0 {
        let mut aligned = DecimalsByAscendingPower::new(x, y);
        let mut i: usize = 0;
        while i < n
            invariant
                i <= n,
                aligned.remaining() == decimal_asc_pairs(x@, y@).skip(i as int),
                carry.as_int() <= 1,
                low_digits@.len() == i,
                rev_val(low_digits@) == seq_val(fa.skip(n - i)) - seq_val(fb.skip(n - i))
                    + carry.as_int() * pow10(i as nat),
            decreases n - i,
        {
            let p = aligned.next();
            let (tx, ty) = p.unwrap();
            proof {
                let pairs = decimal_asc_pairs(x@, y@);
                assert(pairs.skip(i as int)[0] == pairs[i as int]);
                assert(pairs[i as int] == decimal_desc_pairs(x@, y@)[n - 1 - i]);
                assert(tx == fa[n - 1 - i] && ty == fb[n - 1 - i]);
                lemma_seq_val_skip_step(fa, n - 1 - i);
                lemma_seq_val_skip_step(fb, n - 1 - i);
            }
            let ghost prev = low_digits@;
            let ghost c0 = carry.as_int();
            let (t, c) = Digits::complement(tx).fused_addition(ty, carry);
            let out = Digits::complement(t);
            low_digits.push(out);
            carry = c;
            proof {
                lemma_rev_val_push(prev, out);
                lemma_pow10_adds(i as nat, 1);
                vstd::arithmetic::power::lemma_pow1(10);
                assert(pow10((i + 1) as nat) == pow10(i as nat) * 10);
                lemma_sub_chain_step(
                    rev_val(low_digits@),
                    rev_val(prev),
                    seq_val(fa.skip(n - i - 1)),
                    seq_val(fa.skip(n - i)),
                    seq_val(fb.skip(n - i - 1)),
                    seq_val(fb.skip(n - i)),
                    tx.as_int(),
                    ty.as_int(),
                    t.as_int(),
                    out.as_int(),
                    c0,
                    carry.as_int(),
                    pow10(i as nat),
                    pow10((i + 1) as nat),
                    0,
                );
            }
            i += 1;
        }
    }
    proof {
        assert(fa.skip(0) =~= fa);
        assert(fb.skip(0) =~= fb);
        if n == 0 {
            assert(fa =~= Seq::<Digits>::empty());
            assert(fb =~= Seq::<Digits>::empty());
        }
    }
    (low_digits, carry)
}

/// Runs the ascending chain of nine's-complement subtraction over two
/// aligned integer runs, starting from the carry handed across the
/// fraction boundary; returns the produced digits least-significant first
/// together with the carry out of the topmost place.
#[verifier::rlimit(100)]
#[verifier::loop_isolation(false)]
fn sub_integer_run(x: &Vec<Digits>, y: &Vec<Digits>, carry_in: Digits) -> (r: (Vec<Digits>, Digits))
    requires
        carry_in.as_int() <= 1,
    ensures
        ({
            let m = run_max_len(x@, y@);
            &&& r.1.as_int() <= 1
            &&& r.0@.len() == m
            &&& rev_val(r.0@) == seq_val(pad_front(x@, m)) - seq_val(pad_front(y@, m))
                + r.1.as_int() * pow10(m) - carry_in.as_int()
        }),
{
    let ghost ga = pad_front(x@, run_max_len(x@, y@));
    let ghost gb = pad_front(y@, run_max_len(x@, y@));
    proof {
        lemma_pad_front_val(x@, run_max_len(x@, y@));
        lemma_pad_front_val(y@, run_max_len(x@, y@));
        vstd::arithmetic::power::lemma_pow0(10);
    }
    let m: usize = if x.len() >= y.len() {
        x.len()
    } else {
        y.len()
    };
    let mut high_digits: Vec<Digits> = Vec::new();
    let mut carry = carry_in;
    if m != 0 {
        let mut aligned = IntegersByAscendingPower::new(x, y);
        let mut i: usize = 0;
        while i < m
            invariant
                i <= m,
                aligned.remaining() == integer_asc_pairs(x@, y@).skip(i as int),
                carry.as_int() <= 1,
                high_digits@.len() == i,
                rev_val(high_digits@) == seq_val(ga.skip(m - i)) - seq_val(gb.skip(m - i))
                    + carry.as_int() * pow10(i as nat) - carry_in.as_int(),
            decreases m - i,
        {
            let p = aligned.next();
            let (tx, ty) = p.unwrap();
            proof {
                let pairs = integer_asc_pairs(x@, y@);
                assert(pairs.skip(i as int)[0] == pairs[i as int]);
                assert(pairs[i as int] == integer_desc_pairs(x@, y@)[m - 1 - i]);
                assert(tx == ga[m - 1 - i] && ty == gb[m - 1 - i]);
                lemma_seq_val_skip_step(ga, m - 1 - i);
                lemma_seq_val_skip_step(gb, m - 1 - i);
            }
            let ghost prev = high_digits@;
            let ghost c0 = carry.as_int();
            let (t, c) = Digits::complement(tx).fused_addition(ty, carry);
            let out = Digits::complement(t);
            high_digits.push(out);
            carry = c;
            proof {
                lemma_rev_val_push(prev, out);
                lemma_pow10_adds(i as nat, 1);
                vstd::arithmetic::power::lemma_pow1(10);
                assert(pow10((i + 1) as nat) == pow10(i as nat) * 10);
                lemma_sub_chain_step(
                    rev_val(high_digits@),
                    rev_val(prev),
                    seq_val(ga.skip(m - i - 1)),
                    seq_val(ga.skip(m - i)),
                    seq_val(gb.skip(m - i - 1)),
                    seq_val(gb.skip(m - i)),
                    tx.as_int(),
                    ty.as_int(),
                    t.as_int(),
                    out.as_int(),
                    c0,
                    carry.as_int(),
                    pow10(i as nat),
                    pow10((i + 1) as nat),
                    carry_in.as_int(),
                );
            }
            i += 1;
        }
        proof {
            assert(ga.skip(0) =~= ga);
            assert(gb.skip(0) =~= gb);
        }
    } else {
        proof {
            assert(ga =~= Seq::<Digits>::empty());
            assert(gb =~= Seq::<Digits>::empty());
        }
    }
    (high_digits, carry)
}

impl BigNumber {
    /// Adds the magnitudes of `x` and `y` place by place: the fractional
    /// runs first, by ascending place value, then the integer runs, with
    /// the carry threaded across the boundary; a final carry becomes a new
    /// leading digit.  The result carries `x`'s sign and the finer of the
    /// two scales.
    fn add_helper(x: &BigNumber, y: &BigNumber) -> (r: BigNumber)
        ensures
            r.sign == x.sign,
            r.scale() == x.common_scale(*y),
            r.mag() == x.mag_at(x.common_scale(*y)) + y.mag_at(x.common_scale(*y)),
    {
        let ghost k = x.common_scale(*y);
        let (low_digits, carry) = add_decimal_run(&x.decimal, &y.decimal);
        let result_decimal = reversed(&low_digits);
        let high_digits = add_integer_run(&x.integer, &y.integer, carry);
        let result_integer = reversed(&high_digits);
        let ghost c_boundary = carry.as_int();
        let ghost m = run_max_len(x.integer@, y.integer@);
        let r = BigNumber { integer: result_integer, decimal: result_decimal, sign: x.sign };
        proof {
            lemma_rev_val_reverse(low_digits@);
            lemma_rev_val_reverse(high_digits@);
            lemma_pad_front_val(x.integer@, m);
            lemma_pad_front_val(y.integer@, m);
            lemma_mag_at_expand(*x, k);
            lemma_mag_at_expand(*y, k);
            assert(r.mag() == seq_val(result_integer@) * pow10(k) + seq_val(result_decimal@));
            lemma_add_assemble(
                seq_val(result_integer@),
                seq_val(result_decimal@),
                seq_val(x.integer@),
                seq_val(y.integer@),
                seq_val(pad_back(x.decimal@, k)),
                seq_val(pad_back(y.decimal@, k)),
                c_boundary,
                pow10(k),
            );
            assert(r.mag() == x.mag_at(k) + y.mag_at(k));
        }
        r
    }

    /// Subtracts the magnitude of `y` from that of `x` by nine's
    /// complement: each of `x`'s digits is complemented, added to `y`'s
    /// aligned digit through the ordinary carry chain, and the resulting
    /// digit complemented back, fraction run first and the carry threaded
    /// across the boundary.  `x`'s magnitude must not be below `y`'s; the
    /// result is positive and carries the finer of the two scales.
    fn sub_helper(x: &BigNumber, y: &BigNumber) -> (r: BigNumber)
        requires
            x.mag_at(x.common_scale(*y)) >= y.mag_at(x.common_scale(*y)),
        ensures
            r.sign == Sign::Positive,
            r.scale() == x.common_scale(*y),
            r.mag() == x.mag_at(x.common_scale(*y)) - y.mag_at(x.common_scale(*y)),
    {
        let ghost k = x.common_scale(*y);
        let (low_digits, frac_carry) = sub_decimal_run(&x.decimal, &y.decimal);
        let result_decimal = reversed(&low_digits);
        let (high_digits, end_carry) = sub_integer_run(&x.integer, &y.integer, frac_carry);
        let result_integer = reversed(&high_digits);
        let ghost c_f = frac_carry.as_int();
        let ghost c_end = end_carry.as_int();
        let ghost m = run_max_len(x.integer@, y.integer@);
        let r = BigNumber { integer: result_integer, decimal: result_decimal, sign: Sign::Positive };
        proof {
            let ia = seq_val(x.integer@);
            let ib = seq_val(y.integer@);
            let fav = seq_val(pad_back(x.decimal@, k));
            let fbv = seq_val(pad_back(y.decimal@, k));
            lemma_rev_val_reverse(low_digits@);
            lemma_rev_val_reverse(high_digits@);
            lemma_pad_front_val(x.integer@, m);
            lemma_pad_front_val(y.integer@, m);
            lemma_mag_at_expand(*x, k);
            lemma_mag_at_expand(*y, k);
            lemma_pow10_adds(m, k);
            assert(r.mag() == seq_val(result_integer@) * pow10(k) + seq_val(result_decimal@));
            lemma_sub_assemble(
                seq_val(result_integer@),
                seq_val(result_decimal@),
                ia,
                ib,
                fav,
                fbv,
                c_end,
                c_f,
                pow10(m),
                pow10(k),
                pow10((m + k) as nat),
            );
            assert(r.mag() == x.mag_at(k) - y.mag_at(k) + c_end * pow10((m + k) as nat));
            // The final carry must be zero: otherwise the result's magnitude,
            // which fits in m + k digit places, would reach 10^(m + k).
            lemma_seq_val_bounds(result_integer@);
            lemma_seq_val_bounds(result_decimal@);
            lemma_two_part_bound(seq_val(result_integer@), seq_val(result_decimal@), m, k);
            lemma_seq_val_bounds(x.integer@);
            assert(pow10(x.integer@.len()) <= pow10(m)) by {
                vstd::arithmetic::power::lemma_pow_increases(10, x.integer@.len(), m);
            }
            lemma_seq_val_bounds(pad_back(x.decimal@, k));
            lemma_pad_back_val(x.decimal@, k);
            lemma_two_part_bound(ia, fav, m, k);
            lemma_mag_at_nonneg(*y, k);
            assert(x.mag_at(k) - y.mag_at(k) < pow10((m + k) as nat));
            assert(c_end == 0);
            assert(r.mag() == x.mag_at(k) - y.mag_at(k));
        }
        r
    }

    /// Compares the magnitudes of two numbers, ignoring their signs: a
    /// longer integer run wins outright, equal-length integer runs are
    /// compared digit by digit from the most-significant place, and equal
    /// integer runs leave the decision to the aligned fractional digits,
    /// walked from the most-significant fractional place.
    #[verifier::loop_isolation(false)]
    fn compare_magnitude(&self, other: &BigNumber) -> (r: Ordering)
        requires
            self.integer_run_normal(),
            other.integer_run_normal(),
        ensures
            r == spec_mag_cmp(*self, *other),
    {
        let ghost k = self.common_scale(*other);
        if self.integer.len() > other.integer.len() {
            proof {
                lemma_longer_integer_run(*self, *other, k);
            }
            return Ordering::Greater;
        }
        if other.integer.len() > self.integer.len() {
            proof {
                lemma_longer_integer_run(*other, *self, k);
            }
            return Ordering::Less;
        }
        // Equal integer-run lengths: the lexicographic order of the digit
        // runs is the numeric order.
        let len_i: usize = self.integer.len();
        proof {
            assert(pad_front(self.integer@, len_i as nat) =~= self.integer@);
            assert(pad_front(other.integer@, len_i as nat) =~= other.integer@);
            assert(integer_desc_pairs(self.integer@, other.integer@).len() == len_i);
        }
        let mut walker = IntegersByDescendingPower::new(&self.integer, &other.integer);
        let mut i: usize = 0;
        while i < len_i
            invariant
                i <= len_i,
                walker.remaining() == integer_desc_pairs(self.integer@, other.integer@).skip(
                    i as int,
                ),
                forall|j: int| 0 <= j < i ==> self.integer@[j] == other.integer@[j],
            decreases len_i - i,
        {
            let p = walker.next();
            let (dx, dy) = p.unwrap();
            proof {
                let pairs = integer_desc_pairs(self.integer@, other.integer@);
                assert(pairs.skip(i as int)[0] == pairs[i as int]);
                assert(dx == self.integer@[i as int] && dy == other.integer@[i as int]);
            }
            let vx = dx.to_usize();
            let vy = dy.to_usize();
            if vx < vy {
                proof {
                    lemma_seq_val_lex(self.integer@, other.integer@, i as int);
                    lemma_integer_run_dominates_at(*other, *self, k);
                }
                return Ordering::Less;
            }
            if vx > vy {
                proof {
                    lemma_seq_val_lex(other.integer@, self.integer@, i as int);
                    lemma_integer_run_dominates_at(*self, *other, k);
                }
                return Ordering::Greater;
            }
            i += 1;
        }
        proof {
            assert(self.integer@ =~= other.integer@);
        }
        // Equal integer runs: the aligned fractional digits decide.
        let ghost fa = pad_back(self.decimal@, k);
        let ghost fb = pad_back(other.decimal@, k);
        proof {
            lemma_pad_back_val(self.decimal@, k);
            lemma_pad_back_val(other.decimal@, k);
            lemma_mag_at_expand(*self, k);
            lemma_mag_at_expand(*other, k);
        }
        let n: usize = if self.decimal.len() >= other.decimal.len() {
            self.decimal.len()
        } else {
            other.decimal.len()
        };
        let mut fraction_walker = DecimalsByDescendingPower::new(&self.decimal, &other.decimal);
        let mut i: usize = 0;
        while i < n
            invariant
                i <= n,
                fraction_walker.remaining() == decimal_desc_pairs(
                    self.decimal@,
                    other.decimal@,
                ).skip(i as int),
                forall|j: int| 0 <= j < i ==> fa[j] == fb[j],
            decreases n - i,
        {
            let p = fraction_walker.next();
            let (dx, dy) = p.unwrap();
            proof {
                let pairs = decimal_desc_pairs(self.decimal@, other.decimal@);
                assert(pairs.skip(i as int)[0] == pairs[i as int]);
                assert(dx == fa[i as int] && dy == fb[i as int]);
            }
            let vx = dx.to_usize();
            let vy = dy.to_usize();
            if vx < vy {
                proof {
                    lemma_seq_val_lex(fa, fb, i as int);
                }
                return Ordering::Less;
            }
            if vx > vy {
                proof {
                    lemma_seq_val_lex(fb, fa, i as int);
                }
                return Ordering::Greater;
            }
            i += 1;
        }
        proof {
            assert(fa =~= fb);
        }
        Ordering::Equal
    }

    /// The total order on signed values: negative always sorts below
    /// positive, whatever the magnitudes; between equal signs the
    /// magnitudes decide, with the outcome inverted for two negative
    /// operands.
    pub fn compare(&self, rhs: &BigNumber) -> (r: Ordering)
        requires
            self.well_formed(),
            rhs.well_formed(),
        ensures
            r == spec_cmp(*self, *rhs),
    {
        let ghost k = self.common_scale(*rhs);
        proof {
            lemma_num_at_by_sign(*self, k);
            lemma_num_at_by_sign(*rhs, k);
            lemma_mag_at_nonneg(*self, k);
            lemma_mag_at_nonneg(*rhs, k);
        }
        if self.is_negative() && rhs.is_positive() {
            return Ordering::Less;
        }
        if self.is_positive() && rhs.is_negative() {
            return Ordering::Greater;
        }
        let mag_order = self.compare_magnitude(rhs);
        if self.is_positive() {
            mag_order
        } else {
            match mag_order {
                Ordering::Less => Ordering::Greater,
                Ordering::Equal => Ordering::Equal,
                Ordering::Greater => Ordering::Less,
            }
        }
    }

    /// Adds `rhs` to `self`.
    ///
    /// Same-signed operands have their magnitudes added digit by digit and
    /// keep the common sign.  Differently-signed operands reduce to a
    /// subtraction of the smaller magnitude from the larger, the result
    /// taking the sign of the larger-magnitude operand; equal magnitudes
    /// of opposite sign give the canonical zero.  The result is
    /// normalized.
    #[verifier::rlimit(100)]
    pub fn add(&self, rhs: &BigNumber) -> (r: BigNumber)
        requires
            self.well_formed(),
            rhs.well_formed(),
        ensures
            r.well_formed(),
            sum_value(r, *self, *rhs),
    {
        let ghost k = self.common_scale(*rhs);
        proof {
            lemma_num_at_by_sign(*self, k);
            lemma_num_at_by_sign(*rhs, k);
            vstd::arithmetic::power::lemma_pow0(10);
        }
        if self.is_the_same_sign_as(rhs) {
            let mut result = Self::add_helper(self, rhs);
            proof {
                assert(result.num_at(k) == result.signed());
                assert(result.num_at(k) == self.num_at(k) + rhs.num_at(k));
            }
            result.normalize();
            result
        } else {
            let mag_order = self.compare_magnitude(rhs);
            match mag_order {
                Ordering::Equal => {
                    // Opposite signs with equal magnitudes cancel.
                    let z = Self::zero();
                    proof {
                        assert(z.num_at(k) == 0);
                    }
                    z
                },
                Ordering::Greater => {
                    let mut result = Self::sub_helper(self, rhs);
                    result.sign = self.sign;
                    proof {
                        assert(result.scale() == k);
                        assert(pow10((k - result.scale()) as nat) == 1);
                        assert(result.num_at(k) == result.signed());
                        assert(result.num_at(k) == self.num_at(k) + rhs.num_at(k));
                    }
                    result.normalize();
                    result
                },
                Ordering::Less => {
                    let mut result = Self::sub_helper(rhs, self);
                    result.sign = rhs.sign;
                    proof {
                        assert(result.scale() == k);
                        assert(pow10((k - result.scale()) as nat) == 1);
                        assert(result.num_at(k) == result.signed());
                        assert(result.num_at(k) == self.num_at(k) + rhs.num_at(k));
                    }
                    result.normalize();
                    result
                },
            }
        }
    }

    /// Subtracts `rhs` from `self` by adding its negation.  The result is
    /// normalized.
    pub fn subtract(&self, rhs: &BigNumber) -> (r: BigNumber)
        requires
            self.well_formed(),
            rhs.well_formed(),
        ensures
            r.well_formed(),
            difference_value(r, *self, *rhs),
    {
        let ghost k = self.common_scale(*rhs);
        let negated_rhs = rhs.negated();
        let r = self.add(&negated_rhs);
        proof {
            assert(self.common_scale(negated_rhs) == k);
            lemma_neg_mul(rhs.signed(), pow10((k - rhs.scale()) as nat));
            assert(negated_rhs.num_at(k) == -rhs.num_at(k));
        }
        r
    }

    /// A copy of the number with the opposite sign; a zero stays positive.
    fn negated(&self) -> (r: BigNumber)
        requires
            self.well_formed(),
        ensures
            r.well_formed(),
            r.integer@ == self.integer@,
            r.decimal@ == self.decimal@,
            r.signed() == -self.signed(),
    {
        let mut r = BigNumber {
            integer: copy_digits(&self.integer),
            decimal: copy_digits(&self.decimal),
            sign: self.sign,
        };
        r.negate();
        r
    }
}

/// A number whose integer run is longer than another's — both runs free of
/// leading zeros — has the larger magnitude, whatever the fractional runs
/// hold.
proof fn lemma_longer_integer_run(x: BigNumber, y: BigNumber, k: nat)
    requires
        k >= x.scale(),
        k >= y.scale(),
        x.integer_run_normal(),
        y.integer_run_normal(),
        x.integer@.len() > y.integer@.len(),
    ensures
        x.mag_at(k) > y.mag_at(k),
{
    let lx = x.integer@.len();
    let ly = y.integer@.len();
    lemma_seq_val_leading_nonzero(x.integer@);
    lemma_seq_val_bounds(y.integer@);
    assert(pow10(ly) <= pow10((lx - 1) as nat)) by {
        vstd::arithmetic::power::lemma_pow_increases(10, ly, (lx - 1) as nat);
    }
    lemma_integer_run_dominates_at(x, y, k);
}

/// A strictly larger integer-run value dominates the whole magnitude at
/// any shared scale.
proof fn lemma_integer_run_dominates_at(x: BigNumber, y: BigNumber, k: nat)
    requires
        k >= x.scale(),
        k >= y.scale(),
        seq_val(x.integer@) > seq_val(y.integer@),
    ensures
        x.mag_at(k) > y.mag_at(k),
{
    lemma_mag_at_expand(x, k);
    lemma_mag_at_expand(y, k);
    lemma_pad_back_val(x.decimal@, k);
    lemma_pad_back_val(y.decimal@, k);
    lemma_seq_val_bounds(pad_back(x.decimal@, k));
    lemma_seq_val_bounds(pad_back(y.decimal@, k));
    let ia = seq_val(x.integer@);
    let ib = seq_val(y.integer@);
    assert((ib + 1) * pow10(k) <= ia * pow10(k)) by {
        vstd::arithmetic::mul::lemma_mul_inequality(ib + 1, ia, pow10(k));
        lemma_pow10_pos(k);
    }
    assert((ib + 1) * pow10(k) == ib * pow10(k) + pow10(k)) by {
        vstd::arithmetic::mul::lemma_mul_is_distributive_add_other_way(pow10(k), ib, 1);
    }
}

} // verus!
