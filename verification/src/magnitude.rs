//! The place-value model of a digit run.
//!
//! A run of decimal digits stored most-significant digit first denotes the
//! integer [`seq_val`]; the same run read least-significant digit first
//! denotes [`rev_val`].  This module relates those two readings, bounds them
//! by powers of ten, and proves the facts about concatenation, padding,
//! leading zeros and lexicographic order that the arithmetic engine and the
//! comparison rest on.

use vstd::prelude::*;

verus! {

use vstd::arithmetic::power::pow;
use vstd::arithmetic::power::lemma_pow_adds;
use vstd::arithmetic::power::lemma_pow_positive;
use vstd::arithmetic::mul::lemma_mul_inequality;
use vstd::arithmetic::mul::lemma_mul_is_distributive_add_other_way;
use crate::digits::Digits;

/// The `n`-th power of ten.
pub open spec fn pow10(n: nat) -> int {
    pow(10, n)
}

/// The value of a digit run read most-significant digit first.
pub open spec fn seq_val(s: Seq<Digits>) -> int
    decreases s.len(),
{
    if s.len() == 0 {
        0
    } else {
        seq_val(s.drop_last()) * 10 + s.last().as_int()
    }
}

/// The value of a digit run read least-significant digit first.
pub open spec fn rev_val(s: Seq<Digits>) -> int
    decreases s.len(),
{
    if s.len() == 0 {
        0
    } else {
        rev_val(s.drop_last()) + s.last().as_int() * pow10((s.len() - 1) as nat)
    }
}

/// A run of `n` zero digits.
pub open spec fn zeros(n: nat) -> Seq<Digits> {
    Seq::new(n, |i: int| Digits::Zero)
}

/// `s` padded with zero digits at its front (most-significant end) to
/// length `n`.
pub open spec fn pad_front(s: Seq<Digits>, n: nat) -> Seq<Digits>
    recommends
        n >= s.len(),
{
    zeros((n - s.len()) as nat) + s
}

/// `s` padded with zero digits at its back (least-significant end) to
/// length `n`.
pub open spec fn pad_back(s: Seq<Digits>, n: nat) -> Seq<Digits>
    recommends
        n >= s.len(),
{
    s + zeros((n - s.len()) as nat)
}

pub proof fn lemma_pow10_pos(n: nat)
    ensures
        pow10(n) >= 1,
{
    lemma_pow_positive(10, n);
}

pub proof fn lemma_pow10_adds(a: nat, b: nat)
    ensures
        pow10((a + b) as nat) == pow10(a) * pow10(b),
{
    lemma_pow_adds(10, a, b);
}

/// A digit run of length `n` denotes a value in `[0, 10^n)`.
pub proof fn lemma_seq_val_bounds(s: Seq<Digits>)
    ensures
        0 <= seq_val(s) < pow10(s.len()),
    decreases s.len(),
{
    if s.len() == 0 {
        assert(pow10(0) == 1) by {
            vstd::arithmetic::power::lemma_pow0(10);
        }
    } else {
        lemma_seq_val_bounds(s.drop_last());
        assert(pow10(s.len()) == pow10((s.len() - 1) as nat) * 10) by {
            lemma_pow10_adds((s.len() - 1) as nat, 1);
            vstd::arithmetic::power::lemma_pow1(10);
        }
    }
}

/// A single digit denotes its own value.
pub proof fn lemma_seq_val_singleton(d: Digits)
    ensures
        seq_val(seq![d]) == d.as_int(),
{
    let t = seq![d];
    assert(t.last() == d);
    assert(t.drop_last() =~= Seq::<Digits>::empty());
    assert(seq_val(Seq::<Digits>::empty()) == 0);
}

/// Concatenating two runs multiplies the front run's value by ten to the
/// power of the back run's length.
pub proof fn lemma_seq_val_concat(a: Seq<Digits>, b: Seq<Digits>)
    ensures
        seq_val(a + b) == seq_val(a) * pow10(b.len()) + seq_val(b),
    decreases b.len(),
{
    if b.len() == 0 {
        assert(a + b =~= a);
        assert(pow10(0) == 1) by {
            vstd::arithmetic::power::lemma_pow0(10);
        }
    } else {
        lemma_seq_val_concat(a, b.drop_last());
        assert((a + b).drop_last() =~= a + b.drop_last());
        assert((a + b).last() == b.last());
        assert(pow10(b.len()) == pow10((b.len() - 1) as nat) * 10) by {
            lemma_pow10_adds((b.len() - 1) as nat, 1);
            vstd::arithmetic::power::lemma_pow1(10);
        }
        assert(seq_val(a) * (pow10((b.len() - 1) as nat) * 10) == (seq_val(a) * pow10(
            (b.len() - 1) as nat,
        )) * 10) by {
            vstd::arithmetic::mul::lemma_mul_is_associative(
                seq_val(a),
                pow10((b.len() - 1) as nat),
                10,
            );
        }
    }
}

/// A run of zero digits denotes zero.
pub proof fn lemma_zeros_val(n: nat)
    ensures
        seq_val(zeros(n)) == 0,
    decreases n,
{
    if n > 0 {
        lemma_zeros_val((n - 1) as nat);
        assert(zeros(n).drop_last() =~= zeros((n - 1) as nat));
    }
}

/// A run denotes zero exactly when every digit in it is zero.
pub proof fn lemma_seq_val_zero_iff(s: Seq<Digits>)
    ensures
        seq_val(s) == 0 <==> (forall|i: int| 0 <= i < s.len() ==> s[i] == Digits::Zero),
    decreases s.len(),
{
    if s.len() > 0 {
        lemma_seq_val_zero_iff(s.drop_last());
        lemma_seq_val_bounds(s.drop_last());
        if seq_val(s) == 0 {
            assert(seq_val(s.drop_last()) == 0 && s.last().as_int() == 0);
            assert(s.last() == Digits::Zero);
            assert forall|i: int| 0 <= i < s.len() implies s[i] == Digits::Zero by {
                if i < s.len() - 1 {
                    assert(s.drop_last()[i] == Digits::Zero);
                } else {
                    assert(s[i] == s.last());
                }
            }
        }
        if forall|i: int| 0 <= i < s.len() ==> s[i] == Digits::Zero {
            assert(forall|i: int| 0 <= i < s.drop_last().len() ==> s.drop_last()[i] == s[i]);
            assert(s.last() == s[s.len() - 1]);
        }
    }
}

/// Zero digits padded onto the front of a run do not change its value.
pub proof fn lemma_pad_front_val(s: Seq<Digits>, n: nat)
    requires
        n >= s.len(),
    ensures
        pad_front(s, n).len() == n,
        seq_val(pad_front(s, n)) == seq_val(s),
{
    lemma_seq_val_concat(zeros((n - s.len()) as nat), s);
    lemma_zeros_val((n - s.len()) as nat);
}

/// Zero digits padded onto the back of a run scale its value by the
/// matching power of ten.
pub proof fn lemma_pad_back_val(s: Seq<Digits>, n: nat)
    requires
        n >= s.len(),
    ensures
        pad_back(s, n).len() == n,
        seq_val(pad_back(s, n)) == seq_val(s) * pow10((n - s.len()) as nat),
{
    lemma_seq_val_concat(s, zeros((n - s.len()) as nat));
    lemma_zeros_val((n - s.len()) as nat);
}

/// Splitting a run at `k` splits its value by place: the first `k` digits
/// are worth `10^(len - k)` times their own value.
pub proof fn lemma_seq_val_split(s: Seq<Digits>, k: int)
    requires
        0 <= k <= s.len(),
    ensures
        seq_val(s) == seq_val(s.take(k)) * pow10((s.len() - k) as nat) + seq_val(s.skip(k)),
{
    assert(s =~= s.take(k) + s.skip(k));
    lemma_seq_val_concat(s.take(k), s.skip(k));
}

/// Peeling one digit off the front of the suffix starting at `k`.
pub proof fn lemma_seq_val_skip_step(s: Seq<Digits>, k: int)
    requires
        0 <= k < s.len(),
    ensures
        seq_val(s.skip(k)) == s[k].as_int() * pow10((s.len() - k - 1) as nat) + seq_val(
            s.skip(k + 1),
        ),
{
    let t = s.skip(k);
    assert(t.take(1) =~= seq![s[k]]);
    assert(t.skip(1) =~= s.skip(k + 1));
    lemma_seq_val_split(t, 1);
    lemma_seq_val_singleton(s[k]);
}

/// A run whose leading digit is not zero is worth at least the place value
/// of that leading digit.
pub proof fn lemma_seq_val_leading_nonzero(s: Seq<Digits>)
    requires
        s.len() >= 1,
        s[0] != Digits::Zero,
    ensures
        seq_val(s) >= pow10((s.len() - 1) as nat),
{
    lemma_seq_val_skip_step(s, 0);
    assert(s.skip(0) =~= s);
    lemma_seq_val_bounds(s.skip(1));
    assert(s[0].as_int() >= 1);
    assert(s[0].as_int() * pow10((s.len() - 1) as nat) >= 1 * pow10((s.len() - 1) as nat)) by {
        lemma_mul_inequality(1, s[0].as_int(), pow10((s.len() - 1) as nat));
        lemma_pow10_pos((s.len() - 1) as nat);
    }
}

/// Two equal-length runs that agree on a prefix and then differ order
/// themselves by the first differing digit.
pub proof fn lemma_seq_val_lex(a: Seq<Digits>, b: Seq<Digits>, i: int)
    requires
        a.len() == b.len(),
        0 <= i < a.len(),
        forall|j: int| 0 <= j < i ==> a[j] == b[j],
        a[i].as_int() < b[i].as_int(),
    ensures
        seq_val(a) < seq_val(b),
{
    let n = a.len() as int;
    let p = pow10((n - i - 1) as nat);
    lemma_seq_val_split(a, i);
    lemma_seq_val_split(b, i);
    assert(a.take(i) =~= b.take(i));
    lemma_seq_val_skip_step(a, i);
    lemma_seq_val_skip_step(b, i);
    lemma_seq_val_bounds(a.skip(i + 1));
    lemma_seq_val_bounds(b.skip(i + 1));
    assert(pow10(((n - i) - 1) as nat) == p);
    lemma_pow10_pos((n - i - 1) as nat);
    // The low digits of `a` fall short of one extra unit at place `i`.
    assert(a[i].as_int() * p + pow10((n - i - 1) as nat) <= b[i].as_int() * p) by {
        lemma_mul_inequality(a[i].as_int() + 1, b[i].as_int(), p);
        lemma_mul_is_distributive_add_other_way(p, a[i].as_int(), 1);
    }
}

/// Two runs of equal length denoting the same value are the same run.
pub proof fn lemma_seq_val_injective(a: Seq<Digits>, b: Seq<Digits>)
    requires
        a.len() == b.len(),
        seq_val(a) == seq_val(b),
    ensures
        a == b,
    decreases a.len(),
{
    if a.len() > 0 {
        lemma_seq_val_bounds(a.drop_last());
        lemma_seq_val_bounds(b.drop_last());
        // The last digit is the value's remainder modulo ten, so the two
        // last digits agree, and with them the leading parts.
        assert(a.last().as_int() == b.last().as_int() && seq_val(a.drop_last()) == seq_val(
            b.drop_last(),
        )) by {
            let d = a.last().as_int() - b.last().as_int();
            assert(d == 10 * (seq_val(b.drop_last()) - seq_val(a.drop_last())));
            assert(-10 < d < 10);
        }
        assert(a.last() == b.last());
        lemma_seq_val_injective(a.drop_last(), b.drop_last());
        assert forall|i: int| 0 <= i < a.len() implies a[i] == b[i] by {
            if i < a.len() - 1 {
                assert(a.drop_last()[i] == b.drop_last()[i]);
            } else {
                assert(a[i] == a.last() && b[i] == b.last());
            }
        }
        assert(a =~= b);
    } else {
        assert(a =~= b);
    }
}

/// Reading a run least-significant digit first gives the value of the
/// reversed run.
pub proof fn lemma_rev_val_reverse(s: Seq<Digits>)
    ensures
        rev_val(s) == seq_val(s.reverse()),
    decreases s.len(),
{
    if s.len() > 0 {
        lemma_rev_val_reverse(s.drop_last());
        assert(s.reverse() =~= seq![s.last()] + s.drop_last().reverse());
        lemma_seq_val_concat(seq![s.last()], s.drop_last().reverse());
        lemma_seq_val_singleton(s.last());
        assert(s.drop_last().reverse().len() == s.len() - 1);
    }
}

/// The least-significant-first reading grows digit by digit at the pushed
/// digit's place value.
pub proof fn lemma_rev_val_push(s: Seq<Digits>, d: Digits)
    ensures
        rev_val(s.push(d)) == rev_val(s) + d.as_int() * pow10(s.len()),
{
    assert(s.push(d).drop_last() =~= s);
    assert(s.push(d).last() == d);
}

/// Negation moves through a product.
pub proof fn lemma_neg_mul(a: int, b: int)
    ensures
        (-a) * b == -(a * b),
{
    vstd::arithmetic::mul::lemma_mul_is_distributive_sub_other_way(b, 0, a);
}

/// Reading a magnitude split as `iv * 10^m + dv` at the coarser scale `s0`
/// regroups the powers of ten.
pub proof fn lemma_mag_rescale(iv: int, dv: int, m: nat, s0: nat)
    requires
        m <= s0,
    ensures
        (iv * pow10(m) + dv) * pow10((s0 - m) as nat) == iv * pow10(s0) + dv * pow10(
            (s0 - m) as nat,
        ),
{
    let q = pow10((s0 - m) as nat);
    lemma_pow10_adds(m, (s0 - m) as nat);
    assert((iv * pow10(m) + dv) * q == (iv * pow10(m)) * q + dv * q) by {
        vstd::arithmetic::mul::lemma_mul_is_distributive_add_other_way(q, iv * pow10(m), dv);
    }
    assert((iv * pow10(m)) * q == iv * (pow10(m) * q)) by {
        vstd::arithmetic::mul::lemma_mul_is_associative(iv, pow10(m), q);
    }
}

} // verus!
