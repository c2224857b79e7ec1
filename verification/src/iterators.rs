//! Alignment iterators: lazy pair-producers that walk two digit runs of
//! possibly different lengths in a chosen direction, substituting zero
//! digits for positions past the end of the shorter run.
//!
//! Integer runs anchor at their right end (the least-significant digit), so
//! the shorter run is conceptually zero-padded at its front.  Fractional
//! runs anchor at their left end (the most-significant fractional digit),
//! so the shorter run is zero-padded at its tail.  Each alignment is walked
//! either by ascending place value (least-significant pair first, used for
//! carry propagation) or by descending place value (most-significant pair
//! first, used for short-circuiting comparison).

use vstd::prelude::*;

verus! {

use crate::digits::Digits;
use crate::magnitude::pad_back;
use crate::magnitude::pad_front;

/// The number of pairs every alignment of `a` and `b` produces: the length
/// of the longer run.
pub open spec fn run_max_len(a: Seq<Digits>, b: Seq<Digits>) -> nat {
    if a.len() >= b.len() {
        a.len()
    } else {
        b.len()
    }
}

/// The integer alignment of `a` and `b` by descending place value: both
/// runs zero-padded at the front to equal length and paired index by index.
pub open spec fn integer_desc_pairs(a: Seq<Digits>, b: Seq<Digits>) -> Seq<(Digits, Digits)> {
    pad_front(a, run_max_len(a, b)).zip_with(pad_front(b, run_max_len(a, b)))
}

/// The integer alignment of `a` and `b` by ascending place value.
pub open spec fn integer_asc_pairs(a: Seq<Digits>, b: Seq<Digits>) -> Seq<(Digits, Digits)> {
    integer_desc_pairs(a, b).reverse()
}

/// The fractional alignment of `a` and `b` by descending place value: both
/// runs zero-padded at the tail to equal length and paired index by index.
pub open spec fn decimal_desc_pairs(a: Seq<Digits>, b: Seq<Digits>) -> Seq<(Digits, Digits)> {
    pad_back(a, run_max_len(a, b)).zip_with(pad_back(b, run_max_len(a, b)))
}

/// The fractional alignment of `a` and `b` by ascending place value.
pub open spec fn decimal_asc_pairs(a: Seq<Digits>, b: Seq<Digits>) -> Seq<(Digits, Digits)> {
    decimal_desc_pairs(a, b).reverse()
}

/// Walks the integer alignment of two digit runs from the least-significant
/// place toward the most-significant one.
pub struct IntegersByAscendingPower {
    pairs: Vec<(Digits, Digits)>,
    position: usize,
}

/// Walks the integer alignment of two digit runs from the most-significant
/// place toward the least-significant one.
pub struct IntegersByDescendingPower {
    pairs: Vec<(Digits, Digits)>,
    position: usize,
}

/// Walks the fractional alignment of two digit runs from the
/// least-significant place toward the most-significant one.
pub struct DecimalsByAscendingPower {
    pairs: Vec<(Digits, Digits)>,
    position: usize,
}

/// Walks the fractional alignment of two digit runs from the
/// most-significant place toward the least-significant one.
pub struct DecimalsByDescendingPower {
    pairs: Vec<(Digits, Digits)>,
    position: usize,
}

impl IntegersByAscendingPower {
    /// The pairs this iterator has yet to produce.
    pub closed spec fn remaining(self) -> Seq<(Digits, Digits)> {
        if self.position <= self.pairs@.len() {
            self.pairs@.skip(self.position as int)
        } else {
            Seq::empty()
        }
    }

    pub fn new(first: &Vec<Digits>, second: &Vec<Digits>) -> (it: Self)
        ensures
            it.remaining() == integer_asc_pairs(first@, second@),
    {
        let ghost a = first@;
        let ghost b = second@;
        let n: usize = if first.len() >= second.len() {
            first.len()
        } else {
            second.len()
        };
        let mut pairs: Vec<(Digits, Digits)> = Vec::new();
        let mut j: usize = 0;
        while j < n
            invariant
                j <= n,
                n == run_max_len(a, b),
                a == first@,
                b == second@,
                pairs@.len() == j,
                forall|t: int| 0 <= t < j ==> pairs@[t] == integer_asc_pairs(a, b)[t],
            decreases n - j,
        {
            let da: Digits = if j < first.len() {
                first[first.len() - 1 - j]
            } else {
                Digits::Zero
            };
            let db: Digits = if j < second.len() {
                second[second.len() - 1 - j]
            } else {
                Digits::Zero
            };
            pairs.push((da, db));
            proof {
                let i = n - 1 - j;
                assert(integer_asc_pairs(a, b)[j as int] == integer_desc_pairs(a, b)[i]);
                assert(pad_front(a, n as nat)[i] == da);
                assert(pad_front(b, n as nat)[i] == db);
            }
            j += 1;
        }
        proof {
            assert(pairs@ =~= integer_asc_pairs(a, b));
        }
        let it = IntegersByAscendingPower { pairs, position: 0 };
        proof {
            assert(it.remaining() =~= it.pairs@);
        }
        it
    }

    /// Produces the next aligned pair, or `None` once the alignment is
    /// exhausted.
    pub fn next(&mut self) -> (r: Option<(Digits, Digits)>)
        ensures
            match r {
                Some(p) => {
                    &&& old(self).remaining().len() > 0
                    &&& p == old(self).remaining()[0]
                    &&& final(self).remaining() == old(self).remaining().drop_first()
                },
                None => {
                    &&& old(self).remaining().len() == 0
                    &&& final(self).remaining() == old(self).remaining()
                },
            },
    {
        if self.position < self.pairs.len() {
            let p = self.pairs[self.position];
            self.position = self.position + 1;
            proof {
                assert(self.pairs@.skip(self.position as int) =~= old(self).remaining().drop_first());
            }
            Some(p)
        } else {
            None
        }
    }
}

impl IntegersByDescendingPower {
    /// The pairs this iterator has yet to produce.
    pub closed spec fn remaining(self) -> Seq<(Digits, Digits)> {
        if self.position <= self.pairs@.len() {
            self.pairs@.skip(self.position as int)
        } else {
            Seq::empty()
        }
    }

    pub fn new(first: &Vec<Digits>, second: &Vec<Digits>) -> (it: Self)
        ensures
            it.remaining() == integer_desc_pairs(first@, second@),
    {
        let ghost a = first@;
        let ghost b = second@;
        let n: usize = if first.len() >= second.len() {
            first.len()
        } else {
            second.len()
        };
        let mut pairs: Vec<(Digits, Digits)> = Vec::new();
        let mut j: usize = 0;
        while j < n
            invariant
                j <= n,
                n == run_max_len(a, b),
                a == first@,
                b == second@,
                pairs@.len() == j,
                forall|t: int| 0 <= t < j ==> pairs@[t] == integer_desc_pairs(a, b)[t],
            decreases n - j,
        {
            let pad_a: usize = n - first.len();
            let pad_b: usize = n - second.len();
            let da: Digits = if j < pad_a {
                Digits::Zero
            } else {
                first[j - pad_a]
            };
            let db: Digits = if j < pad_b {
                Digits::Zero
            } else {
                second[j - pad_b]
            };
            pairs.push((da, db));
            proof {
                assert(pad_front(a, n as nat)[j as int] == da);
                assert(pad_front(b, n as nat)[j as int] == db);
            }
            j += 1;
        }
        proof {
            assert(pairs@ =~= integer_desc_pairs(a, b));
        }
        let it = IntegersByDescendingPower { pairs, position: 0 };
        proof {
            assert(it.remaining() =~= it.pairs@);
        }
        it
    }

    /// Produces the next aligned pair, or `None` once the alignment is
    /// exhausted.
    pub fn next(&mut self) -> (r: Option<(Digits, Digits)>)
        ensures
            match r {
                Some(p) => {
                    &&& old(self).remaining().len() > 0
                    &&& p == old(self).remaining()[0]
                    &&& final(self).remaining() == old(self).remaining().drop_first()
                },
                None => {
                    &&& old(self).remaining().len() == 0
                    &&& final(self).remaining() == old(self).remaining()
                },
            },
    {
        if self.position < self.pairs.len() {
            let p = self.pairs[self.position];
            self.position = self.position + 1;
            proof {
                assert(self.pairs@.skip(self.position as int) =~= old(self).remaining().drop_first());
            }
            Some(p)
        } else {
            None
        }
    }
}

impl DecimalsByAscendingPower {
    /// The pairs this iterator has yet to produce.
    pub closed spec fn remaining(self) -> Seq<(Digits, Digits)> {
        if self.position <= self.pairs@.len() {
            self.pairs@.skip(self.position as int)
        } else {
            Seq::empty()
        }
    }

    pub fn new(first: &Vec<Digits>, second: &Vec<Digits>) -> (it: Self)
        ensures
            it.remaining() == decimal_asc_pairs(first@, second@),
    {
        let ghost a = first@;
        let ghost b = second@;
        let n: usize = if first.len() >= second.len() {
            first.len()
        } else {
            second.len()
        };
        let mut pairs: Vec<(Digits, Digits)> = Vec::new();
        let mut j: usize = 0;
        while j < n
            invariant
                j <= n,
                n == run_max_len(a, b),
                a == first@,
                b == second@,
                pairs@.len() == j,
                forall|t: int| 0 <= t < j ==> pairs@[t] == decimal_asc_pairs(a, b)[t],
            decreases n - j,
        {
            let i: usize = n - 1 - j;
            let da: Digits = if i < first.len() {
                first[i]
            } else {
                Digits::Zero
            };
            let db: Digits = if i < second.len() {
                second[i]
            } else {
                Digits::Zero
            };
            pairs.push((da, db));
            proof {
                assert(decimal_asc_pairs(a, b)[j as int] == decimal_desc_pairs(a, b)[i as int]);
                assert(pad_back(a, n as nat)[i as int] == da);
                assert(pad_back(b, n as nat)[i as int] == db);
            }
            j += 1;
        }
        proof {
            assert(pairs@ =~= decimal_asc_pairs(a, b));
        }
        let it = DecimalsByAscendingPower { pairs, position: 0 };
        proof {
            assert(it.remaining() =~= it.pairs@);
        }
        it
    }

    /// Produces the next aligned pair, or `None` once the alignment is
    /// exhausted.
    pub fn next(&mut self) -> (r: Option<(Digits, Digits)>)
        ensures
            match r {
                Some(p) => {
                    &&& old(self).remaining().len() > 0
                    &&& p == old(self).remaining()[0]
                    &&& final(self).remaining() == old(self).remaining().drop_first()
                },
                None => {
                    &&& old(self).remaining().len() == 0
                    &&& final(self).remaining() == old(self).remaining()
                },
            },
    {
        if self.position < self.pairs.len() {
            let p = self.pairs[self.position];
            self.position = self.position + 1;
            proof {
                assert(self.pairs@.skip(self.position as int) =~= old(self).remaining().drop_first());
            }
            Some(p)
        } else {
            None
        }
    }
}

impl DecimalsByDescendingPower {
    /// The pairs this iterator has yet to produce.
    pub closed spec fn remaining(self) -> Seq<(Digits, Digits)> {
        if self.position <= self.pairs@.len() {
            self.pairs@.skip(self.position as int)
        } else {
            Seq::empty()
        }
    }

    pub fn new(first: &Vec<Digits>, second: &Vec<Digits>) -> (it: Self)
        ensures
            it.remaining() == decimal_desc_pairs(first@, second@),
    {
        let ghost a = first@;
        let ghost b = second@;
        let n: usize = if first.len() >= second.len() {
            first.len()
        } else {
            second.len()
        };
        let mut pairs: Vec<(Digits, Digits)> = Vec::new();
        let mut j: usize = 0;
        while j < n
            invariant
                j <= n,
                n == run_max_len(a, b),
                a == first@,
                b == second@,
                pairs@.len() == j,
                forall|t: int| 0 <= t < j ==> pairs@[t] == decimal_desc_pairs(a, b)[t],
            decreases n - j,
        {
            let da: Digits = if j < first.len() {
                first[j]
            } else {
                Digits::Zero
            };
            let db: Digits = if j < second.len() {
                second[j]
            } else {
                Digits::Zero
            };
            pairs.push((da, db));
            proof {
                assert(pad_back(a, n as nat)[j as int] == da);
                assert(pad_back(b, n as nat)[j as int] == db);
            }
            j += 1;
        }
        proof {
            assert(pairs@ =~= decimal_desc_pairs(a, b));
        }
        let it = DecimalsByDescendingPower { pairs, position: 0 };
        proof {
            assert(it.remaining() =~= it.pairs@);
        }
        it
    }

    /// Produces the next aligned pair, or `None` once the alignment is
    /// exhausted.
    pub fn next(&mut self) -> (r: Option<(Digits, Digits)>)
        ensures
            match r {
                Some(p) => {
                    &&& old(self).remaining().len() > 0
                    &&& p == old(self).remaining()[0]
                    &&& final(self).remaining() == old(self).remaining().drop_first()
                },
                None => {
                    &&& old(self).remaining().len() == 0
                    &&& final(self).remaining() == old(self).remaining()
                },
            },
    {
        if self.position < self.pairs.len() {
            let p = self.pairs[self.position];
            self.position = self.position + 1;
            proof {
                assert(self.pairs@.skip(self.position as int) =~= old(self).remaining().drop_first());
            }
            Some(p)
        } else {
            None
        }
    }
}

/// Over any two digit runs, walking the integer alignment by ascending
/// place value produces exactly the pairs of the descending walk in reverse
/// order — in particular the same collection of pairs — and either walk
/// produces exactly as many pairs as the longer run holds digits.
pub proof fn lemma_integer_alignment_orders(a: Seq<Digits>, b: Seq<Digits>)
    ensures
        integer_asc_pairs(a, b) == integer_desc_pairs(a, b).reverse(),
        integer_asc_pairs(a, b).to_multiset() == integer_desc_pairs(a, b).to_multiset(),
        integer_asc_pairs(a, b).len() == run_max_len(a, b),
        integer_desc_pairs(a, b).len() == run_max_len(a, b),
{
    integer_desc_pairs(a, b).lemma_reverse_to_multiset();
}

/// Over any two digit runs, walking the fractional alignment by ascending
/// place value produces exactly the pairs of the descending walk in reverse
/// order — in particular the same collection of pairs — and either walk
/// produces exactly as many pairs as the longer run holds digits.
pub proof fn lemma_decimal_alignment_orders(a: Seq<Digits>, b: Seq<Digits>)
    ensures
        decimal_asc_pairs(a, b) == decimal_desc_pairs(a, b).reverse(),
        decimal_asc_pairs(a, b).to_multiset() == decimal_desc_pairs(a, b).to_multiset(),
        decimal_asc_pairs(a, b).len() == run_max_len(a, b),
        decimal_desc_pairs(a, b).len() == run_max_len(a, b),
{
    decimal_desc_pairs(a, b).lemma_reverse_to_multiset();
}

} // verus!
