//! Balances as sums over the operations in key order: the running balance
//! after an operation, and the balance on a date.

use crate::elements::{Amount, Batch, Goods, OpView, Store};
use vstd::prelude::*;

verus! {

/// Where stock is kept apart: a store, a kind of goods and a batch.
pub struct Place {
    pub store: Store,
    pub goods: Goods,
    pub batch: Batch,
}

/// The place of an operation.
pub open spec fn place_of(o: OpView) -> Place {
    Place { store: o.store, goods: o.goods, batch: o.batch }
}

/// What an operation adds to the balance of a place: its delta where it is on
/// that place, else nothing.
pub open spec fn share(o: OpView, at: Place) -> Amount {
    if place_of(o) == at {
        o.delta()
    } else {
        Amount::zero()
    }
}

/// The sum of the deltas of the first `n` operations that are on `at`.
pub open spec fn psum(ops: Seq<OpView>, at: Place, n: int) -> Amount
    decreases n,
{
    if n <= 0 {
        Amount::zero()
    } else {
        psum(ops, at, n - 1).plus(share(ops[n - 1], at))
    }
}

/// What an operation adds to the balance of a place on a date.
pub open spec fn share_upto(o: OpView, at: Place, d: u64) -> Amount {
    if o.date <= d {
        share(o, at)
    } else {
        Amount::zero()
    }
}

/// The sum of the deltas of those of the first `n` operations that are on
/// `at` and dated at or before `d`.
pub open spec fn dsum(ops: Seq<OpView>, at: Place, d: u64, n: int) -> Amount
    decreases n,
{
    if n <= 0 {
        Amount::zero()
    } else {
        dsum(ops, at, d, n - 1).plus(share_upto(ops[n - 1], at, d))
    }
}

/// The balance of a place on a date, summed naively: the deltas of all
/// operations on the place dated at or before `d`.
pub open spec fn balance_on_date(ops: Seq<OpView>, at: Place, d: u64) -> Amount {
    dsum(ops, at, d, ops.len() as int)
}

/// The sum of the deltas of those of the first `n` operations that are on
/// `at` and dated after `lo` and at or before `hi`.
pub open spec fn between_sum(ops: Seq<OpView>, at: Place, lo: u64, hi: u64, n: int) -> Amount
    decreases n,
{
    if n <= 0 {
        Amount::zero()
    } else if lo < ops[n - 1].date <= hi {
        between_sum(ops, at, lo, hi, n - 1).plus(share(ops[n - 1], at))
    } else {
        between_sum(ops, at, lo, hi, n - 1)
    }
}

/// Dates never descend along the sequence.
pub open spec fn dates_ascend(ops: Seq<OpView>) -> bool {
    forall|i: int, j: int| 0 <= i < j < ops.len() ==>
        (#[trigger] ops[i]).date <= (#[trigger] ops[j]).date
}

/// Every running balance can be kept.
pub open spec fn fits_all(ops: Seq<OpView>) -> bool {
    forall|i: int| 0 <= i < ops.len() ==> (#[trigger] psum(ops, place_of(ops[i]), i + 1)).fits()
}

/// Operations on other places leave a running balance as it is.
pub proof fn lemma_psum_skip(ops: Seq<OpView>, at: Place, a: int, b: int)
    requires
        0 <= a <= b,
        forall|j: int| a <= j < b ==> place_of(#[trigger] ops[j]) != at,
    ensures
        psum(ops, at, b) == psum(ops, at, a),
    decreases b - a,
{
    if a < b {
        lemma_psum_skip(ops, at, a, b - 1);
    }
}

/// The running balances of a sequence with one operation put in at `p`.
pub proof fn lemma_psum_insert(ops: Seq<OpView>, p: int, o: OpView, at: Place, n: int)
    requires
        0 <= p <= ops.len(),
        0 <= n <= ops.len() + 1,
    ensures
        n <= p ==> psum(ops.insert(p, o), at, n) == psum(ops, at, n),
        n > p ==> psum(ops.insert(p, o), at, n) == psum(ops, at, n - 1).plus(share(o, at)),
    decreases n,
{
    let t = ops.insert(p, o);
    if n > 0 {
        lemma_psum_insert(ops, p, o, at, n - 1);
        if n - 1 < p {
            assert(t[n - 1] == ops[n - 1]);
        } else if n - 1 == p {
            assert(t[n - 1] == o);
        } else {
            assert(t[n - 1] == ops[n - 2]);
        }
    }
}

/// The running balances of a sequence with the operation at `p` taken out.
pub proof fn lemma_psum_remove(ops: Seq<OpView>, p: int, at: Place, n: int)
    requires
        0 <= p < ops.len(),
        0 <= n <= ops.len() - 1,
    ensures
        n <= p ==> psum(ops.remove(p), at, n) == psum(ops, at, n),
        n >= p ==> psum(ops.remove(p), at, n) == psum(ops, at, n + 1).minus(share(ops[p], at)),
    decreases n,
{
    let t = ops.remove(p);
    if n > 0 {
        lemma_psum_remove(ops, p, at, n - 1);
        if n - 1 < p {
            assert(t[n - 1] == ops[n - 1]);
        } else {
            assert(t[n - 1] == ops[n]);
        }
    }
    assert(psum(ops, at, n + 1) == psum(ops, at, n).plus(share(ops[n], at)));
}

/// The balance on a date of a sequence with one operation put in.
pub proof fn lemma_dsum_insert(ops: Seq<OpView>, p: int, o: OpView, at: Place, d: u64, n: int)
    requires
        0 <= p <= ops.len(),
        0 <= n <= ops.len() + 1,
    ensures
        n <= p ==> dsum(ops.insert(p, o), at, d, n) == dsum(ops, at, d, n),
        n > p ==> dsum(ops.insert(p, o), at, d, n) == dsum(ops, at, d, n - 1).plus(
            share_upto(o, at, d),
        ),
    decreases n,
{
    let t = ops.insert(p, o);
    if n > 0 {
        lemma_dsum_insert(ops, p, o, at, d, n - 1);
        if n - 1 < p {
            assert(t[n - 1] == ops[n - 1]);
        } else if n - 1 == p {
            assert(t[n - 1] == o);
        } else {
            assert(t[n - 1] == ops[n - 2]);
        }
    }
}

/// The balance on a date of a sequence with the operation at `p` taken out.
pub proof fn lemma_dsum_remove(ops: Seq<OpView>, p: int, at: Place, d: u64, n: int)
    requires
        0 <= p < ops.len(),
        0 <= n <= ops.len() - 1,
    ensures
        n <= p ==> dsum(ops.remove(p), at, d, n) == dsum(ops, at, d, n),
        n >= p ==> dsum(ops.remove(p), at, d, n) == dsum(ops, at, d, n + 1).minus(
            share_upto(ops[p], at, d),
        ),
    decreases n,
{
    let t = ops.remove(p);
    if n > 0 {
        lemma_dsum_remove(ops, p, at, d, n - 1);
        if n - 1 < p {
            assert(t[n - 1] == ops[n - 1]);
        } else {
            assert(t[n - 1] == ops[n]);
        }
    }
    assert(dsum(ops, at, d, n + 1) == dsum(ops, at, d, n).plus(share_upto(ops[n], at, d)));
}

/// Where dates ascend and `c` parts the operations dated at or before `d`
/// from the later ones, the balance on `d` is the running balance at `c`.
pub proof fn lemma_dsum_is_psum(ops: Seq<OpView>, at: Place, d: u64, c: int, n: int)
    requires
        0 <= c <= ops.len(),
        0 <= n <= ops.len(),
        forall|j: int| 0 <= j < c ==> (#[trigger] ops[j]).date <= d,
        forall|j: int| c <= j < ops.len() ==> (#[trigger] ops[j]).date > d,
    ensures
        dsum(ops, at, d, n) == psum(ops, at, if n <= c { n } else { c }),
    decreases n,
{
    if n > 0 {
        lemma_dsum_is_psum(ops, at, d, c, n - 1);
    }
}

/// The balance on a later date is the balance on an earlier date and what was
/// moved in between.
pub proof fn lemma_dsum_split(ops: Seq<OpView>, at: Place, lo: u64, hi: u64, n: int)
    requires
        lo <= hi,
        0 <= n <= ops.len(),
    ensures
        dsum(ops, at, hi, n) == dsum(ops, at, lo, n).plus(between_sum(ops, at, lo, hi, n)),
    decreases n,
{
    if n > 0 {
        lemma_dsum_split(ops, at, lo, hi, n - 1);
    }
}

/// Where dates ascend and every running balance can be kept, so can the
/// balance of any place on any date.
pub proof fn lemma_dsum_fits(ops: Seq<OpView>, at: Place, d: u64)
    requires
        dates_ascend(ops),
        fits_all(ops),
    ensures
        balance_on_date(ops, at, d).fits(),
{
    let c = lemma_cut(ops, d, ops.len() as int);
    lemma_dsum_is_psum(ops, at, d, c, ops.len() as int);
    lemma_psum_fits(ops, at, c);
}

/// Where dates ascend, the operations dated at or before `d` are the first
/// `c`, for some `c`.
pub proof fn lemma_cut(ops: Seq<OpView>, d: u64, n: int) -> (c: int)
    requires
        dates_ascend(ops),
        0 <= n <= ops.len(),
    ensures
        0 <= c <= n,
        forall|j: int| 0 <= j < c ==> (#[trigger] ops[j]).date <= d,
        forall|j: int| c <= j < n ==> (#[trigger] ops[j]).date > d,
    decreases n,
{
    if n == 0 {
        0
    } else if ops[n - 1].date <= d {
        assert forall|j: int| 0 <= j < n implies (#[trigger] ops[j]).date <= d by {
            if j < n - 1 {
                assert(ops[j].date <= ops[n - 1].date);
            }
        }
        n
    } else {
        lemma_cut(ops, d, n - 1)
    }
}

/// Where every running balance can be kept, so can the sum over any prefix.
pub proof fn lemma_psum_fits(ops: Seq<OpView>, at: Place, n: int)
    requires
        fits_all(ops),
        0 <= n <= ops.len(),
    ensures
        psum(ops, at, n).fits(),
    decreases n,
{
    if n > 0 {
        if place_of(ops[n - 1]) == at {
            assert(psum(ops, place_of(ops[n - 1]), (n - 1) + 1).fits());
        } else {
            lemma_psum_fits(ops, at, n - 1);
        }
    }
}

} // verus!
