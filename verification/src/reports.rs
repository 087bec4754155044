//! What the lines of a report are, over the operations that are stored.

use crate::aggregations::{balance_place, balance_places, cover, pick, places, selsum, Sel};
use crate::balances::{balance_on_date, dsum, place_of, Place};
use crate::checkpoints::check_date_store_batch::{chosen, picked, CheckEntryView, CheckFilter};
use crate::elements::{Amount, Balance, OpView};
use crate::topologies::date_type_store_batch_id::{ops_where, OpEntryView, OpFilter};
use vstd::prelude::*;

verus! {

/// The balance of a place right before `from`.
pub open spec fn opening(ops: Seq<OpView>, at: Place, from: u64) -> Amount {
    if from == 0 {
        Amount::zero()
    } else {
        balance_on_date(ops, at, (from - 1) as u64)
    }
}

/// What came in (`incoming`) or went out on a place inside `[from, till]`.
pub open spec fn moved(
    ops: Seq<OpView>,
    at: Place,
    from: u64,
    till: u64,
    incoming: bool,
) -> Amount {
    selsum(
        ops,
        Sel { at, lo: from as int, hi: till as int, incoming: Some(incoming) },
        ops.len() as int,
    )
}

/// The balance on a date is the sum over everything dated at or before it.
pub proof fn lemma_dsum_selsum(ops: Seq<OpView>, at: Place, d: u64, n: int)
    requires
        0 <= n <= ops.len(),
    ensures
        dsum(ops, at, d, n) == selsum(ops, Sel { at, lo: 0, hi: d as int, incoming: None }, n),
    decreases n,
{
    if n > 0 {
        lemma_dsum_selsum(ops, at, d, n - 1);
    }
}

/// A sum over a range of dates is the sum over its lower part and the sum
/// over its upper part.
pub proof fn lemma_selsum_range(
    ops: Seq<OpView>,
    at: Place,
    lo: int,
    mid: int,
    hi: int,
    dir: Option<bool>,
    n: int,
)
    requires
        0 <= n <= ops.len(),
        lo <= mid + 1 <= hi + 1,
    ensures
        selsum(ops, Sel { at, lo, hi, incoming: dir }, n) == selsum(
            ops,
            Sel { at, lo, hi: mid, incoming: dir },
            n,
        ).plus(selsum(ops, Sel { at, lo: mid + 1, hi, incoming: dir }, n)),
    decreases n,
{
    if n > 0 {
        lemma_selsum_range(ops, at, lo, mid, hi, dir, n - 1);
    }
}

/// A sum over both directions is the sum of what came in and what went out.
pub proof fn lemma_selsum_directions(ops: Seq<OpView>, at: Place, lo: int, hi: int, n: int)
    requires
        0 <= n <= ops.len(),
    ensures
        selsum(ops, Sel { at, lo, hi, incoming: None }, n) == selsum(
            ops,
            Sel { at, lo, hi, incoming: Some(true) },
            n,
        ).plus(selsum(ops, Sel { at, lo, hi, incoming: Some(false) }, n)),
    decreases n,
{
    if n > 0 {
        lemma_selsum_directions(ops, at, lo, hi, n - 1);
    }
}

/// A sum over dates that no operation bears is nothing.
pub proof fn lemma_selsum_beyond(ops: Seq<OpView>, sel: Sel, n: int)
    requires
        0 <= n <= ops.len(),
        forall|j: int| 0 <= j < n ==> !(sel.lo <= (#[trigger] ops[j]).date <= sel.hi),
    ensures
        selsum(ops, sel, n) == Amount::zero(),
    decreases n,
{
    if n > 0 {
        lemma_selsum_beyond(ops, sel, n - 1);
    }
}

/// Sums that take the same of every operation are equal.
pub proof fn lemma_selsum_same(ops: Seq<OpView>, a: Sel, b: Sel, n: int)
    requires
        0 <= n <= ops.len(),
        forall|j: int| 0 <= j < n ==> pick(#[trigger] ops[j], a) == pick(ops[j], b),
    ensures
        selsum(ops, a, n) == selsum(ops, b, n),
    decreases n,
{
    if n > 0 {
        lemma_selsum_same(ops, a, b, n - 1);
    }
}

/// Two sequences that agree on their first `n` operations have the same sums
/// there.
pub proof fn lemma_selsum_agree(a: Seq<OpView>, b: Seq<OpView>, sel: Sel, n: int)
    requires
        forall|j: int| 0 <= j < n ==> a[j] == b[j],
    ensures
        selsum(a, sel, n) == selsum(b, sel, n),
    decreases n,
{
    if n > 0 {
        lemma_selsum_agree(a, b, sel, n - 1);
    }
}

/// A sum over the operations that a scan returns is the sum over all stored
/// operations, where the scan admits everything that the sum takes.
pub proof fn lemma_selsum_scanned(s: Seq<OpEntryView>, f: OpFilter, sel: Sel)
    requires
        forall|o: OpView|
            place_of(o) == sel.at && sel.lo <= o.date <= sel.hi ==> #[trigger] f.admits(o),
    ensures
        selsum(ops_where(s, f), sel, ops_where(s, f).len() as int) == selsum(
            Seq::new(s.len(), |i: int| s[i].op),
            sel,
            s.len() as int,
        ),
    decreases s.len(),
{
    let all = Seq::new(s.len(), |i: int| s[i].op);
    if s.len() > 0 {
        let t = s.drop_last();
        let t_all = Seq::new(t.len(), |i: int| t[i].op);
        lemma_selsum_scanned(t, f, sel);
        lemma_selsum_agree(t_all, all, sel, t.len() as int);
        let got = ops_where(s, f);
        let got_t = ops_where(t, f);
        if f.admits(s.last().op) {
            assert(got == got_t.push(s.last().op));
            lemma_selsum_agree(got_t, got, sel, got_t.len() as int);
        } else {
            assert(pick(s.last().op, sel) == Amount::zero());
        }
    }
}

/// Everything that a scan of operations returns is stored and admitted.
pub proof fn lemma_ops_where_members(s: Seq<OpEntryView>, f: OpFilter, j: int)
    requires
        0 <= j < ops_where(s, f).len(),
    ensures
        f.admits(ops_where(s, f)[j]),
        exists|k: int| 0 <= k < s.len() && (#[trigger] s[k]).op == ops_where(s, f)[j],
    decreases s.len(),
{
    if s.len() > 0 {
        let t = s.drop_last();
        let got_t = ops_where(t, f);
        if f.admits(s.last().op) && j == got_t.len() {
            assert(s[s.len() - 1].op == ops_where(s, f)[j]);
        } else {
            lemma_ops_where_members(t, f, j);
            let k = choose|k: int| 0 <= k < t.len() && (#[trigger] t[k]).op == got_t[j];
            assert(s[k] == t[k]);
        }
    }
}

/// Everything that a scan of checkpoints returns is stored and admitted.
pub proof fn lemma_picked_members(s: Seq<CheckEntryView>, f: CheckFilter, n: int, j: int)
    requires
        0 <= n <= s.len(),
        0 <= j < picked(s, f, n).len(),
    ensures
        f.admits(picked(s, f, n)[j]),
        exists|k: int| 0 <= k < n && (#[trigger] s[k]).balance == picked(s, f, n)[j],
    decreases n,
{
    if n > 0 {
        let rest = picked(s, f, n - 1);
        if chosen(s, f, n - 1) && j == rest.len() {
            assert(s[n - 1].balance == picked(s, f, n)[j]);
        } else {
            lemma_picked_members(s, f, n - 1, j);
        }
    }
}

/// Every place among the places is the place of a balance or of an
/// operation.
pub proof fn lemma_places_members(
    balances: Seq<Balance>,
    nb: int,
    ops: Seq<OpView>,
    no: int,
    i: int,
)
    requires
        0 <= nb <= balances.len(),
        0 <= no <= ops.len(),
        0 <= i < places(balances, nb, ops, no).len(),
    ensures
        (exists|j: int| 0 <= j < nb && balance_place(#[trigger] balances[j]) == places(
            balances,
            nb,
            ops,
            no,
        )[i])
            || (exists|k: int| 0 <= k < no && place_of(#[trigger] ops[k]) == places(
                balances,
                nb,
                ops,
                no,
            )[i]),
    decreases no, nb,
{
    if no > 0 {
        let rest = places(balances, nb, ops, no - 1);
        if i < rest.len() {
            lemma_places_members(balances, nb, ops, no - 1, i);
        } else {
            assert(place_of(ops[no - 1]) == places(balances, nb, ops, no)[i]);
        }
    } else if nb > 0 {
        let rest = balance_places(balances, nb - 1);
        assert(places(balances, nb - 1, ops, 0) == rest);
        if i < rest.len() {
            lemma_places_members(balances, nb - 1, ops, 0, i);
        } else {
            assert(balance_place(balances[nb - 1]) == places(balances, nb, ops, no)[i]);
        }
    }
}

/// The first balance of a place is one of the balances, and is on the place.
pub proof fn lemma_cover_member(balances: Seq<Balance>, at: Place, n: int)
    requires
        0 <= n <= balances.len(),
        cover(balances, at, n) is Some,
    ensures
        balance_place(cover(balances, at, n).unwrap()) == at,
        exists|j: int| 0 <= j < n && #[trigger] balances[j] == cover(balances, at, n).unwrap(),
    decreases n,
{
    if n > 0 {
        if cover(balances, at, n - 1) is Some {
            lemma_cover_member(balances, at, n - 1);
        } else {
            assert(balances[n - 1] == cover(balances, at, n).unwrap());
        }
    }
}

} // verus!
