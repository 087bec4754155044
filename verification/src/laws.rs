//! Laws of the store: what holds of every coherent state and of every
//! period.

use crate::aggregations::{selsum, Sel};
use crate::balances::{
    balance_on_date, between_sum, lemma_dsum_insert, lemma_dsum_split, lemma_psum_skip, place_of,
    psum, Place,
};
use crate::bytes::{lemma_lex_lt_asymmetric, lex_lt};
use crate::coherence::{check_place, has_snapshot, snapshot_key};
use crate::db::Db;
use crate::elements::{Amount, Batch, InternalOperation, Mode, OpMutation, OpView};
use crate::error::ErrorKind;
use crate::generated::{lemma_count_insert, lemma_none_counted, lemma_rank_bounds};
use crate::processor::{
    child_of, children_count, del_phase, fifo, ins_many, ins_one, ins_phase, invalid, is_child,
    lemma_fifo_falls_back, mode_of, projected, rank_ops, step, unresolved,
};
use crate::reversal::ops_sorted;
use crate::reports::{
    lemma_dsum_selsum, lemma_selsum_beyond, lemma_selsum_range, lemma_selsum_same, moved, opening,
};
use crate::time::{checkpoint_date, is_month_start};
use crate::topologies::op_key::{key_of, lemma_key_order, parts_of};
use vstd::prelude::*;

verus! {

/// What a line of a report says of a place over a period: the balance right
/// before it, what came in, what went out, and the balance at its end.
pub open spec fn period_line(ops: Seq<OpView>, at: Place, from: u64, till: u64) -> (
    Amount,
    Amount,
    Amount,
    Amount,
) {
    (
        opening(ops, at, from),
        moved(ops, at, from, till, true),
        moved(ops, at, from, till, false),
        balance_on_date(ops, at, till),
    )
}

/// Two lines of adjoining periods as one: the opening balance of the first,
/// the movements of both, the closing balance of the second.
pub open spec fn merge_lines(
    a: (Amount, Amount, Amount, Amount),
    b: (Amount, Amount, Amount, Amount),
) -> (Amount, Amount, Amount, Amount) {
    (a.0, a.1.plus(b.1), a.2.plus(b.2), b.3)
}

/// A report over `[from, till]` is the report over `[from, t]` merged with the
/// report over `[t, till]`, for any `t` inside the period at which nothing was
/// moved on the place. (What is moved at `t` itself is part of both
/// halves.)
pub proof fn lemma_report_splits(ops: Seq<OpView>, at: Place, from: u64, t: u64, till: u64)
    requires
        from <= t <= till,
        forall|i: int| 0 <= i < ops.len() ==>
            !(place_of(#[trigger] ops[i]) == at && ops[i].date == t),
    ensures
        period_line(ops, at, from, till) == merge_lines(
            period_line(ops, at, from, t),
            period_line(ops, at, t, till),
        ),
        opening(ops, at, t) == balance_on_date(ops, at, t),
{
    let n = ops.len() as int;
    lemma_split_moved(ops, at, from, t, till, true);
    lemma_split_moved(ops, at, from, t, till, false);
    // nothing moved at `t`: the balance before `t` is the balance on `t`
    lemma_dsum_selsum(ops, at, t, n);
    if t == 0 {
        let all = Sel { at, lo: 0, hi: 0, incoming: None };
        let none = Sel { at, lo: 0, hi: -1, incoming: None };
        lemma_selsum_same(ops, all, none, n);
        lemma_selsum_beyond(ops, none, n);
    } else {
        lemma_dsum_selsum(ops, at, (t - 1) as u64, n);
        lemma_selsum_same(
            ops,
            Sel { at, lo: 0, hi: t as int, incoming: None },
            Sel { at, lo: 0, hi: t - 1, incoming: None },
            n,
        );
    }
}

proof fn lemma_split_moved(ops: Seq<OpView>, at: Place, from: u64, t: u64, till: u64, d: bool)
    requires
        from <= t <= till,
        forall|i: int| 0 <= i < ops.len() ==>
            !(place_of(#[trigger] ops[i]) == at && ops[i].date == t),
    ensures
        moved(ops, at, from, till, d) == moved(ops, at, from, t, d).plus(
            moved(ops, at, t, till, d),
        ),
{
    let n = ops.len() as int;
    lemma_selsum_range(ops, at, from as int, t as int, till as int, Some(d), n);
    lemma_selsum_same(
        ops,
        Sel { at, lo: t + 1, hi: till as int, incoming: Some(d) },
        Sel { at, lo: t as int, hi: till as int, incoming: Some(d) },
        n,
    );
}

/// A report over `[from, till]` is the report over `[from, t - 1]` merged with
/// the report over `[t, till]`, whatever was moved at `t`.
pub proof fn lemma_report_splits_before(ops: Seq<OpView>, at: Place, from: u64, t: u64, till: u64)
    requires
        from < t <= till,
    ensures
        period_line(ops, at, from, till) == merge_lines(
            period_line(ops, at, from, (t - 1) as u64),
            period_line(ops, at, t, till),
        ),
        opening(ops, at, t) == balance_on_date(ops, at, (t - 1) as u64),
{
    let n = ops.len() as int;
    lemma_selsum_range(ops, at, from as int, t - 1, till as int, Some(true), n);
    lemma_selsum_range(ops, at, from as int, t - 1, till as int, Some(false), n);
}

impl Db {
    /// Of two operations on one place with no operation on that place between
    /// them, the running balance stored with the later one is the running
    /// balance stored with the earlier one and the delta of the later one.
    pub proof fn lemma_running_balances_chain(&self, i: int, j: int)
        requires
            self.wf(),
            0 <= i < j < self.entries().len(),
            place_of(self.entries()[i].op) == place_of(self.entries()[j].op),
            forall|k: int|
                i < k < j ==> place_of(#[trigger] self.entries()[k].op) != place_of(
                    self.entries()[i].op,
                ),
        ensures
            self.entries()[j].balance.amount() == self.entries()[i].balance.amount().plus(
                self.entries()[j].op.delta(),
            ),
    {
        let s = self.entries();
        let ops = self.ops();
        let at = place_of(s[i].op);
        assert(s[i].balance.amount() == psum(ops, place_of(s[i].op), i + 1));
        assert(s[j].balance.amount() == psum(ops, place_of(s[j].op), j + 1));
        assert forall|k: int| i + 1 <= k < j implies place_of(#[trigger] ops[k]) != at by {
            assert(ops[k] == s[k].op);
        }
        lemma_psum_skip(ops, at, i + 1, j);
        assert(ops[j] == s[j].op);
    }

    /// Of two checkpoints of one place, the later one is the earlier one and
    /// what was moved on the place after the date of the earlier one, up to
    /// and including the date of the later one.
    pub proof fn lemma_checkpoints_chain(&self, a: int, b: int)
        requires
            self.wf(),
            0 <= a < self.snapshots().len(),
            0 <= b < self.snapshots().len(),
            check_place(self.snapshots()[a].balance) == check_place(self.snapshots()[b].balance),
            self.snapshots()[a].balance.date <= self.snapshots()[b].balance.date,
        ensures
            self.snapshots()[b].balance.number.amount() == self.snapshots()[
                a
            ].balance.number.amount().plus(
                between_sum(
                    self.ops(),
                    check_place(self.snapshots()[a].balance),
                    self.snapshots()[a].balance.date,
                    self.snapshots()[b].balance.date,
                    self.ops().len() as int,
                ),
            ),
    {
        let c = self.snapshots();
        let at = check_place(c[a].balance);
        assert(c[a].balance.number.amount() == balance_on_date(
            self.ops(),
            check_place(c[a].balance),
            c[a].balance.date,
        ));
        assert(c[b].balance.number.amount() == balance_on_date(
            self.ops(),
            check_place(c[b].balance),
            c[b].balance.date,
        ));
        lemma_dsum_split(
            self.ops(),
            at,
            c[a].balance.date,
            c[b].balance.date,
            self.ops().len() as int,
        );
    }

    /// Of two checkpoints of one place, the later one is the earlier one and
    /// what was moved on the place from the date of the earlier one on and
    /// before the date of the later one, where nothing was moved on the place
    /// exactly at either date.
    pub proof fn lemma_checkpoints_chain_half_open(&self, a: int, b: int)
        requires
            self.wf(),
            0 <= a < self.snapshots().len(),
            0 <= b < self.snapshots().len(),
            check_place(self.snapshots()[a].balance) == check_place(self.snapshots()[b].balance),
            self.snapshots()[a].balance.date <= self.snapshots()[b].balance.date,
            forall|i: int|
                0 <= i < self.ops().len() ==> !(place_of(#[trigger] self.ops()[i]) == check_place(
                    self.snapshots()[a].balance,
                ) && (self.ops()[i].date == self.snapshots()[a].balance.date || self.ops()[i].date
                    == self.snapshots()[b].balance.date)),
        ensures
            self.snapshots()[b].balance.number.amount() == self.snapshots()[
                a
            ].balance.number.amount().plus(
                selsum(
                    self.ops(),
                    Sel {
                        at: check_place(self.snapshots()[a].balance),
                        lo: self.snapshots()[a].balance.date as int,
                        hi: self.snapshots()[b].balance.date - 1,
                        incoming: None,
                    },
                    self.ops().len() as int,
                ),
            ),
    {
        let c = self.snapshots();
        let ops = self.ops();
        let n = ops.len() as int;
        let at = check_place(c[a].balance);
        let lo = c[a].balance.date;
        let hi = c[b].balance.date;
        self.lemma_checkpoints_chain(a, b);
        lemma_between_selsum(ops, at, lo, hi, n);
        lemma_selsum_same(
            ops,
            Sel { at, lo: lo + 1, hi: hi as int, incoming: None },
            Sel { at, lo: lo as int, hi: hi - 1, incoming: None },
            n,
        );
    }

    /// An operation dated exactly at a month boundary is snapshotted in the
    /// checkpoint at that boundary, not in the next one: the checkpoint of its
    /// place at its own date is stored.
    pub proof fn lemma_boundary_checkpoint(&self, i: int)
        requires
            self.wf(),
            0 <= i < self.ops().len(),
            is_month_start(self.ops()[i].date),
        ensures
            has_snapshot(
                self.snapshots(),
                snapshot_key(place_of(self.ops()[i]), self.ops()[i].date),
            ),
    {
        assert(checkpoint_date(self.ops()[i].date) == Some(self.ops()[i].date));
    }

    /// Of two operations stored for one instant, the one that comes in is
    /// stored before the one that goes out; the balance stored with it is the
    /// balance of its place before it and what it brings, and so is not
    /// negative where neither of the two is.
    pub proof fn lemma_tied_order(&self, i: int, j: int)
        requires
            self.wf(),
            0 <= i < self.entries().len(),
            0 <= j < self.entries().len(),
            self.entries()[i].op.date == self.entries()[j].op.date,
            self.entries()[i].op.op.incoming(self.entries()[i].op.is_dependent),
            !self.entries()[j].op.op.incoming(self.entries()[j].op.is_dependent),
        ensures
            i < j,
            self.entries()[i].balance.amount() == psum(
                self.ops(),
                place_of(self.entries()[i].op),
                i,
            ).plus(self.entries()[i].op.delta()),
            psum(self.ops(), place_of(self.entries()[i].op), i).qty >= 0
                && self.entries()[i].op.delta().qty >= 0 ==> self.entries()[i].balance.qty >= 0,
    {
        let s = self.entries();
        assert(s[i].balance.amount() == psum(self.ops(), place_of(s[i].op), i + 1));
        assert(self.ops()[i] == s[i].op);
        assert(s[i].key == key_of(s[i].op));
        assert(s[j].key == key_of(s[j].op));
        lemma_key_order(parts_of(s[i].op), parts_of(s[j].op));
        if j < i {
            assert(lex_lt(s[j].key, s[i].key));
            lemma_lex_lt_asymmetric(s[j].key, s[i].key);
        }
    }
}

/// The issue without batch that finds no stock falls back to one manual
/// issue. Where no batch of the store and goods has a positive quantity right
/// before the date of the issue, and no operation generated for the issue is
/// stored, recording the issue is putting in one operation: a dependent issue
/// of the whole quantity and cost, in manual mode, from the unspecified batch.
/// Where that succeeds it is the only operation stored for the issue, and the
/// balance of the unspecified batch on the date goes down by the quantity
/// and the cost of the issue.
pub proof fn lemma_issue_falls_back(ops: Seq<OpView>, m: OpMutation, a: InternalOperation)
    requires
        ops_sorted(ops),
        m.before is None,
        m.after == Some(a),
        unresolved(m, a),
        !invalid(m),
        children_count(ops, m, ops.len() as int) == 0,
        forall|k: int|
            0 <= k < projected(ops, m.store, m.goods, m.date).len() ==> (#[trigger] projected(
                ops,
                m.store,
                m.goods,
                m.date,
            )[k]).number.qty <= 0,
    ensures
        step(ops, m) == ins_one(
            ops,
            child_of(m, Batch { id: 0, date: 0 }, a.qty_spec(), a.cost_spec(), Mode::Manual),
        ),
        step(ops, m) matches Ok(t) ==> {
            let child = child_of(
                m,
                Batch { id: 0, date: 0 },
                a.qty_spec(),
                a.cost_spec(),
                Mode::Manual,
            );
            let at = Place { store: m.store, goods: m.goods, batch: Batch { id: 0, date: 0 } };
            &&& t == ops.insert(rank_ops(ops, key_of(child)), child)
            &&& children_count(t, m, t.len() as int) == 1
            &&& forall|i: int| 0 <= i < t.len() && is_child(#[trigger] t[i], m) ==> t[i] == child
            &&& balance_on_date(t, at, m.date) == balance_on_date(ops, at, m.date).minus(
                Amount { qty: a.qty_spec() as int, cost: a.cost_spec() as int },
            )
        },
{
    let child = child_of(m, Batch { id: 0, date: 0 }, a.qty_spec(), a.cost_spec(), Mode::Manual);
    let at = Place { store: m.store, goods: m.goods, batch: Batch { id: 0, date: 0 } };
    let balances = projected(ops, m.store, m.goods, m.date);
    let kids = fifo(m, a.qty_spec(), a.cost_spec(), mode_of(a), balances, 0, a.qty_spec() as int);
    lemma_fifo_falls_back(m, a.qty_spec(), a.cost_spec(), mode_of(a), balances, 0);
    assert(kids[0] == child);
    assert(del_phase(ops, m) == Ok::<Seq<OpView>, ErrorKind>(ops));
    assert(ins_phase(ops, m) == ins_many(ops, kids, 0));
    match ins_one(ops, child) {
        Ok(t) => {
            assert(ins_many(t, kids, 1) == Ok::<Seq<OpView>, ErrorKind>(t));
            let p = rank_ops(ops, key_of(child));
            lemma_rank_bounds(ops, key_of(child));
            lemma_none_counted(ops, m);
            lemma_count_insert(ops, m, p, child, t.len() as int);
            lemma_dsum_insert(ops, p, child, at, m.date, t.len() as int);
            assert forall|i: int| 0 <= i < t.len() && is_child(#[trigger] t[i], m) implies t[i]
                == child by {
                if i < p {
                    assert(t[i] == ops[i]);
                } else if i > p {
                    assert(t[i] == ops[i - 1]);
                }
            }
        },
        Err(_) => {},
    }
}

/// What was moved after `lo` and up to `hi`, as a sum over a range of dates.
pub proof fn lemma_between_selsum(ops: Seq<OpView>, at: Place, lo: u64, hi: u64, n: int)
    requires
        0 <= n <= ops.len(),
    ensures
        between_sum(ops, at, lo, hi, n) == selsum(
            ops,
            Sel { at, lo: lo + 1, hi: hi as int, incoming: None },
            n,
        ),
    decreases n,
{
    if n > 0 {
        lemma_between_selsum(ops, at, lo, hi, n - 1);
    }
}

} // verus!
