//! What it means for the store to be coherent: the running balance stored
//! with every operation and the balance of every checkpoint are the sums they
//! stand for, and a place has a checkpoint exactly where one of its operations
//! calls for it. And what putting an operation in, or taking one out, does to
//! each of these.

use crate::balances::{
    balance_on_date, dates_ascend, fits_all, lemma_dsum_insert, lemma_dsum_remove,
    lemma_psum_insert, lemma_psum_remove, place_of, psum, share, Place,
};
use crate::checkpoints::check_date_store_batch::{check_has_key, CheckEntryView};
use crate::checkpoints::check_key::{check_key_bytes, CheckParts};
use crate::elements::{Amount, Balance, BalanceForGoods, InternalOperation, OpView};
use crate::time::checkpoint_date;
use crate::topologies::date_type_store_batch_id::{keyed, sorted, OpEntryView};
use crate::topologies::op_key::{key_of, lemma_key_order, parts_of};
use vstd::prelude::*;

verus! {

/// The operations of the entries, in key order.
pub open spec fn op_seq(s: Seq<OpEntryView>) -> Seq<OpView> {
    Seq::new(s.len(), |i: int| s[i].op)
}

/// The place of a checkpoint.
pub open spec fn check_place(b: Balance) -> Place {
    Place { store: b.store, goods: b.goods, batch: b.batch }
}

/// The key of the checkpoint of a place at a month boundary.
pub open spec fn snapshot_key(at: Place, boundary: u64) -> Seq<u8> {
    check_key_bytes(
        CheckParts {
            date: boundary,
            store: at.store,
            goods: at.goods,
            batch_date: at.batch.date,
            batch_id: at.batch.id,
        },
    )
}

/// The balance with the given components.
pub open spec fn kept(a: Amount) -> BalanceForGoods {
    BalanceForGoods { qty: a.qty as i64, cost: a.cost as i64 }
}

/// The balance stored with every operation is the sum of the deltas of the
/// operations on its place up to and including it.
pub open spec fn running_ok(s: Seq<OpEntryView>) -> bool {
    forall|i: int|
        0 <= i < s.len() ==> (#[trigger] s[i]).balance.amount() == psum(
            op_seq(s),
            place_of(s[i].op),
            i + 1,
        )
}

/// Every checkpoint holds the balance of its place on its date.
pub open spec fn checkpoints_ok(ops: Seq<OpView>, c: Seq<CheckEntryView>) -> bool {
    forall|k: int|
        0 <= k < c.len() ==> (#[trigger] c[k]).balance.number.amount() == balance_on_date(
            ops,
            check_place(c[k].balance),
            c[k].balance.date,
        )
}

/// Whether some operation on the place is snapshotted under the boundary.
#[verifier::opaque]
pub open spec fn active(ops: Seq<OpView>, at: Place, boundary: u64) -> bool {
    exists|i: int|
        0 <= i < ops.len() && place_of(#[trigger] ops[i]) == at && checkpoint_date(ops[i].date)
            == Some(boundary)
}

/// The key of the checkpoint under which an operation is snapshotted.
pub open spec fn snapshot_of(o: OpView) -> Seq<u8> {
    snapshot_key(place_of(o), checkpoint_date(o.date).unwrap())
}

/// Every checkpoint is called for: some operation on its place is snapshotted
/// under its date.
pub open spec fn covered(ops: Seq<OpView>, c: Seq<CheckEntryView>) -> bool {
    forall|k: int|
        0 <= k < c.len() ==> active(ops, check_place((#[trigger] c[k]).balance), c[k].balance.date)
}

/// Whether a checkpoint is stored under the key.
#[verifier::opaque]
pub open spec fn has_snapshot(c: Seq<CheckEntryView>, key: Seq<u8>) -> bool {
    check_has_key(c, key)
}

/// Every operation has the checkpoint under which it is snapshotted.
pub open spec fn snapshotted(ops: Seq<OpView>, c: Seq<CheckEntryView>) -> bool {
    forall|i: int|
        0 <= i < ops.len() ==> checkpoint_date((#[trigger] ops[i]).date) is Some && has_snapshot(
            c,
            snapshot_of(ops[i]),
        )
}

/// A place has a checkpoint at a month boundary exactly where one of its
/// operations is snapshotted under that boundary.
pub open spec fn snapshots_ok(ops: Seq<OpView>, c: Seq<CheckEntryView>) -> bool {
    covered(ops, c) && snapshotted(ops, c)
}

/// No operation is snapshotted under a boundary after the latest one written.
pub open spec fn latest_ok(ops: Seq<OpView>, latest: u64) -> bool {
    forall|i: int|
        0 <= i < ops.len() ==> (checkpoint_date((#[trigger] ops[i]).date) matches Some(m) ==> m
            <= latest)
}

/// Along sorted keys the dates never descend.
pub proof fn lemma_dates_ascend(s: Seq<OpEntryView>)
    requires
        sorted(s),
        keyed(s),
    ensures
        dates_ascend(op_seq(s)),
{
    let ops = op_seq(s);
    assert forall|i: int, j: int| 0 <= i < j < ops.len() implies (#[trigger] ops[i]).date <= (
    #[trigger] ops[j]).date by {
        assert(crate::bytes::lex_lt(s[i].key, s[j].key));
        assert(s[i].key == key_of(s[i].op));
        assert(s[j].key == key_of(s[j].op));
        lemma_key_order(parts_of(s[i].op), parts_of(s[j].op));
    }
}

/// The delta of a movement, or its opposite where the movement is taken back.
pub open spec fn signed(op: InternalOperation, is_dependent: bool, forward: bool) -> Amount {
    if forward {
        op.delta(is_dependent)
    } else {
        op.delta(is_dependent).neg()
    }
}

/// Running balances stay the sums they stand for when an operation is put in
/// at `p` with the balance before it and its delta, and every later balance of
/// its place is raised by that delta.
pub proof fn lemma_running_after_insert(
    s0: Seq<OpEntryView>,
    s2: Seq<OpEntryView>,
    p: int,
    o: OpView,
)
    requires
        running_ok(s0),
        0 <= p <= s0.len(),
        s2.len() == s0.len() + 1,
        op_seq(s2) == op_seq(s0).insert(p, o),
        forall|i: int| 0 <= i < p ==> (#[trigger] s2[i]).balance == s0[i].balance,
        s2[p].balance.amount() == psum(op_seq(s0), place_of(o), p).plus(o.delta()),
        forall|i: int|
            p < i < s2.len() ==>
                (#[trigger] s2[i]).balance.amount() == s0[i - 1].balance.amount().plus(
                share(o, place_of(s0[i - 1].op)),
            ),
    ensures
        running_ok(s2),
        fits_all(op_seq(s2)),
{
    let ops0 = op_seq(s0);
    let ops1 = op_seq(s2);
    assert forall|i: int| 0 <= i < s2.len() implies (#[trigger] s2[i]).balance.amount() == psum(
        ops1,
        place_of(s2[i].op),
        i + 1,
    ) by {
        assert(s2[i].op == ops1[i]);
        lemma_psum_insert(ops0, p, o, place_of(s2[i].op), i + 1);
        if i < p {
            assert(ops1[i] == ops0[i]);
            assert(s0[i].op == ops0[i]);
        } else if i > p {
            assert(ops1[i] == ops0[i - 1]);
            assert(s0[i - 1].op == ops0[i - 1]);
        }
    }
    assert forall|i: int| 0 <= i < ops1.len() implies (#[trigger] psum(
        ops1,
        place_of(ops1[i]),
        i + 1,
    )).fits() by {
        assert(s2[i].op == ops1[i]);
        assert(s2[i].balance.amount() == psum(ops1, place_of(s2[i].op), i + 1));
    }
}

/// Checkpoints stay the balances they stand for when an operation is put in
/// and every checkpoint of its place dated at or after it is raised by its
/// delta.
pub proof fn lemma_checkpoints_after_insert(
    ops0: Seq<OpView>,
    p: int,
    o: OpView,
    c0: Seq<CheckEntryView>,
    c1: Seq<CheckEntryView>,
)
    requires
        checkpoints_ok(ops0, c0),
        0 <= p <= ops0.len(),
        c1.len() == c0.len(),
        forall|k: int|
            0 <= k < c0.len() ==> check_place((#[trigger] c1[k]).balance) == check_place(
                c0[k].balance,
            ) && c1[k].balance.date == c0[k].balance.date,
        forall|k: int|
            0 <= k < c0.len() ==> (#[trigger] c1[k]).balance.number.amount() == (if check_place(
                c0[k].balance,
            ) == place_of(o) && c0[k].balance.date >= o.date {
                c0[k].balance.number.amount().plus(o.delta())
            } else {
                c0[k].balance.number.amount()
            }),
    ensures
        checkpoints_ok(ops0.insert(p, o), c1),
{
    let ops1 = ops0.insert(p, o);
    assert forall|k: int| 0 <= k < c1.len() implies (#[trigger] c1[k]).balance.number.amount()
        == balance_on_date(ops1, check_place(c1[k].balance), c1[k].balance.date) by {
        assert(c0[k].balance.number.amount() == balance_on_date(
            ops0,
            check_place(c0[k].balance),
            c0[k].balance.date,
        ));
        lemma_dsum_insert(
            ops0,
            p,
            o,
            check_place(c1[k].balance),
            c1[k].balance.date,
            ops1.len() as int,
        );
    }
}

/// Every checkpoint is still called for after one more operation.
pub proof fn lemma_covered_insert_op(ops0: Seq<OpView>, p: int, o: OpView, c: Seq<CheckEntryView>)
    requires
        covered(ops0, c),
        0 <= p <= ops0.len(),
    ensures
        covered(ops0.insert(p, o), c),
{
    reveal(active);
    let ops1 = ops0.insert(p, o);
    assert forall|k: int| 0 <= k < c.len() implies active(
        ops1,
        check_place((#[trigger] c[k]).balance),
        c[k].balance.date,
    ) by {
        let at = check_place(c[k].balance);
        let d = c[k].balance.date;
        assert(active(ops0, at, d));
        let i = choose|i: int|
            0 <= i < ops0.len() && place_of(#[trigger] ops0[i]) == at && checkpoint_date(
                ops0[i].date,
            ) == Some(d);
        let i1 = if i < p {
            i
        } else {
            i + 1
        };
        assert(ops1[i1] == ops0[i]);
    }
}

/// Checkpoints with the places and dates of checkpoints that are called for
/// are called for.
pub proof fn lemma_covered_same_shape(
    ops: Seq<OpView>,
    c0: Seq<CheckEntryView>,
    c1: Seq<CheckEntryView>,
)
    requires
        covered(ops, c0),
        c1.len() == c0.len(),
        forall|k: int|
            0 <= k < c0.len() ==> check_place((#[trigger] c1[k]).balance) == check_place(
                c0[k].balance,
            ) && c1[k].balance.date == c0[k].balance.date,
    ensures
        covered(ops, c1),
{
    reveal(active);
    assert forall|k: int| 0 <= k < c1.len() implies active(
        ops,
        check_place((#[trigger] c1[k]).balance),
        c1[k].balance.date,
    ) by {
        assert(active(ops, check_place(c0[k].balance), c0[k].balance.date));
    }
}

/// One more checkpoint that is called for.
pub proof fn lemma_covered_insert_entry(
    ops: Seq<OpView>,
    c: Seq<CheckEntryView>,
    cp: int,
    e: CheckEntryView,
)
    requires
        covered(ops, c),
        0 <= cp <= c.len(),
        active(ops, check_place(e.balance), e.balance.date),
    ensures
        covered(ops, c.insert(cp, e)),
{
    reveal(active);
    let c2 = c.insert(cp, e);
    assert forall|k: int| 0 <= k < c2.len() implies active(
        ops,
        check_place((#[trigger] c2[k]).balance),
        c2[k].balance.date,
    ) by {
        if k < cp {
            assert(c2[k] == c[k]);
        } else if k > cp {
            assert(c2[k] == c[k - 1]);
        }
    }
}

/// Keys that were stored are stored after the balances changed.
pub proof fn lemma_snapshotted_same_keys(
    ops: Seq<OpView>,
    c0: Seq<CheckEntryView>,
    c1: Seq<CheckEntryView>,
)
    requires
        snapshotted(ops, c0),
        c1.len() == c0.len(),
        forall|k: int| 0 <= k < c0.len() ==> (#[trigger] c1[k]).key == c0[k].key,
    ensures
        snapshotted(ops, c1),
{
    reveal(has_snapshot);
    assert forall|i: int| 0 <= i < ops.len() implies checkpoint_date((#[trigger] ops[i]).date)
        is Some && has_snapshot(c1, snapshot_of(ops[i])) by {
        let key = snapshot_of(ops[i]);
        assert(check_has_key(c0, key));
        let k = choose|k: int| 0 <= k < c0.len() && #[trigger] c0[k].key == key;
        assert(c1[k].key == key);
    }
}

/// Keys that were stored are stored after one more key.
pub proof fn lemma_snapshotted_insert_entry(
    ops: Seq<OpView>,
    c: Seq<CheckEntryView>,
    cp: int,
    e: CheckEntryView,
)
    requires
        snapshotted(ops, c),
        0 <= cp <= c.len(),
    ensures
        snapshotted(ops, c.insert(cp, e)),
{
    reveal(has_snapshot);
    let c2 = c.insert(cp, e);
    assert forall|i: int| 0 <= i < ops.len() implies checkpoint_date((#[trigger] ops[i]).date)
        is Some && has_snapshot(c2, snapshot_of(ops[i])) by {
        let key = snapshot_of(ops[i]);
        assert(check_has_key(c, key));
        let k = choose|k: int| 0 <= k < c.len() && #[trigger] c[k].key == key;
        let k2 = if k < cp {
            k
        } else {
            k + 1
        };
        assert(c2[k2].key == key);
    }
}

/// One more operation whose checkpoint is stored.
pub proof fn lemma_snapshotted_insert_op(
    ops0: Seq<OpView>,
    p: int,
    o: OpView,
    c: Seq<CheckEntryView>,
)
    requires
        snapshotted(ops0, c),
        0 <= p <= ops0.len(),
        checkpoint_date(o.date) is Some,
        has_snapshot(c, snapshot_of(o)),
    ensures
        snapshotted(ops0.insert(p, o), c),
{
    let ops1 = ops0.insert(p, o);
    assert forall|i: int| 0 <= i < ops1.len() implies checkpoint_date((#[trigger] ops1[i]).date)
        is Some && has_snapshot(c, snapshot_of(ops1[i])) by {
        if i < p {
            assert(ops1[i] == ops0[i]);
        } else if i > p {
            assert(ops1[i] == ops0[i - 1]);
        }
    }
}

/// Running balances stay the sums they stand for when the operation at `p` is
/// taken out and every later balance of its place is lowered by its delta.
pub proof fn lemma_running_after_remove(s0: Seq<OpEntryView>, s2: Seq<OpEntryView>, p: int)
    requires
        running_ok(s0),
        0 <= p < s0.len(),
        s2.len() == s0.len() - 1,
        op_seq(s2) == op_seq(s0).remove(p),
        forall|i: int| 0 <= i < p ==> (#[trigger] s2[i]).balance == s0[i].balance,
        forall|i: int|
            p <= i < s2.len() ==>
                (#[trigger] s2[i]).balance.amount() == s0[i + 1].balance.amount().minus(
                share(s0[p].op, place_of(s0[i + 1].op)),
            ),
    ensures
        running_ok(s2),
        fits_all(op_seq(s2)),
{
    let ops0 = op_seq(s0);
    let ops1 = op_seq(s2);
    assert(ops0[p] == s0[p].op);
    assert forall|i: int| 0 <= i < s2.len() implies (#[trigger] s2[i]).balance.amount() == psum(
        ops1,
        place_of(s2[i].op),
        i + 1,
    ) by {
        assert(s2[i].op == ops1[i]);
        if i < p {
            lemma_psum_remove(ops0, p, place_of(s2[i].op), i + 1);
            assert(ops1[i] == ops0[i]);
            assert(s0[i].op == ops0[i]);
        } else {
            lemma_psum_remove(ops0, p, place_of(s2[i].op), i + 1);
            assert(ops1[i] == ops0[i + 1]);
            assert(s0[i + 1].op == ops0[i + 1]);
        }
    }
    assert forall|i: int| 0 <= i < ops1.len() implies (#[trigger] psum(
        ops1,
        place_of(ops1[i]),
        i + 1,
    )).fits() by {
        assert(s2[i].op == ops1[i]);
        assert(s2[i].balance.amount() == psum(ops1, place_of(s2[i].op), i + 1));
    }
}

/// Checkpoints stay the balances they stand for when an operation is taken
/// out and every checkpoint of its place dated at or after it is lowered by
/// its delta.
pub proof fn lemma_checkpoints_after_remove(
    ops0: Seq<OpView>,
    p: int,
    c0: Seq<CheckEntryView>,
    c1: Seq<CheckEntryView>,
)
    requires
        checkpoints_ok(ops0, c0),
        0 <= p < ops0.len(),
        c1.len() == c0.len(),
        forall|k: int|
            0 <= k < c0.len() ==> check_place((#[trigger] c1[k]).balance) == check_place(
                c0[k].balance,
            ) && c1[k].balance.date == c0[k].balance.date,
        forall|k: int|
            0 <= k < c0.len() ==> (#[trigger] c1[k]).balance.number.amount() == (if check_place(
                c0[k].balance,
            ) == place_of(ops0[p]) && c0[k].balance.date >= ops0[p].date {
                c0[k].balance.number.amount().minus(ops0[p].delta())
            } else {
                c0[k].balance.number.amount()
            }),
    ensures
        checkpoints_ok(ops0.remove(p), c1),
{
    let ops1 = ops0.remove(p);
    assert forall|k: int| 0 <= k < c1.len() implies (#[trigger] c1[k]).balance.number.amount()
        == balance_on_date(ops1, check_place(c1[k].balance), c1[k].balance.date) by {
        assert(c0[k].balance.number.amount() == balance_on_date(
            ops0,
            check_place(c0[k].balance),
            c0[k].balance.date,
        ));
        lemma_dsum_remove(
            ops0,
            p,
            check_place(c1[k].balance),
            c1[k].balance.date,
            ops1.len() as int,
        );
    }
}

/// Every checkpoint is still called for after an operation is taken out,
/// where its own checkpoint is still called for by another operation or is
/// stored no more.
pub proof fn lemma_covered_remove_op(ops0: Seq<OpView>, p: int, c: Seq<CheckEntryView>)
    requires
        covered(ops0, c),
        0 <= p < ops0.len(),
        checkpoint_date(ops0[p].date) is Some,
        active(ops0.remove(p), place_of(ops0[p]), checkpoint_date(ops0[p].date).unwrap())
            || forall|k: int|
            0 <= k < c.len() ==> !(check_place((#[trigger] c[k]).balance) == place_of(ops0[p])
                && c[k].balance.date == checkpoint_date(ops0[p].date).unwrap()),
    ensures
        covered(ops0.remove(p), c),
{
    let ops1 = ops0.remove(p);
    assert forall|k: int| 0 <= k < c.len() implies active(
        ops1,
        check_place((#[trigger] c[k]).balance),
        c[k].balance.date,
    ) by {
        let at = check_place(c[k].balance);
        let d = c[k].balance.date;
        assert(active(ops0, at, d));
        reveal(active);
        let i = choose|i: int|
            0 <= i < ops0.len() && place_of(#[trigger] ops0[i]) == at && checkpoint_date(
                ops0[i].date,
            ) == Some(d);
        if i != p {
            let i1 = if i < p {
                i
            } else {
                i - 1
            };
            assert(ops1[i1] == ops0[i]);
        }
    }
}

/// Every remaining checkpoint is called for.
pub proof fn lemma_covered_remove_entry(ops: Seq<OpView>, c: Seq<CheckEntryView>, cp: int)
    requires
        covered(ops, c),
        0 <= cp < c.len(),
    ensures
        covered(ops, c.remove(cp)),
{
    let c2 = c.remove(cp);
    assert forall|k: int| 0 <= k < c2.len() implies active(
        ops,
        check_place((#[trigger] c2[k]).balance),
        c2[k].balance.date,
    ) by {
        if k < cp {
            assert(c2[k] == c[k]);
        } else {
            assert(c2[k] == c[k + 1]);
        }
    }
}

/// Every remaining operation has its checkpoint.
pub proof fn lemma_snapshotted_remove_op(ops0: Seq<OpView>, p: int, c: Seq<CheckEntryView>)
    requires
        snapshotted(ops0, c),
        0 <= p < ops0.len(),
    ensures
        snapshotted(ops0.remove(p), c),
{
    let ops1 = ops0.remove(p);
    assert forall|i: int| 0 <= i < ops1.len() implies checkpoint_date((#[trigger] ops1[i]).date)
        is Some && has_snapshot(c, snapshot_of(ops1[i])) by {
        if i < p {
            assert(ops1[i] == ops0[i]);
        } else {
            assert(ops1[i] == ops0[i + 1]);
        }
    }
}

/// Every operation still has its checkpoint after a checkpoint that no
/// operation is snapshotted under is taken out.
pub proof fn lemma_snapshotted_remove_entry(ops: Seq<OpView>, c: Seq<CheckEntryView>, cp: int)
    requires
        snapshotted(ops, c),
        0 <= cp < c.len(),
        forall|i: int| 0 <= i < ops.len() ==> snapshot_of(#[trigger] ops[i]) != c[cp].key,
    ensures
        snapshotted(ops, c.remove(cp)),
{
    reveal(has_snapshot);
    let c2 = c.remove(cp);
    assert forall|i: int| 0 <= i < ops.len() implies checkpoint_date((#[trigger] ops[i]).date)
        is Some && has_snapshot(c2, snapshot_of(ops[i])) by {
        let key = snapshot_of(ops[i]);
        assert(has_snapshot(c, key));
        let k = choose|k: int| 0 <= k < c.len() && #[trigger] c[k].key == key;
        let k2 = if k < cp {
            k
        } else {
            k - 1
        };
        assert(c2[k2].key == key);
    }
}

} // verus!
