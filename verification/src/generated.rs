//! The operations generated for an issue without batch: where they stand
//! among the stored operations, and that what was put in for one issue can be
//! taken out again.

use crate::balances::fits_all;
use crate::bytes::lex_lt;
use crate::elements::{Balance, Mode, OpMutation, OpView, Qty};
use crate::error::ErrorKind;
use crate::processor::{
    batch_lt, children_count, children_qty, del_children, del_many, del_one, fifo, ins_one,
    is_child, left_over, lemma_fifo_children, lemma_taken_children, rank_ops, taken, total_qty,
};
use crate::reversal::{as_entries, ins_many_upto, lemma_as_entries, lemma_ins_del, ops_sorted};
use crate::topologies::date_type_store_batch_id::lemma_rank_finds;
use crate::topologies::op_key::{key_of, lemma_key_order, parts_of};
use vstd::prelude::*;

verus! {

/// None of the first `n` operations was generated for the issue of `m`.
pub open spec fn no_child(ops: Seq<OpView>, m: OpMutation, n: int) -> bool {
    forall|i: int| 0 <= i < n ==> !is_child(#[trigger] ops[i], m)
}

/// All of `kids` were generated for the issue of `m`.
pub open spec fn all_children(kids: Seq<OpView>, m: OpMutation) -> bool {
    forall|k: int| 0 <= k < kids.len() ==> is_child(#[trigger] kids[k], m)
}

/// Every stored operation that was generated for the issue of `m` stands
/// before all of `kids[j..]`.
pub open spec fn children_below(ops: Seq<OpView>, m: OpMutation, kids: Seq<OpView>, j: int) -> bool {
    forall|i: int, k: int|
        0 <= i < ops.len() && j <= k < kids.len() && is_child(#[trigger] ops[i], m) ==> lex_lt(
            key_of(ops[i]),
            key_of(#[trigger] kids[k]),
        )
}

/// The operations generated for one issue stand in the order of their
/// batches.
pub proof fn lemma_children_key_order(a: OpView, b: OpView, m: OpMutation)
    requires
        is_child(a, m),
        is_child(b, m),
    ensures
        lex_lt(key_of(a), key_of(b)) <==> batch_lt(a.batch, b.batch),
{
    lemma_key_order(parts_of(a), parts_of(b));
}

/// In key order, the operations before the rank of a key have smaller keys
/// and the others do not.
pub proof fn lemma_rank_bounds(ops: Seq<OpView>, key: Seq<u8>)
    requires
        ops_sorted(ops),
    ensures
        0 <= rank_ops(ops, key) <= ops.len(),
        forall|j: int| 0 <= j < rank_ops(ops, key) ==> lex_lt(key_of(#[trigger] ops[j]), key),
        forall|j: int| rank_ops(ops, key) <= j < ops.len() ==> !lex_lt(key_of(#[trigger] ops[j]), key),
{
    lemma_as_entries(ops, key);
    let e = as_entries(ops);
    lemma_rank_finds(e, key);
    assert forall|j: int| 0 <= j < rank_ops(ops, key) implies lex_lt(
        key_of(#[trigger] ops[j]),
        key,
    ) by {
        assert(e[j].key == key_of(ops[j]));
    }
    assert forall|j: int| rank_ops(ops, key) <= j < ops.len() implies !lex_lt(
        key_of(#[trigger] ops[j]),
        key,
    ) by {
        assert(e[j].key == key_of(ops[j]));
    }
}

/// Where none of the first `n` operations was generated for the issue, none
/// is counted and none is taken out.
pub proof fn lemma_no_child(ops: Seq<OpView>, m: OpMutation, n: int)
    requires
        0 <= n <= ops.len(),
        no_child(ops, m, n),
    ensures
        children_count(ops, m, n) == 0,
        children_qty(ops, m, n) == 0,
        del_children(ops, m, n) == Ok::<Seq<OpView>, ErrorKind>(ops),
    decreases n,
{
    if n > 0 {
        assert(!is_child(ops[n - 1], m));
        lemma_no_child(ops, m, n - 1);
    }
}

/// Generated operations are counted from zero on, and one that is among the
/// first `n` is counted.
pub proof fn lemma_child_counted(ops: Seq<OpView>, m: OpMutation, n: int, i: int)
    requires
        0 <= n <= ops.len(),
    ensures
        children_count(ops, m, n) >= 0,
        0 <= i < n && is_child(ops[i], m) ==> children_count(ops, m, n) > 0,
    decreases n,
{
    if n > 0 {
        lemma_child_counted(ops, m, n - 1, i);
    }
}

/// Where no generated operation is counted, none is stored.
pub proof fn lemma_none_counted(ops: Seq<OpView>, m: OpMutation)
    requires
        children_count(ops, m, ops.len() as int) == 0,
    ensures
        no_child(ops, m, ops.len() as int),
{
    assert forall|i: int| 0 <= i < ops.len() implies !is_child(#[trigger] ops[i], m) by {
        lemma_child_counted(ops, m, ops.len() as int, i);
    }
}

/// What one more stored operation adds to the count and to the quantity of
/// the generated operations among the first `n`.
pub proof fn lemma_count_insert(ops: Seq<OpView>, m: OpMutation, p: int, o: OpView, n: int)
    requires
        0 <= p <= ops.len(),
        0 <= n <= ops.len() + 1,
    ensures
        n <= p ==> children_count(ops.insert(p, o), m, n) == children_count(ops, m, n)
            && children_qty(ops.insert(p, o), m, n) == children_qty(ops, m, n),
        n > p ==> children_count(ops.insert(p, o), m, n) == children_count(ops, m, n - 1) + (
        if is_child(o, m) {
            1int
        } else {
            0int
        }) && children_qty(ops.insert(p, o), m, n) == children_qty(ops, m, n - 1) + (if is_child(
            o,
            m,
        ) {
            o.op.qty_spec() as int
        } else {
            0int
        }),
    decreases n,
{
    let t = ops.insert(p, o);
    if n > 0 {
        lemma_count_insert(ops, m, p, o, n - 1);
        if n - 1 < p {
            assert(t[n - 1] == ops[n - 1]);
        } else if n - 1 == p {
            assert(t[n - 1] == o);
        } else {
            assert(t[n - 1] == ops[n - 2]);
        }
    }
}

/// Putting `forms[i..n]` in is putting `forms[i..n - 1]` in and then
/// `forms[n - 1]`.
pub proof fn lemma_ins_upto_last(ops: Seq<OpView>, forms: Seq<OpView>, i: int, n: int)
    requires
        0 <= i < n <= forms.len(),
    ensures
        ins_many_upto(ops, forms, i, n) == (match ins_many_upto(ops, forms, i, n - 1) {
            Ok(rest) => ins_one(rest, forms[n - 1]),
            Err(k) => Err(k),
        }),
    decreases n - i,
{
    if i + 1 < n {
        match ins_one(ops, forms[i]) {
            Ok(next) => {
                lemma_ins_upto_last(next, forms, i + 1, n);
                assert(ins_many_upto(ops, forms, i, n) == ins_many_upto(next, forms, i + 1, n));
                assert(ins_many_upto(ops, forms, i, n - 1) == ins_many_upto(
                    next,
                    forms,
                    i + 1,
                    n - 1,
                ));
            },
            Err(k) => {
                assert(ins_many_upto(ops, forms, i, n) == Err::<Seq<OpView>, ErrorKind>(k));
                assert(ins_many_upto(ops, forms, i, n - 1) == Err::<Seq<OpView>, ErrorKind>(k));
            },
        }
    } else {
        assert(ins_many_upto(ops, forms, i, n - 1) == Ok::<Seq<OpView>, ErrorKind>(ops));
        match ins_one(ops, forms[i]) {
            Ok(next) => {
                assert(ins_many_upto(next, forms, i + 1, n) == Ok::<Seq<OpView>, ErrorKind>(next));
            },
            Err(_) => {},
        }
    }
}

/// The quantity of `kids[j..]` is that of `kids[j]` and of `kids[j + 1..]`.
proof fn lemma_total_qty_step(kids: Seq<OpView>, j: int)
    requires
        0 <= j < kids.len(),
    ensures
        total_qty(kids, j) == kids[j].op.qty_spec() + total_qty(kids, j + 1),
{
}

/// After the first `j` of the operations generated for an issue are put in,
/// in key order, where none was stored: the operations are in key order and
/// in the range that is kept, the `j` are the generated operations that are
/// stored, and they stand before those that are still to come.
pub proof fn lemma_children_in(ops: Seq<OpView>, m: OpMutation, kids: Seq<OpView>, j: int)
    requires
        ops_sorted(ops),
        fits_all(ops),
        no_child(ops, m, ops.len() as int),
        all_children(kids, m),
        ops_sorted(kids),
        0 <= j <= kids.len(),
        ins_many_upto(ops, kids, 0, j) is Ok,
    ensures
        ({
            let f = ins_many_upto(ops, kids, 0, j).unwrap();
            &&& ops_sorted(f)
            &&& fits_all(f)
            &&& f.len() == ops.len() + j
            &&& children_below(f, m, kids, j)
            &&& children_count(f, m, f.len() as int) == j
            &&& children_qty(f, m, f.len() as int) == total_qty(kids, 0) - total_qty(kids, j)
        }),
    decreases j,
{
    if j == 0 {
        lemma_no_child(ops, m, ops.len() as int);
    } else {
        lemma_ins_upto_last(ops, kids, 0, j);
        lemma_children_in(ops, m, kids, j - 1);
        let f0 = ins_many_upto(ops, kids, 0, j - 1).unwrap();
        let o = kids[j - 1];
        let f = ins_many_upto(ops, kids, 0, j).unwrap();
        lemma_ins_del(f0, o);
        lemma_rank_bounds(f0, key_of(o));
        let p = rank_ops(f0, key_of(o));
        assert(f == f0.insert(p, o));
        lemma_count_insert(f0, m, p, o, f.len() as int);
        lemma_total_qty_step(kids, j - 1);
        assert forall|i: int, k: int|
            0 <= i < f.len() && j <= k < kids.len() && is_child(#[trigger] f[i], m) implies lex_lt(
            key_of(f[i]),
            key_of(#[trigger] kids[k]),
        ) by {
            if i < p {
                assert(f[i] == f0[i]);
            } else if i == p {
                assert(f[i] == kids[j - 1]);
            } else {
                assert(f[i] == f0[i - 1]);
            }
        }
    }
}

/// The operations generated for an issue, put in in key order where none was
/// stored, are taken out again by taking out the generated operations, the
/// last one first, and the operations are as before.
pub proof fn lemma_children_out(ops: Seq<OpView>, m: OpMutation, kids: Seq<OpView>, j: int, n: int)
    requires
        ops_sorted(ops),
        fits_all(ops),
        no_child(ops, m, ops.len() as int),
        all_children(kids, m),
        ops_sorted(kids),
        0 <= j <= kids.len(),
        ins_many_upto(ops, kids, 0, j) is Ok,
        0 <= n <= ins_many_upto(ops, kids, 0, j).unwrap().len(),
        forall|i: int|
            n <= i < ins_many_upto(ops, kids, 0, j).unwrap().len() ==> !is_child(
                #[trigger] ins_many_upto(ops, kids, 0, j).unwrap()[i],
                m,
            ),
    ensures
        del_children(ins_many_upto(ops, kids, 0, j).unwrap(), m, n) == Ok::<Seq<OpView>, ErrorKind>(
            ops,
        ),
    decreases j, n,
{
    if j == 0 {
        assert(no_child(ops, m, n));
        lemma_no_child(ops, m, n);
    } else {
        lemma_ins_upto_last(ops, kids, 0, j);
        lemma_children_in(ops, m, kids, j - 1);
        let f0 = ins_many_upto(ops, kids, 0, j - 1).unwrap();
        let o = kids[j - 1];
        let f = ins_many_upto(ops, kids, 0, j).unwrap();
        lemma_ins_del(f0, o);
        lemma_rank_bounds(f0, key_of(o));
        let p = rank_ops(f0, key_of(o));
        assert(f == f0.insert(p, o));
        assert(f[p] == o);
        assert forall|i: int| p <= i < f0.len() implies !is_child(#[trigger] f0[i], m) by {
            if is_child(f0[i], m) {
                assert(lex_lt(key_of(f0[i]), key_of(kids[j - 1])));
            }
        }
        if n <= p {
            assert(is_child(f[p], m));
            assert(false);
        } else if n == p + 1 {
            assert(f.remove(p) =~= f0);
            lemma_children_out(ops, m, kids, j - 1, p);
        } else {
            assert(f[n - 1] == f0[n - 2]);
            assert(!is_child(f[n - 1], m));
            assert(del_children(f, m, n) == del_children(f, m, n - 1));
            assert forall|i: int| n - 1 <= i < f.len() implies !is_child(#[trigger] f[i], m) by {
                if i == n - 1 {
                } else {
                }
            }
            lemma_children_out(ops, m, kids, j, n - 1);
        }
    }
}

/// The operations among the first `n` that were generated for the issue of
/// `m`, in the order in which they are stored.
pub open spec fn stored_children(ops: Seq<OpView>, m: OpMutation, n: int) -> Seq<OpView>
    decreases n,
{
    if n <= 0 {
        Seq::empty()
    } else if is_child(ops[n - 1], m) {
        stored_children(ops, m, n - 1).push(ops[n - 1])
    } else {
        stored_children(ops, m, n - 1)
    }
}

/// Taking `forms[..n]` out reads no more than `forms[..n]`.
proof fn lemma_del_many_reads(ops: Seq<OpView>, f: Seq<OpView>, g: Seq<OpView>, n: int)
    requires
        0 <= n <= f.len(),
        n <= g.len(),
        forall|j: int| 0 <= j < n ==> f[j] == g[j],
    ensures
        del_many(ops, f, 0, n) == del_many(ops, g, 0, n),
    decreases n,
{
    if n > 0 {
        match del_one(ops, f[n - 1]) {
            Ok(next) => {
                lemma_del_many_reads(next, f, g, n - 1);
            },
            Err(_) => {},
        }
    }
}

/// The generated operations among the first `n` are the same after an
/// operation that stands behind them is taken out.
proof fn lemma_stored_children_below(ops: Seq<OpView>, m: OpMutation, p: int, n: int)
    requires
        0 <= n <= p < ops.len(),
    ensures
        stored_children(ops.remove(p), m, n) == stored_children(ops, m, n),
    decreases n,
{
    if n > 0 {
        lemma_stored_children_below(ops, m, p, n - 1);
        assert(ops.remove(p)[n - 1] == ops[n - 1]);
    }
}

/// Taking the generated operations out is taking out the operations that are
/// stored for the issue, the last one first.
pub proof fn lemma_del_children_is_del_many(ops: Seq<OpView>, m: OpMutation, n: int)
    requires
        ops_sorted(ops),
        fits_all(ops),
        0 <= n <= ops.len(),
    ensures
        del_children(ops, m, n) == del_many(
            ops,
            stored_children(ops, m, n),
            0,
            stored_children(ops, m, n).len() as int,
        ),
    decreases n,
{
    let kids = stored_children(ops, m, n);
    if n > 0 {
        let o = ops[n - 1];
        if is_child(o, m) {
            let kids0 = stored_children(ops, m, n - 1);
            assert(kids == kids0.push(o));
            crate::idempotence::lemma_present_iff(ops, key_of(o));
            assert(rank_ops(ops, key_of(o)) == n - 1);
            assert(crate::processor::found(ops, o));
            if fits_all(ops.remove(n - 1)) {
                let next = ops.remove(n - 1);
                crate::reversal::lemma_del_ins(ops, o);
                lemma_del_children_is_del_many(next, m, n - 1);
                lemma_stored_children_below(ops, m, n - 1, n - 1);
                lemma_del_many_reads(next, kids, kids0, kids0.len() as int);
            }
        } else {
            lemma_del_children_is_del_many(ops, m, n - 1);
        }
    }
}

/// After the generated operations are taken out, none is stored.
pub proof fn lemma_del_children_leaves_none(ops: Seq<OpView>, m: OpMutation, n: int)
    requires
        0 <= n <= ops.len(),
        forall|i: int| n <= i < ops.len() ==> !is_child(#[trigger] ops[i], m),
        del_children(ops, m, n) is Ok,
    ensures
        no_child(del_children(ops, m, n).unwrap(), m, del_children(ops, m, n).unwrap().len() as int),
    decreases n,
{
    if n > 0 {
        if is_child(ops[n - 1], m) {
            let next = ops.remove(n - 1);
            assert forall|i: int| n - 1 <= i < next.len() implies !is_child(
                #[trigger] next[i],
                m,
            ) by {
                assert(next[i] == ops[i + 1]);
            }
            lemma_del_children_leaves_none(next, m, n - 1);
        } else {
            lemma_del_children_leaves_none(ops, m, n - 1);
        }
    }
}

/// The operations generated for an issue depend on the mutation only by the
/// identity, the date, the store and the goods that it names.
pub proof fn lemma_taken_same(
    m: OpMutation,
    r: OpMutation,
    mode: Mode,
    balances: Seq<Balance>,
    i: int,
    remaining: int,
)
    requires
        0 <= i <= balances.len(),
        m.id == r.id,
        m.date == r.date,
        m.store == r.store,
        m.goods == r.goods,
    ensures
        taken(m, mode, balances, i, remaining) == taken(r, mode, balances, i, remaining),
    decreases balances.len() - i,
{
    if i < balances.len() {
        let take = crate::processor::take_of(balances[i], remaining);
        lemma_taken_same(m, r, mode, balances, i + 1, remaining - take);
    }
}

/// The operations generated for the batches stand in the order of the
/// batches, after `low` where all the batches do.
proof fn lemma_taken_ascending(
    m: OpMutation,
    mode: Mode,
    balances: Seq<Balance>,
    i: int,
    remaining: int,
    low: crate::elements::Batch,
)
    requires
        0 <= i <= balances.len(),
        forall|a: int, b: int|
            0 <= a < b < balances.len() ==> batch_lt(
                (#[trigger] balances[a]).batch,
                (#[trigger] balances[b]).batch,
            ),
    ensures
        (forall|a: int| i <= a < balances.len() ==> batch_lt(low, (#[trigger] balances[a]).batch))
            ==> forall|k: int|
            0 <= k < taken(m, mode, balances, i, remaining).len() ==> batch_lt(
                low,
                (#[trigger] taken(m, mode, balances, i, remaining)[k]).batch,
            ),
        forall|a: int, b: int|
            0 <= a < b < taken(m, mode, balances, i, remaining).len() ==> batch_lt(
                (#[trigger] taken(m, mode, balances, i, remaining)[a]).batch,
                (#[trigger] taken(m, mode, balances, i, remaining)[b]).batch,
            ),
    decreases balances.len() - i,
{
    let all = taken(m, mode, balances, i, remaining);
    if i < balances.len() {
        let take = crate::processor::take_of(balances[i], remaining);
        let rest = taken(m, mode, balances, i + 1, remaining - take);
        lemma_taken_ascending(m, mode, balances, i + 1, remaining - take, low);
        lemma_taken_ascending(m, mode, balances, i + 1, remaining - take, balances[i].batch);
        if take > 0 {
            assert(all[0].batch == balances[i].batch);
            if forall|a: int| i <= a < balances.len() ==> batch_lt(low, (#[trigger] balances[a]).batch) {
                assert forall|k: int| 0 <= k < all.len() implies batch_lt(
                    low,
                    (#[trigger] all[k]).batch,
                ) by {
                    if k > 0 {
                        assert(all[k] == rest[k - 1]);
                    }
                }
            }
            assert forall|a: int, b: int| 0 <= a < b < all.len() implies batch_lt(
                (#[trigger] all[a]).batch,
                (#[trigger] all[b]).batch,
            ) by {
                assert(all[b] == rest[b - 1]);
                if a > 0 {
                    assert(all[a] == rest[a - 1]);
                }
            }
        }
    }
}

/// The operations generated for an issue stand in key order, where the
/// balances stand oldest batch first, each batch once.
pub proof fn lemma_fifo_ascending(
    m: OpMutation,
    qty: Qty,
    cost: i64,
    mode: Mode,
    balances: Seq<Balance>,
    remaining: int,
)
    requires
        forall|a: int, b: int|
            0 <= a < b < balances.len() ==> batch_lt(
                (#[trigger] balances[a]).batch,
                (#[trigger] balances[b]).batch,
            ),
    ensures
        ops_sorted(fifo(m, qty, cost, mode, balances, 0, remaining)),
        all_children(fifo(m, qty, cost, mode, balances, 0, remaining), m),
{
    let all = fifo(m, qty, cost, mode, balances, 0, remaining);
    let part = taken(m, mode, balances, 0, remaining);
    let none = crate::elements::Batch { id: 0, date: 0 };
    lemma_fifo_children(m, qty, cost, mode, balances, 0, remaining);
    lemma_taken_children(m, mode, balances, 0, remaining);
    lemma_taken_ascending(m, mode, balances, 0, remaining, none);
    assert forall|a: int, b: int| 0 <= a < b < all.len() implies lex_lt(
        key_of(#[trigger] all[a]),
        key_of(#[trigger] all[b]),
    ) by {
        lemma_children_key_order(all[a], all[b], m);
        if left_over(balances, 0, remaining) != 0 {
            assert(all[b] == part[b - 1]);
            if a > 0 {
                assert(all[a] == part[a - 1]);
            } else {
                assert(all[0].batch == none);
                assert(!part[b - 1].batch.is_empty_spec());
            }
        }
    }
}

} // verus!
