//! Taking a mutation back: the mutation with before and after exchanged
//! undoes what the mutation did.

use crate::balances::fits_all;
use crate::bytes::lex_lt;
use crate::canonical::lemma_canonical;
use crate::db::Db;
use crate::elements::{BalanceForGoods, OpMutation, OpView};
use crate::error::ErrorKind;
use crate::elements::InternalOperation;
use crate::generated::{
    all_children, lemma_children_in, lemma_children_out, lemma_del_children_is_del_many,
    lemma_del_children_leaves_none, lemma_fifo_ascending, lemma_no_child, lemma_none_counted,
    lemma_taken_same, no_child, stored_children,
};
use crate::processor::{
    all_found, children_count, del_many, del_one, del_phase, fifo, forms, found, ins_many, ins_one,
    ins_phase, invalid, is_child, key_present, latest_step, lemma_fifo_conserves,
    lemma_projected_oldest_first, lemma_rank_ops, mode_of, projected, rank_ops, run, step,
    total_qty, unresolved,
};
use crate::time::checkpoint_date;
use crate::topologies::date_type_store_batch_id::{
    has_key, keyed, lemma_insert_keeps, lemma_rank_finds, lemma_remove_keeps, rank, sorted,
    OpEntryView,
};
use crate::topologies::op_key::key_of;
use vstd::prelude::*;

verus! {

/// The keys of the operations ascend strictly.
pub open spec fn ops_sorted(ops: Seq<OpView>) -> bool {
    forall|i: int, j: int|
        0 <= i < j < ops.len() ==> lex_lt(key_of(#[trigger] ops[i]), key_of(#[trigger] ops[j]))
}

/// The mutation with before and after exchanged.
pub open spec fn reversed(m: OpMutation) -> OpMutation {
    OpMutation { before: m.after, after: m.before, ..m }
}

/// The operations as entries under their keys.
pub open spec fn as_entries(ops: Seq<OpView>) -> Seq<OpEntryView> {
    Seq::new(
        ops.len(),
        |i: int|
            OpEntryView {
                key: key_of(ops[i]),
                op: ops[i],
                balance: BalanceForGoods { qty: 0, cost: 0 },
            },
    )
}

/// What holds of the entries holds of the operations.
pub proof fn lemma_as_entries(ops: Seq<OpView>, key: Seq<u8>)
    requires
        ops_sorted(ops),
    ensures
        sorted(as_entries(ops)),
        keyed(as_entries(ops)),
        rank(as_entries(ops), key) == rank_ops(ops, key),
        has_key(as_entries(ops), key) <==> key_present(ops, key),
        0 <= rank_ops(ops, key) <= ops.len(),
{
    let e = as_entries(ops);
    assert forall|i: int, j: int| 0 <= i < j < e.len() implies lex_lt(
        #[trigger] e[i].key,
        #[trigger] e[j].key,
    ) by {
        assert(e[i].key == key_of(ops[i]) && e[j].key == key_of(ops[j]));
    }
    lemma_rank_ops(e, key);
    assert(Seq::new(e.len(), |i: int| e[i].op) =~= ops);
    lemma_rank_finds(e, key);
    let r = rank(e, key);
    if r < e.len() {
        assert(e[r].key == key_of(ops[r]));
    }
}

/// The operations of a coherent store are in key order.
pub proof fn lemma_store_sorted(db: &Db)
    requires
        db.wf(),
    ensures
        ops_sorted(db.ops()),
        fits_all(db.ops()),
{
    let s = db.entries();
    let ops = db.ops();
    assert forall|i: int, j: int| 0 <= i < j < ops.len() implies lex_lt(
        key_of(#[trigger] ops[i]),
        key_of(#[trigger] ops[j]),
    ) by {
        assert(lex_lt(s[i].key, s[j].key));
        assert(s[i].key == key_of(s[i].op) && s[j].key == key_of(s[j].op));
    }
    assert forall|i: int| 0 <= i < ops.len() implies (#[trigger] crate::balances::psum(
        ops,
        crate::balances::place_of(ops[i]),
        i + 1,
    )).fits() by {
        assert(s[i].op == ops[i]);
        assert(s[i].balance.amount() == crate::balances::psum(
            ops,
            crate::balances::place_of(s[i].op),
            i + 1,
        ));
    }
}

/// An operation that was put in can be taken out again, and the operations
/// are as before.
pub proof fn lemma_ins_del(ops: Seq<OpView>, o: OpView)
    requires
        ops_sorted(ops),
        fits_all(ops),
        ins_one(ops, o) is Ok,
    ensures
        ops_sorted(ins_one(ops, o).unwrap()),
        fits_all(ins_one(ops, o).unwrap()),
        found(ins_one(ops, o).unwrap(), o),
        del_one(ins_one(ops, o).unwrap(), o) == Ok::<Seq<OpView>, ErrorKind>(ops),
{
    let key = key_of(o);
    let p = rank_ops(ops, key);
    let t = ops.insert(p, o);
    lemma_as_entries(ops, key);
    let e = as_entries(ops);
    let x = OpEntryView { key, op: o, balance: BalanceForGoods { qty: 0, cost: 0 } };
    lemma_insert_keeps(e, p, x);
    assert(e.insert(p, x) =~= as_entries(t));
    assert forall|i: int, j: int| 0 <= i < j < t.len() implies lex_lt(
        key_of(#[trigger] t[i]),
        key_of(#[trigger] t[j]),
    ) by {
        assert(lex_lt(as_entries(t)[i].key, as_entries(t)[j].key));
    }
    lemma_remove_keeps(as_entries(t), p);
    lemma_as_entries(t, key);
    assert(as_entries(t)[p].key == key);
    assert(t.remove(p) =~= ops);
}

/// An operation that was taken out can be put in again, and the operations
/// are as before.
pub proof fn lemma_del_ins(ops: Seq<OpView>, o: OpView)
    requires
        ops_sorted(ops),
        fits_all(ops),
        del_one(ops, o) is Ok,
    ensures
        ops_sorted(del_one(ops, o).unwrap()),
        fits_all(del_one(ops, o).unwrap()),
        !key_present(del_one(ops, o).unwrap(), key_of(o)),
        ins_one(del_one(ops, o).unwrap(), o) == Ok::<Seq<OpView>, ErrorKind>(ops),
{
    let key = key_of(o);
    let p = rank_ops(ops, key);
    let t = ops.remove(p);
    lemma_as_entries(ops, key);
    let e = as_entries(ops);
    assert(e[p].key == key);
    lemma_remove_keeps(e, p);
    assert(e.remove(p) =~= as_entries(t));
    assert forall|i: int, j: int| 0 <= i < j < t.len() implies lex_lt(
        key_of(#[trigger] t[i]),
        key_of(#[trigger] t[j]),
    ) by {
        assert(lex_lt(as_entries(t)[i].key, as_entries(t)[j].key));
    }
    lemma_as_entries(t, key);
    assert(t.insert(p, o) =~= ops);
}

/// Taking `forms[i..n]` out is taking `forms[i + 1..n]` out and then
/// `forms[i]`.
proof fn lemma_del_many_first(ops: Seq<OpView>, forms: Seq<OpView>, i: int, n: int)
    requires
        0 <= i < n <= forms.len(),
    ensures
        del_many(ops, forms, i, n) == (match del_many(ops, forms, i + 1, n) {
            Ok(rest) => del_one(rest, forms[i]),
            Err(k) => Err(k),
        }),
    decreases n - i,
{
    if n > i + 1 {
        match del_one(ops, forms[n - 1]) {
            Ok(next) => {
                lemma_del_many_first(next, forms, i, n - 1);
                assert(del_many(ops, forms, i, n) == del_many(next, forms, i, n - 1));
                assert(del_many(ops, forms, i + 1, n) == del_many(next, forms, i + 1, n - 1));
            },
            Err(k) => {
                assert(del_many(ops, forms, i, n) == Err::<Seq<OpView>, ErrorKind>(k));
                assert(del_many(ops, forms, i + 1, n) == Err::<Seq<OpView>, ErrorKind>(k));
            },
        }
    } else {
        assert(del_many(ops, forms, i + 1, n) == Ok::<Seq<OpView>, ErrorKind>(ops));
        match del_one(ops, forms[n - 1]) {
            Ok(next) => {
                assert(del_many(next, forms, i, n - 1) == Ok::<Seq<OpView>, ErrorKind>(next));
                assert(del_many(ops, forms, i, n) == del_many(next, forms, i, n - 1));
            },
            Err(k) => {
                assert(del_many(ops, forms, i, n) == Err::<Seq<OpView>, ErrorKind>(k));
            },
        }
    }
}

/// Operations that were put in can be taken out again, and the operations
/// are as before.
pub proof fn lemma_ins_del_many(ops: Seq<OpView>, forms: Seq<OpView>, i: int)
    requires
        ops_sorted(ops),
        fits_all(ops),
        0 <= i <= forms.len(),
        ins_many(ops, forms, i) is Ok,
    ensures
        ops_sorted(ins_many(ops, forms, i).unwrap()),
        fits_all(ins_many(ops, forms, i).unwrap()),
        del_many(ins_many(ops, forms, i).unwrap(), forms, i, forms.len() as int) == Ok::<
            Seq<OpView>,
            ErrorKind,
        >(ops),
    decreases forms.len() - i,
{
    if i < forms.len() {
        let next = ins_one(ops, forms[i]).unwrap();
        lemma_ins_del(ops, forms[i]);
        lemma_ins_del_many(next, forms, i + 1);
        let t = ins_many(ops, forms, i).unwrap();
        lemma_del_many_first(t, forms, i, forms.len() as int);
    }
}

/// Operations that were taken out can be put in again, and the operations
/// are as before.
pub proof fn lemma_del_ins_many(ops: Seq<OpView>, forms: Seq<OpView>, i: int, n: int)
    requires
        ops_sorted(ops),
        fits_all(ops),
        0 <= i <= n <= forms.len(),
        del_many(ops, forms, i, n) is Ok,
    ensures
        ops_sorted(del_many(ops, forms, i, n).unwrap()),
        fits_all(del_many(ops, forms, i, n).unwrap()),
        i < n ==> !found(del_many(ops, forms, i, n).unwrap(), forms[i]),
        ins_many_upto(del_many(ops, forms, i, n).unwrap(), forms, i, n) == Ok::<
            Seq<OpView>,
            ErrorKind,
        >(ops),
    decreases n - i,
{
    if i < n {
        lemma_del_many_first(ops, forms, i, n);
        let rest = del_many(ops, forms, i + 1, n).unwrap();
        lemma_del_ins_many(ops, forms, i + 1, n);
        lemma_del_ins(rest, forms[i]);
    }
}

/// Puts the operations `forms[i..n]` in, one after the other.
pub open spec fn ins_many_upto(ops: Seq<OpView>, forms: Seq<OpView>, i: int, n: int) -> Result<
    Seq<OpView>,
    ErrorKind,
>
    decreases n - i,
{
    if i < 0 || i >= n || n > forms.len() {
        Ok(ops)
    } else {
        match ins_one(ops, forms[i]) {
            Ok(next) => ins_many_upto(next, forms, i + 1, n),
            Err(k) => Err(k),
        }
    }
}

/// Putting all of `forms[i..]` in is putting them in up to the end.
pub proof fn lemma_ins_many_upto(ops: Seq<OpView>, forms: Seq<OpView>, i: int)
    requires
        0 <= i <= forms.len(),
    ensures
        ins_many_upto(ops, forms, i, forms.len() as int) == ins_many(ops, forms, i),
    decreases forms.len() - i,
{
    if i < forms.len() {
        match ins_one(ops, forms[i]) {
            Ok(next) => {
                lemma_ins_many_upto(next, forms, i + 1);
            },
            Err(_) => {},
        }
    }
}

/// Whether what the mutation leaves behind is put in by it, not found stored
/// already: after what stood before is taken out, no operation generated for
/// its issue without batch is stored, or not all of the operations that it
/// is stored as are.
pub open spec fn takes_effect(ops: Seq<OpView>, m: OpMutation) -> bool {
    match (del_phase(ops, m), m.after) {
        (Ok(mid), Some(a)) => if unresolved(m, a) {
            children_count(mid, m, mid.len() as int) == 0
        } else {
            !all_found(mid, forms(m, a), 0)
        },
        _ => true,
    }
}

/// Whether what the mutation takes away is put in again as it was stored:
/// it names its batch, or resolving the issue without batch again, once it
/// is taken away, generates the operations that were stored for it.
pub open spec fn comes_back(ops: Seq<OpView>, m: OpMutation) -> bool {
    match (m.before, del_phase(ops, m)) {
        (Some(b), Ok(mid)) => unresolved(m, b) ==> fifo(
            m,
            b.qty_spec(),
            b.cost_spec(),
            mode_of(b),
            projected(mid, m.store, m.goods, m.date),
            0,
            b.qty_spec() as int,
        ) == stored_children(ops, m, ops.len() as int),
        _ => true,
    }
}

/// The operations generated for the issue without batch that a mutation
/// leaves behind are taken out again by the mutation with before and after
/// exchanged.
proof fn lemma_generated_reversed(mid: Seq<OpView>, m: OpMutation, a: InternalOperation)
    requires
        ops_sorted(mid),
        fits_all(mid),
        m.after == Some(a),
        unresolved(m, a),
        a.qty_spec() != 0,
        children_count(mid, m, mid.len() as int) == 0,
        ins_phase(mid, m) is Ok,
    ensures
        ops_sorted(ins_phase(mid, m).unwrap()),
        fits_all(ins_phase(mid, m).unwrap()),
        del_phase(ins_phase(mid, m).unwrap(), reversed(m)) == Ok::<Seq<OpView>, ErrorKind>(mid),
{
    let r = reversed(m);
    let balances = projected(mid, m.store, m.goods, m.date);
    let kids = fifo(m, a.qty_spec(), a.cost_spec(), mode_of(a), balances, 0, a.qty_spec() as int);
    let n = kids.len() as int;
    let t = ins_phase(mid, m).unwrap();
    assert(t == ins_many(mid, kids, 0).unwrap());
    lemma_projected_oldest_first(mid, m.store, m.goods, m.date);
    lemma_fifo_ascending(m, a.qty_spec(), a.cost_spec(), mode_of(a), balances, a.qty_spec() as int);
    lemma_fifo_conserves(
        m,
        a.qty_spec(),
        a.cost_spec(),
        mode_of(a),
        balances,
        0,
        a.qty_spec() as int,
    );
    lemma_none_counted(mid, m);
    assert(no_child(mid, r, mid.len() as int)) by {
        assert forall|i: int| 0 <= i < mid.len() implies !is_child(#[trigger] mid[i], r) by {
            assert(!is_child(mid[i], m));
        }
    }
    assert(all_children(kids, r)) by {
        assert forall|k: int| 0 <= k < kids.len() implies is_child(#[trigger] kids[k], r) by {
            assert(is_child(kids[k], m));
        }
    }
    lemma_ins_many_upto(mid, kids, 0);
    lemma_children_in(mid, r, kids, n);
    assert(total_qty(kids, n) == 0);
    lemma_children_out(mid, r, kids, n, t.len() as int);
}

/// The mutation with before and after exchanged undoes what the mutation
/// did, where what the mutation leaves behind was not stored already, what
/// it took away may be stored, and what it took away is put in again as it
/// was stored. The operations generated for an issue without batch that it
/// leaves behind are taken out again.
pub proof fn lemma_step_reversed(ops: Seq<OpView>, m: OpMutation)
    requires
        ops_sorted(ops),
        fits_all(ops),
        m.before != m.after,
        comes_back(ops, m),
        !invalid(reversed(m)),
        step(ops, m) is Ok,
        takes_effect(ops, m),
    ensures
        step(step(ops, m).unwrap(), reversed(m)) == Ok::<Seq<OpView>, ErrorKind>(ops),
{
    let r = reversed(m);
    let mid = del_phase(ops, m).unwrap();
    let t = step(ops, m).unwrap();
    match m.before {
        Some(b) => {
            if unresolved(m, b) {
                let n = ops.len() as int;
                let kids = stored_children(ops, m, n);
                let balances = projected(mid, m.store, m.goods, m.date);
                lemma_del_children_is_del_many(ops, m, n);
                lemma_del_ins_many(ops, kids, 0, kids.len() as int);
                lemma_ins_many_upto(mid, kids, 0);
                lemma_del_children_leaves_none(ops, m, n);
                assert(no_child(mid, r, mid.len() as int)) by {
                    assert forall|i: int| 0 <= i < mid.len() implies !is_child(
                        #[trigger] mid[i],
                        r,
                    ) by {
                        assert(!is_child(mid[i], m));
                    }
                }
                lemma_no_child(mid, r, mid.len() as int);
                lemma_taken_same(m, r, mode_of(b), balances, 0, b.qty_spec() as int);
                assert(ins_phase(mid, r) == Ok::<Seq<OpView>, ErrorKind>(ops));
            } else {
                let fb = forms(m, b);
                assert(forms(r, b) == fb);
                lemma_del_ins_many(ops, fb, 0, fb.len() as int);
                lemma_ins_many_upto(mid, fb, 0);
                assert(!found(mid, fb[0]));
                assert(!all_found(mid, fb, 0));
            }
        },
        None => {},
    }
    match m.after {
        Some(a) => {
            if unresolved(m, a) {
                lemma_generated_reversed(mid, m, a);
            } else {
                let fa = forms(m, a);
                assert(forms(r, a) == fa);
                lemma_ins_del_many(mid, fa, 0);
            }
        },
        None => {},
    }
}

/// Taking away what a mutation put in and putting it in again leaves the
/// operations as the mutation left them. What was put in may be an issue
/// without batch: put in again where the operations are as they were, it is
/// resolved as it was.
pub proof fn lemma_delete_then_reinsert(ops: Seq<OpView>, m: OpMutation)
    requires
        ops_sorted(ops),
        fits_all(ops),
        m.before is None,
        m.after is Some,
        step(ops, m) is Ok,
        takes_effect(ops, m),
    ensures
        run(step(ops, m).unwrap(), seq![reversed(m), m], 0) == step(ops, m),
{
    let s = step(ops, m).unwrap();
    let ms = seq![reversed(m), m];
    lemma_step_reversed(ops, m);
    assert(ms[0] == reversed(m) && ms[1] == m);
    assert(run(s, ms, 2) == Ok::<Seq<OpView>, ErrorKind>(s));
    assert(run(ops, ms, 1) == run(s, ms, 2));
    assert(run(s, ms, 0) == run(ops, ms, 1));
}

/// Taking a stored movement away and putting it in again leaves the
/// operations as they were, where it can be taken away and is put in again
/// as it was stored.
pub proof fn lemma_delete_then_reinsert_stored(ops: Seq<OpView>, m: OpMutation)
    requires
        ops_sorted(ops),
        fits_all(ops),
        m.before is None,
        m.after is Some,
        comes_back(ops, reversed(m)),
        !invalid(m),
        step(ops, reversed(m)) is Ok,
    ensures
        run(ops, seq![reversed(m), m], 0) == Ok::<Seq<OpView>, ErrorKind>(ops),
{
    let r = reversed(m);
    let ms = seq![r, m];
    let mid = step(ops, r).unwrap();
    assert(reversed(r) == m);
    lemma_step_reversed(ops, r);
    assert(ms[0] == r && ms[1] == m);
    assert(run(ops, ms, 2) == Ok::<Seq<OpView>, ErrorKind>(ops));
    assert(run(mid, ms, 1) == run(ops, ms, 2));
    assert(run(ops, ms, 0) == run(mid, ms, 1));
}

/// Deleting and reinserting restores the store: where a mutation put a
/// movement into a coherent store and left `snapshot`, a coherent store that
/// holds what taking the movement away and putting it in again leaves holds
/// the operations, the running balances and the checkpoints of `snapshot`.
pub proof fn lemma_reinsert_restores(first: &Db, snapshot: &Db, back: &Db, m: OpMutation)
    requires
        first.wf(),
        snapshot.wf(),
        back.wf(),
        m.before is None,
        m.after is Some,
        step(first.ops(), m) == Ok::<Seq<OpView>, ErrorKind>(snapshot.ops()),
        takes_effect(first.ops(), m),
        run(snapshot.ops(), seq![reversed(m), m], 0) matches Ok(t) ==> back.ops() == t,
    ensures
        run(snapshot.ops(), seq![reversed(m), m], 0) == Ok::<Seq<OpView>, ErrorKind>(
            snapshot.ops(),
        ),
        back.entries() == snapshot.entries(),
        back.snapshots() == snapshot.snapshots(),
{
    lemma_store_sorted(first);
    lemma_delete_then_reinsert(first.ops(), m);
    lemma_canonical(back, snapshot);
}

/// Deleting and reinserting a stored movement restores the store: where the
/// movement can be taken away from `snapshot` and is put in again as it was
/// stored, a coherent store that holds what taking it away and putting it in
/// again leaves holds the operations, the running balances and the
/// checkpoints of `snapshot`.
pub proof fn lemma_reinsert_stored_restores(snapshot: &Db, back: &Db, m: OpMutation)
    requires
        snapshot.wf(),
        back.wf(),
        m.before is None,
        m.after is Some,
        comes_back(snapshot.ops(), reversed(m)),
        !invalid(m),
        step(snapshot.ops(), reversed(m)) is Ok,
        run(snapshot.ops(), seq![reversed(m), m], 0) matches Ok(t) ==> back.ops() == t,
    ensures
        run(snapshot.ops(), seq![reversed(m), m], 0) == Ok::<Seq<OpView>, ErrorKind>(
            snapshot.ops(),
        ),
        back.entries() == snapshot.entries(),
        back.snapshots() == snapshot.snapshots(),
{
    lemma_store_sorted(snapshot);
    lemma_delete_then_reinsert_stored(snapshot.ops(), m);
    lemma_canonical(back, snapshot);
}

/// Reversing a mutation restores the store: where a mutation took a coherent
/// store from `before` to `after`, the mutation with before and after
/// exchanged succeeds on `after`, and a coherent store that holds what it
/// leaves holds the operations, the running balances and the checkpoints of
/// `before`. The latest checkpoint date is never rewound: it is that of
/// `before` where the mutation did not advance it.
pub proof fn lemma_reverse_restores(before: &Db, after: &Db, back: &Db, m: OpMutation)
    requires
        before.wf(),
        after.wf(),
        back.wf(),
        m.before != m.after,
        comes_back(before.ops(), m),
        !invalid(reversed(m)),
        step(before.ops(), m) == Ok::<Seq<OpView>, ErrorKind>(after.ops()),
        takes_effect(before.ops(), m),
        step(after.ops(), reversed(m)) matches Ok(t) ==> back.ops() == t,
        after.latest() == latest_step(before.latest(), m),
        back.latest() == latest_step(after.latest(), reversed(m)),
    ensures
        step(after.ops(), reversed(m)) == Ok::<Seq<OpView>, ErrorKind>(before.ops()),
        back.entries() == before.entries(),
        back.snapshots() == before.snapshots(),
        (checkpoint_date(m.date) matches Some(d) && d <= before.latest()) ==> back.latest()
            == before.latest(),
{
    lemma_store_sorted(before);
    lemma_step_reversed(before.ops(), m);
    lemma_canonical(back, before);
}

} // verus!
