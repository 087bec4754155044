//! Recording the same mutations twice: the second run changes nothing.

use crate::balances::fits_all;
use crate::bytes::{lemma_lex_lt_irreflexive, lex_lt};
use crate::elements::{OpMutation, OpView};
use crate::error::ErrorKind;
use crate::generated::{
    lemma_child_counted, lemma_children_in, lemma_fifo_ascending, lemma_none_counted,
};
use crate::processor::{
    all_found, children_count, del_many, del_one, del_phase, fifo, forms, found, ins_many,
    ins_one, is_child, key_present, latest_run, latest_step, lemma_fifo_conserves,
    lemma_projected_oldest_first, lemma_some_child, mode_of, projected, rank_ops, run, step,
    total_qty, unresolved,
};
use crate::canonical::lemma_canonical;
use crate::db::Db;
use crate::time::checkpoint_date;
use crate::reversal::{
    as_entries, lemma_as_entries, lemma_del_ins, lemma_ins_del, lemma_ins_many_upto,
    lemma_store_sorted, ops_sorted,
};
use crate::topologies::date_type_store_batch_id::has_key;
use crate::topologies::op_key::{key_of, lemma_key_order, parts_of};
use crate::ordered::lemma_same_keys_same_order;
use vstd::prelude::*;

verus! {

/// The stored operations by their keys.
pub open spec fn to_map(ops: Seq<OpView>) -> Map<Seq<u8>, OpView> {
    Map::new(|k: Seq<u8>| key_present(ops, k), |k: Seq<u8>| ops[rank_ops(ops, k)])
}

/// Whether two maps hold the same under `k`.
pub open spec fn agree(a: Map<Seq<u8>, OpView>, b: Map<Seq<u8>, OpView>, k: Seq<u8>) -> bool {
    a.dom().contains(k) == b.dom().contains(k) && (a.dom().contains(k) ==> a[k] == b[k])
}

/// The map after `forms[i..]` are put in.
pub open spec fn map_ins(m: Map<Seq<u8>, OpView>, forms: Seq<OpView>, i: int) -> Map<
    Seq<u8>,
    OpView,
>
    decreases forms.len() - i,
{
    if i < 0 || i >= forms.len() {
        m
    } else {
        map_ins(m.insert(key_of(forms[i]), forms[i]), forms, i + 1)
    }
}

/// The map after `forms[..n]` are taken out.
pub open spec fn map_del(m: Map<Seq<u8>, OpView>, forms: Seq<OpView>, n: int) -> Map<
    Seq<u8>,
    OpView,
>
    decreases n,
{
    if n <= 0 || n > forms.len() {
        m
    } else {
        map_del(m.remove(key_of(forms[n - 1])), forms, n - 1)
    }
}

/// Whether a mutation names its batch wherever it holds an issue.
pub open spec fn resolved(m: OpMutation) -> bool {
    &&& (m.before matches Some(b) ==> !unresolved(m, b))
    &&& (m.after matches Some(a) ==> !unresolved(m, a))
}

/// What stood before a mutation, as it is stored; nothing where nothing
/// stood.
pub open spec fn before_forms(m: OpMutation) -> Seq<OpView> {
    match m.before {
        Some(b) => forms(m, b),
        None => Seq::empty(),
    }
}

/// What stands after a mutation, as it is stored; nothing where nothing
/// stands.
pub open spec fn after_forms(m: OpMutation) -> Seq<OpView> {
    match m.after {
        Some(a) => forms(m, a),
        None => Seq::empty(),
    }
}

/// The map after a mutation that succeeds.
pub open spec fn effect(m: Map<Seq<u8>, OpView>, mu: OpMutation) -> Map<Seq<u8>, OpView> {
    if mu.before == mu.after {
        m
    } else {
        map_ins(map_del(m, before_forms(mu), before_forms(mu).len() as int), after_forms(mu), 0)
    }
}

/// The map after the mutations `ms[i..]`, where they succeed.
pub open spec fn effect_all(m: Map<Seq<u8>, OpView>, ms: Seq<OpMutation>, i: int) -> Map<
    Seq<u8>,
    OpView,
>
    decreases ms.len() - i,
{
    if i < 0 || i >= ms.len() {
        m
    } else {
        effect_all(effect(m, ms[i]), ms, i + 1)
    }
}

/// Whether one of `forms[i..n]` has the key.
pub open spec fn hit_forms(forms: Seq<OpView>, i: int, n: int, k: Seq<u8>) -> bool {
    exists|j: int| i <= j < n && 0 <= j < forms.len() && key_of(#[trigger] forms[j]) == k
}

/// Whether the mutation writes under the key.
pub open spec fn hit(mu: OpMutation, k: Seq<u8>) -> bool {
    mu.before != mu.after && (hit_forms(before_forms(mu), 0, before_forms(mu).len() as int, k)
        || hit_forms(after_forms(mu), 0, after_forms(mu).len() as int, k))
}

/// Whether one of the mutations `ms[i..]` writes under the key.
pub open spec fn hit_all(ms: Seq<OpMutation>, i: int, k: Seq<u8>) -> bool
    decreases ms.len() - i,
{
    if i < 0 || i >= ms.len() {
        false
    } else {
        hit(ms[i], k) || hit_all(ms, i + 1, k)
    }
}

proof fn lemma_map_ins_key(
    a: Map<Seq<u8>, OpView>,
    b: Map<Seq<u8>, OpView>,
    forms: Seq<OpView>,
    i: int,
    k: Seq<u8>,
)
    requires
        0 <= i <= forms.len(),
    ensures
        agree(a, b, k) || hit_forms(forms, i, forms.len() as int, k) ==> agree(
            map_ins(a, forms, i),
            map_ins(b, forms, i),
            k,
        ),
        !hit_forms(forms, i, forms.len() as int, k) ==> agree(map_ins(a, forms, i), a, k),
    decreases forms.len() - i,
{
    if i < forms.len() {
        let key = key_of(forms[i]);
        let a1 = a.insert(key, forms[i]);
        let b1 = b.insert(key, forms[i]);
        lemma_map_ins_key(a1, b1, forms, i + 1, k);
        if hit_forms(forms, i, forms.len() as int, k) {
            let j = choose|j: int|
                i <= j < forms.len() && 0 <= j < forms.len() && key_of(#[trigger] forms[j]) == k;
            if j > i {
                assert(hit_forms(forms, i + 1, forms.len() as int, k));
            }
        } else {
            if hit_forms(forms, i + 1, forms.len() as int, k) {
                let j = choose|j: int|
                    i + 1 <= j < forms.len() && 0 <= j < forms.len() && key_of(
                        #[trigger] forms[j],
                    ) == k;
                assert(hit_forms(forms, i, forms.len() as int, k));
            }
            assert(key_of(forms[i]) != k);
        }
    }
}

proof fn lemma_map_del_key(
    a: Map<Seq<u8>, OpView>,
    b: Map<Seq<u8>, OpView>,
    forms: Seq<OpView>,
    n: int,
    k: Seq<u8>,
)
    requires
        0 <= n <= forms.len(),
    ensures
        agree(a, b, k) || hit_forms(forms, 0, n, k) ==> agree(
            map_del(a, forms, n),
            map_del(b, forms, n),
            k,
        ),
        !hit_forms(forms, 0, n, k) ==> agree(map_del(a, forms, n), a, k),
    decreases n,
{
    if n > 0 {
        let key = key_of(forms[n - 1]);
        let a1 = a.remove(key);
        let b1 = b.remove(key);
        lemma_map_del_key(a1, b1, forms, n - 1, k);
        if hit_forms(forms, 0, n, k) {
            let j = choose|j: int|
                0 <= j < n && 0 <= j < forms.len() && key_of(#[trigger] forms[j]) == k;
            if j < n - 1 {
                assert(hit_forms(forms, 0, n - 1, k));
            }
        } else {
            if hit_forms(forms, 0, n - 1, k) {
                let j = choose|j: int|
                    0 <= j < n - 1 && 0 <= j < forms.len() && key_of(#[trigger] forms[j]) == k;
                assert(hit_forms(forms, 0, n, k));
            }
            assert(key_of(forms[n - 1]) != k);
        }
    }
}

proof fn lemma_effect_key(
    a: Map<Seq<u8>, OpView>,
    b: Map<Seq<u8>, OpView>,
    mu: OpMutation,
    k: Seq<u8>,
)
    ensures
        agree(a, b, k) || hit(mu, k) ==> agree(effect(a, mu), effect(b, mu), k),
        !hit(mu, k) ==> agree(effect(a, mu), a, k),
{
    if mu.before != mu.after {
        let fb = before_forms(mu);
        let fa = after_forms(mu);
        lemma_map_del_key(a, b, fb, fb.len() as int, k);
        let a1 = map_del(a, fb, fb.len() as int);
        let b1 = map_del(b, fb, fb.len() as int);
        lemma_map_ins_key(a1, b1, fa, 0, k);
        lemma_map_ins_key(a1, a1, fa, 0, k);
    }
}

proof fn lemma_effect_all_key(
    a: Map<Seq<u8>, OpView>,
    b: Map<Seq<u8>, OpView>,
    ms: Seq<OpMutation>,
    i: int,
    k: Seq<u8>,
)
    requires
        0 <= i <= ms.len(),
    ensures
        agree(a, b, k) || hit_all(ms, i, k) ==> agree(
            effect_all(a, ms, i),
            effect_all(b, ms, i),
            k,
        ),
        !hit_all(ms, i, k) ==> agree(effect_all(a, ms, i), a, k),
    decreases ms.len() - i,
{
    if i < ms.len() {
        lemma_effect_key(a, b, ms[i], k);
        lemma_effect_all_key(effect(a, ms[i]), effect(b, ms[i]), ms, i + 1, k);
        lemma_effect_all_key(effect(a, ms[i]), effect(a, ms[i]), ms, i + 1, k);
    }
}

/// In key order, a key is stored exactly where an operation has it, and that
/// operation stands at the rank of the key.
pub proof fn lemma_present_iff(ops: Seq<OpView>, k: Seq<u8>)
    requires
        ops_sorted(ops),
    ensures
        key_present(ops, k) <==> exists|j: int| 0 <= j < ops.len()
            && key_of(#[trigger] ops[j]) == k,
        forall|j: int| 0 <= j < ops.len() && key_of(#[trigger] ops[j]) == k ==> rank_ops(
            ops,
            k,
        ) == j,
        0 <= rank_ops(ops, k) <= ops.len(),
{
    lemma_as_entries(ops, k);
    let e = as_entries(ops);
    let r = rank_ops(ops, k);
    assert forall|j: int| 0 <= j < ops.len() && key_of(#[trigger] ops[j]) == k implies r == j by {
        assert(e[j].key == k);
        assert(has_key(e, k));
        assert(e[r].key == key_of(ops[r]));
        lemma_lex_lt_irreflexive(k);
        if r < j {
            assert(lex_lt(e[r].key, e[j].key));
        }
        if j < r {
            assert(lex_lt(e[j].key, e[r].key));
        }
    }
    if has_key(e, k) {
        let j = choose|j: int| 0 <= j < e.len() && #[trigger] e[j].key == k;
        assert(key_of(ops[j]) == k);
    }
    if exists|j: int| 0 <= j < ops.len() && key_of(#[trigger] ops[j]) == k {
        let j = choose|j: int| 0 <= j < ops.len() && key_of(#[trigger] ops[j]) == k;
        assert(e[j].key == k);
    }
}

/// The map after one operation is put in.
pub proof fn lemma_to_map_ins(ops: Seq<OpView>, o: OpView)
    requires
        ops_sorted(ops),
        fits_all(ops),
        ins_one(ops, o) is Ok,
    ensures
        to_map(ins_one(ops, o).unwrap()) == to_map(ops).insert(key_of(o), o),
{
    let key = key_of(o);
    let p = rank_ops(ops, key);
    let t = ops.insert(p, o);
    lemma_ins_del(ops, o);
    lemma_present_iff(ops, key);
    let a = to_map(t);
    let b = to_map(ops).insert(key, o);
    assert forall|k: Seq<u8>|
        (#[trigger] a.dom().contains(k)) == b.dom().contains(k) && (a.dom().contains(k) ==> a[k]
            == b[k]) by {
        lemma_present_iff(ops, k);
        lemma_present_iff(t, k);
        if k == key {
            assert(key_of(t[p]) == key);
        } else {
            if key_present(ops, k) {
                let j = choose|j: int| 0 <= j < ops.len() && key_of(#[trigger] ops[j]) == k;
                let j1 = if j < p {
                    j
                } else {
                    j + 1
                };
                assert(t[j1] == ops[j]);
                assert(key_of(t[j1]) == k);
            }
            if key_present(t, k) {
                let j = choose|j: int| 0 <= j < t.len() && key_of(#[trigger] t[j]) == k;
                assert(j != p);
                let j0 = if j < p {
                    j
                } else {
                    j - 1
                };
                assert(t[j] == ops[j0]);
                assert(key_of(ops[j0]) == k);
            }
        }
    }
    assert(a.dom() =~= b.dom());
    assert(a =~= b);
}

/// The map after one operation is taken out.
pub proof fn lemma_to_map_del(ops: Seq<OpView>, o: OpView)
    requires
        ops_sorted(ops),
        fits_all(ops),
        del_one(ops, o) is Ok,
    ensures
        to_map(del_one(ops, o).unwrap()) == to_map(ops).remove(key_of(o)),
{
    let key = key_of(o);
    let p = rank_ops(ops, key);
    let t = ops.remove(p);
    lemma_del_ins(ops, o);
    lemma_present_iff(ops, key);
    let a = to_map(t);
    let b = to_map(ops).remove(key);
    assert forall|k: Seq<u8>|
        (#[trigger] a.dom().contains(k)) == b.dom().contains(k) && (a.dom().contains(k) ==> a[k]
            == b[k]) by {
        lemma_present_iff(ops, k);
        lemma_present_iff(t, k);
        if k != key {
            if key_present(ops, k) {
                let j = choose|j: int| 0 <= j < ops.len() && key_of(#[trigger] ops[j]) == k;
                assert(j != p);
                let j1 = if j < p {
                    j
                } else {
                    j - 1
                };
                assert(t[j1] == ops[j]);
                assert(key_of(t[j1]) == k);
            }
            if key_present(t, k) {
                let j = choose|j: int| 0 <= j < t.len() && key_of(#[trigger] t[j]) == k;
                let j0 = if j < p {
                    j
                } else {
                    j + 1
                };
                assert(t[j] == ops[j0]);
                assert(key_of(ops[j0]) == k);
            }
        }
    }
    assert(a.dom() =~= b.dom());
    assert(a =~= b);
}

/// The map after operations are put in.
pub proof fn lemma_to_map_ins_many(ops: Seq<OpView>, forms: Seq<OpView>, i: int)
    requires
        ops_sorted(ops),
        fits_all(ops),
        0 <= i <= forms.len(),
        ins_many(ops, forms, i) is Ok,
    ensures
        ops_sorted(ins_many(ops, forms, i).unwrap()),
        fits_all(ins_many(ops, forms, i).unwrap()),
        to_map(ins_many(ops, forms, i).unwrap()) == map_ins(to_map(ops), forms, i),
    decreases forms.len() - i,
{
    if i < forms.len() {
        lemma_ins_del(ops, forms[i]);
        lemma_to_map_ins(ops, forms[i]);
        lemma_to_map_ins_many(ins_one(ops, forms[i]).unwrap(), forms, i + 1);
    }
}

/// The map after operations are taken out.
pub proof fn lemma_to_map_del_many(ops: Seq<OpView>, forms: Seq<OpView>, n: int)
    requires
        ops_sorted(ops),
        fits_all(ops),
        0 <= n <= forms.len(),
        del_many(ops, forms, 0, n) is Ok,
    ensures
        ops_sorted(del_many(ops, forms, 0, n).unwrap()),
        fits_all(del_many(ops, forms, 0, n).unwrap()),
        to_map(del_many(ops, forms, 0, n).unwrap()) == map_del(to_map(ops), forms, n),
    decreases n,
{
    if n > 0 {
        lemma_del_ins(ops, forms[n - 1]);
        lemma_to_map_del(ops, forms[n - 1]);
        lemma_to_map_del_many(del_one(ops, forms[n - 1]).unwrap(), forms, n - 1);
    }
}

/// Putting in what is stored already leaves the map as it is.
pub proof fn lemma_map_ins_found(ops: Seq<OpView>, forms: Seq<OpView>, i: int)
    requires
        0 <= i <= forms.len(),
        all_found(ops, forms, i),
    ensures
        map_ins(to_map(ops), forms, i) == to_map(ops),
    decreases forms.len() - i,
{
    if i < forms.len() {
        let m = to_map(ops);
        assert(found(ops, forms[i]));
        assert(m.insert(key_of(forms[i]), forms[i]) =~= m);
        lemma_map_ins_found(ops, forms, i + 1);
    }
}

/// The map after a mutation that names its batches and succeeds.
pub proof fn lemma_to_map_step(ops: Seq<OpView>, mu: OpMutation)
    requires
        ops_sorted(ops),
        fits_all(ops),
        resolved(mu),
        step(ops, mu) is Ok,
    ensures
        ops_sorted(step(ops, mu).unwrap()),
        fits_all(step(ops, mu).unwrap()),
        to_map(step(ops, mu).unwrap()) == effect(to_map(ops), mu),
{
    if mu.before != mu.after {
        let fb = before_forms(mu);
        let fa = after_forms(mu);
        let mid = match mu.before {
            Some(b) => {
                lemma_to_map_del_many(ops, fb, fb.len() as int);
                del_many(ops, fb, 0, fb.len() as int).unwrap()
            },
            None => ops,
        };
        assert(to_map(mid) == map_del(to_map(ops), fb, fb.len() as int));
        match mu.after {
            Some(a) => {
                if all_found(mid, fa, 0) {
                    lemma_map_ins_found(mid, fa, 0);
                } else {
                    lemma_to_map_ins_many(mid, fa, 0);
                }
            },
            None => {},
        }
    }
}

/// Operations in key order are determined by what is stored under every
/// key.
pub proof fn lemma_map_determines(a: Seq<OpView>, b: Seq<OpView>)
    requires
        ops_sorted(a),
        ops_sorted(b),
        to_map(a) == to_map(b),
    ensures
        a == b,
{
    let ea = Seq::new(a.len(), |i: int| key_of(a[i]));
    let eb = Seq::new(b.len(), |i: int| key_of(b[i]));
    assert forall|i: int| 0 <= i < ea.len() implies eb.contains(#[trigger] ea[i]) by {
        let k = key_of(a[i]);
        lemma_present_iff(a, k);
        lemma_present_iff(b, k);
        assert(to_map(a).dom().contains(k));
        assert(to_map(b).dom().contains(k));
        let j = choose|j: int| 0 <= j < b.len() && key_of(#[trigger] b[j]) == k;
        assert(eb[j] == k);
    }
    assert forall|i: int| 0 <= i < eb.len() implies ea.contains(#[trigger] eb[i]) by {
        let k = key_of(b[i]);
        lemma_present_iff(a, k);
        lemma_present_iff(b, k);
        assert(to_map(b).dom().contains(k));
        assert(to_map(a).dom().contains(k));
        let j = choose|j: int| 0 <= j < a.len() && key_of(#[trigger] a[j]) == k;
        assert(ea[j] == k);
    }
    assert forall|i: int, j: int| 0 <= i < j < ea.len() implies lex_lt(
        #[trigger] ea[i],
        #[trigger] ea[j],
    ) by {
        assert(lex_lt(key_of(a[i]), key_of(a[j])));
    }
    assert forall|i: int, j: int| 0 <= i < j < eb.len() implies lex_lt(
        #[trigger] eb[i],
        #[trigger] eb[j],
    ) by {
        assert(lex_lt(key_of(b[i]), key_of(b[j])));
    }
    lemma_same_keys_same_order(ea, eb);
    assert(a.len() == b.len());
    assert forall|i: int| 0 <= i < a.len() implies a[i] == b[i] by {
        let k = key_of(a[i]);
        assert(ea[i] == eb[i]);
        assert(key_of(b[i]) == k);
        lemma_present_iff(a, k);
        lemma_present_iff(b, k);
        assert(to_map(a)[k] == a[i]);
        assert(to_map(b)[k] == b[i]);
    }
    assert(a =~= b);
}

/// Whether the operation was generated for an issue without batch.
pub open spec fn child_op(o: OpView) -> bool {
    o.is_dependent && o.op is Issue
}

/// Whether the key is that of an operation generated for an issue without
/// batch.
pub open spec fn child_key(k: Seq<u8>) -> bool {
    exists|o: OpView| child_op(o) && #[trigger] key_of(o) == k
}

/// The key of an operation says whether it was generated for an issue
/// without batch.
pub proof fn lemma_child_key(o: OpView)
    ensures
        child_key(key_of(o)) <==> child_op(o),
{
    if child_key(key_of(o)) {
        let x = choose|x: OpView| child_op(x) && #[trigger] key_of(x) == key_of(o);
        lemma_key_order(parts_of(x), parts_of(o));
        assert(parts_of(x) == parts_of(o));
        assert(x.order() == 0xff);
    }
}

/// Whether the operation is stored.
pub open spec fn holds(ops: Seq<OpView>, o: OpView) -> bool {
    exists|j: int| 0 <= j < ops.len() && #[trigger] ops[j] == o
}

/// Whether an operation generated for the issue of the mutation is stored.
pub open spec fn has_child(ops: Seq<OpView>, m: OpMutation) -> bool {
    exists|j: int| 0 <= j < ops.len() && is_child(#[trigger] ops[j], m)
}

/// Every generated operation of `ops` is stored in `t`.
pub open spec fn children_kept(ops: Seq<OpView>, t: Seq<OpView>) -> bool {
    forall|j: int| 0 <= j < ops.len() && child_op(#[trigger] ops[j]) ==> holds(t, ops[j])
}

/// Whether the mutation puts an issue without batch in where nothing stood.
pub open spec fn puts_issue(m: OpMutation) -> bool {
    m.before is None && (m.after matches Some(a) && unresolved(m, a))
}

/// Whether the mutation names its batch wherever it holds an issue, or puts
/// an issue without batch in.
pub open spec fn repeatable(m: OpMutation) -> bool {
    resolved(m) || puts_issue(m)
}

/// Whether none of the mutations takes an issue without batch away or
/// changes one.
pub open spec fn all_repeatable(ms: Seq<OpMutation>) -> bool {
    forall|i: int| 0 <= i < ms.len() ==> repeatable(#[trigger] ms[i])
}

/// The mutation as far as it writes operations that were not generated: a
/// mutation that puts an issue without batch in writes none.
pub open spec fn calm_one(m: OpMutation) -> OpMutation {
    if puts_issue(m) {
        OpMutation { after: None, ..m }
    } else {
        m
    }
}

/// The mutations as far as they write operations that were not generated.
pub open spec fn calm(ms: Seq<OpMutation>) -> Seq<OpMutation> {
    Seq::new(ms.len(), |i: int| calm_one(ms[i]))
}

/// Operations that are put in leave what was stored.
proof fn lemma_ins_many_keeps(ops: Seq<OpView>, forms: Seq<OpView>, i: int, o: OpView)
    requires
        ops_sorted(ops),
        fits_all(ops),
        0 <= i <= forms.len(),
        ins_many(ops, forms, i) is Ok,
        holds(ops, o),
    ensures
        holds(ins_many(ops, forms, i).unwrap(), o),
    decreases forms.len() - i,
{
    if i < forms.len() {
        let p = rank_ops(ops, key_of(forms[i]));
        let next = ops.insert(p, forms[i]);
        lemma_ins_del(ops, forms[i]);
        lemma_present_iff(ops, key_of(forms[i]));
        let j = choose|j: int| 0 <= j < ops.len() && #[trigger] ops[j] == o;
        let j1 = if j < p {
            j
        } else {
            j + 1
        };
        assert(next[j1] == o);
        lemma_ins_many_keeps(next, forms, i + 1, o);
    }
}

/// No operation that a movement with a batch is stored as was generated for
/// an issue without batch.
proof fn lemma_forms_plain(mu: OpMutation, k: Seq<u8>)
    requires
        resolved(mu),
        child_key(k),
    ensures
        !hit(mu, k),
{
    let fb = before_forms(mu);
    let fa = after_forms(mu);
    if hit_forms(fb, 0, fb.len() as int, k) {
        let j = choose|j: int| 0 <= j < fb.len() && 0 <= j < fb.len() && key_of(#[trigger] fb[j]) == k;
        lemma_child_key(fb[j]);
    }
    if hit_forms(fa, 0, fa.len() as int, k) {
        let j = choose|j: int| 0 <= j < fa.len() && 0 <= j < fa.len() && key_of(#[trigger] fa[j]) == k;
        lemma_child_key(fa[j]);
    }
}

/// What one mutation that succeeds does: under the keys of operations that
/// were not generated it writes what it names; the generated operations that
/// were stored stay; and the operations generated for an issue without batch
/// that it puts in are stored after it, and were left as they were where
/// some were stored.
pub proof fn lemma_step_repeatable(ops: Seq<OpView>, mu: OpMutation)
    requires
        ops_sorted(ops),
        fits_all(ops),
        repeatable(mu),
        step(ops, mu) is Ok,
    ensures
        ops_sorted(step(ops, mu).unwrap()),
        fits_all(step(ops, mu).unwrap()),
        forall|k: Seq<u8>|
            !(#[trigger] child_key(k)) ==> agree(
                to_map(step(ops, mu).unwrap()),
                effect(to_map(ops), calm_one(mu)),
                k,
            ),
        forall|k: Seq<u8>|
            #[trigger] child_key(k) && !puts_issue(mu) ==> agree(
                to_map(step(ops, mu).unwrap()),
                to_map(ops),
                k,
            ),
        children_kept(ops, step(ops, mu).unwrap()),
        puts_issue(mu) ==> has_child(step(ops, mu).unwrap(), mu),
        puts_issue(mu) && has_child(ops, mu) ==> step(ops, mu).unwrap() == ops,
{
    let t = step(ops, mu).unwrap();
    let m0 = to_map(ops);
    if puts_issue(mu) {
        let a = mu.after.unwrap();
        assert(effect(m0, calm_one(mu)) == m0);
        assert(del_phase(ops, mu) == Ok::<Seq<OpView>, ErrorKind>(ops));
        if has_child(ops, mu) {
            let j = choose|j: int| 0 <= j < ops.len() && is_child(#[trigger] ops[j], mu);
            lemma_child_counted(ops, mu, ops.len() as int, j);
        }
        if children_count(ops, mu, ops.len() as int) > 0 {
            assert(t == ops);
            let j = lemma_some_child(ops, mu, ops.len() as int);
            assert(is_child(ops[j], mu));
            assert forall|j: int| 0 <= j < ops.len() && child_op(#[trigger] ops[j]) implies holds(
                t,
                ops[j],
            ) by {}
        } else {
            let balances = projected(ops, mu.store, mu.goods, mu.date);
            let kids = fifo(
                mu,
                a.qty_spec(),
                a.cost_spec(),
                mode_of(a),
                balances,
                0,
                a.qty_spec() as int,
            );
            let n = kids.len() as int;
            lemma_child_counted(ops, mu, ops.len() as int, 0);
            assert(t == ins_many(ops, kids, 0).unwrap());
            lemma_to_map_ins_many(ops, kids, 0);
            lemma_projected_oldest_first(ops, mu.store, mu.goods, mu.date);
            lemma_fifo_ascending(
                mu,
                a.qty_spec(),
                a.cost_spec(),
                mode_of(a),
                balances,
                a.qty_spec() as int,
            );
            lemma_fifo_conserves(
                mu,
                a.qty_spec(),
                a.cost_spec(),
                mode_of(a),
                balances,
                0,
                a.qty_spec() as int,
            );
            lemma_none_counted(ops, mu);
            lemma_ins_many_upto(ops, kids, 0);
            lemma_children_in(ops, mu, kids, n);
            assert(total_qty(kids, n) == 0);
            let j = lemma_some_child(t, mu, t.len() as int);
            assert(is_child(t[j], mu));
            assert forall|k: Seq<u8>| !(#[trigger] child_key(k)) implies agree(to_map(t), m0, k) by {
                if hit_forms(kids, 0, n, k) {
                    let j = choose|j: int|
                        0 <= j < n && 0 <= j < kids.len() && key_of(#[trigger] kids[j]) == k;
                    assert(is_child(kids[j], mu));
                    lemma_child_key(kids[j]);
                }
                lemma_map_ins_key(m0, m0, kids, 0, k);
            }
            assert forall|j: int| 0 <= j < ops.len() && child_op(#[trigger] ops[j]) implies holds(
                t,
                ops[j],
            ) by {
                lemma_ins_many_keeps(ops, kids, 0, ops[j]);
            }
        }
    } else {
        assert(calm_one(mu) == mu);
        lemma_to_map_step(ops, mu);
        assert forall|k: Seq<u8>| #[trigger] child_key(k) implies agree(to_map(t), m0, k) by {
            lemma_forms_plain(mu, k);
            lemma_effect_key(m0, m0, mu, k);
        }
        assert forall|j: int| 0 <= j < ops.len() && child_op(#[trigger] ops[j]) implies holds(
            t,
            ops[j],
        ) by {
            let k = key_of(ops[j]);
            lemma_child_key(ops[j]);
            assert(agree(to_map(t), m0, k));
            lemma_present_iff(ops, k);
            lemma_present_iff(t, k);
            assert(t[rank_ops(t, k)] == ops[j]);
        }
    }
}

/// What mutations that succeed do, one after the other.
pub proof fn lemma_run_repeatable(ops: Seq<OpView>, ms: Seq<OpMutation>, i: int)
    requires
        ops_sorted(ops),
        fits_all(ops),
        all_repeatable(ms),
        0 <= i <= ms.len(),
        run(ops, ms, i) is Ok,
    ensures
        ops_sorted(run(ops, ms, i).unwrap()),
        fits_all(run(ops, ms, i).unwrap()),
        forall|k: Seq<u8>|
            !(#[trigger] child_key(k)) ==> agree(
                to_map(run(ops, ms, i).unwrap()),
                effect_all(to_map(ops), calm(ms), i),
                k,
            ),
        children_kept(ops, run(ops, ms, i).unwrap()),
        forall|j: int|
            i <= j < ms.len() && puts_issue(#[trigger] ms[j]) ==> has_child(
                run(ops, ms, i).unwrap(),
                ms[j],
            ),
    decreases ms.len() - i,
{
    let t = run(ops, ms, i).unwrap();
    let c = calm(ms);
    if i < ms.len() {
        let next = step(ops, ms[i]).unwrap();
        lemma_step_repeatable(ops, ms[i]);
        lemma_run_repeatable(next, ms, i + 1);
        assert(c[i] == calm_one(ms[i]));
        assert forall|k: Seq<u8>| !(#[trigger] child_key(k)) implies agree(
            to_map(t),
            effect_all(to_map(ops), c, i),
            k,
        ) by {
            lemma_effect_all_key(to_map(next), effect(to_map(ops), c[i]), c, i + 1, k);
        }
        assert forall|j: int| 0 <= j < next.len() && child_op(#[trigger] next[j]) implies holds(
            t,
            next[j],
        ) by {}
        assert forall|j: int| 0 <= j < ops.len() && child_op(#[trigger] ops[j]) implies holds(
            t,
            ops[j],
        ) by {
            assert(holds(next, ops[j]));
            let j1 = choose|j1: int| 0 <= j1 < next.len() && #[trigger] next[j1] == ops[j];
            assert(holds(t, next[j1]));
        }
        assert forall|j: int| i <= j < ms.len() && puts_issue(#[trigger] ms[j]) implies has_child(
            t,
            ms[j],
        ) by {
            if j == i {
                let x = choose|x: int| 0 <= x < next.len() && is_child(#[trigger] next[x], ms[i]);
                assert(holds(t, next[x]));
                let y = choose|y: int| 0 <= y < t.len() && #[trigger] t[y] == next[x];
                assert(is_child(t[y], ms[i]));
            }
        }
    } else {
        assert forall|j: int| 0 <= j < ops.len() && child_op(#[trigger] ops[j]) implies holds(
            t,
            ops[j],
        ) by {}
    }
}

/// Mutations that find the operations generated for their issues stored
/// leave every generated operation as it is.
pub proof fn lemma_rerun_children(ops: Seq<OpView>, ms: Seq<OpMutation>, i: int)
    requires
        ops_sorted(ops),
        fits_all(ops),
        all_repeatable(ms),
        0 <= i <= ms.len(),
        run(ops, ms, i) is Ok,
        forall|j: int| i <= j < ms.len() && puts_issue(#[trigger] ms[j]) ==> has_child(ops, ms[j]),
    ensures
        forall|k: Seq<u8>|
            #[trigger] child_key(k) ==> agree(to_map(run(ops, ms, i).unwrap()), to_map(ops), k),
    decreases ms.len() - i,
{
    if i < ms.len() {
        let next = step(ops, ms[i]).unwrap();
        lemma_step_repeatable(ops, ms[i]);
        assert forall|j: int| i + 1 <= j < ms.len() && puts_issue(#[trigger] ms[j]) implies has_child(
            next,
            ms[j],
        ) by {
            let x = choose|x: int| 0 <= x < ops.len() && is_child(#[trigger] ops[x], ms[j]);
            assert(holds(next, ops[x]));
            let y = choose|y: int| 0 <= y < next.len() && #[trigger] next[y] == ops[x];
            assert(is_child(next[y], ms[j]));
        }
        lemma_rerun_children(next, ms, i + 1);
        assert forall|k: Seq<u8>| #[trigger] child_key(k) implies agree(
            to_map(run(ops, ms, i).unwrap()),
            to_map(ops),
            k,
        ) by {
            assert(agree(to_map(run(next, ms, i + 1).unwrap()), to_map(next), k));
            assert(agree(to_map(next), to_map(ops), k));
        }
    }
}

/// Recording the same mutations a second time changes nothing: where
/// mutations, none of which takes an issue without batch away or changes
/// one, took the stored operations from `ops` to `once`, they take `once` to
/// `once`, or they are refused.
pub proof fn lemma_rerun(ops: Seq<OpView>, ms: Seq<OpMutation>)
    requires
        ops_sorted(ops),
        fits_all(ops),
        all_repeatable(ms),
        run(ops, ms, 0) is Ok,
    ensures
        run(run(ops, ms, 0).unwrap(), ms, 0) matches Ok(twice) ==> twice == run(
            ops,
            ms,
            0,
        ).unwrap(),
{
    let once = run(ops, ms, 0).unwrap();
    let c = calm(ms);
    lemma_run_repeatable(ops, ms, 0);
    if run(once, ms, 0) is Ok {
        let twice = run(once, ms, 0).unwrap();
        lemma_run_repeatable(once, ms, 0);
        lemma_rerun_children(once, ms, 0);
        let a = to_map(ops);
        let f = to_map(once);
        let g = to_map(twice);
        assert forall|k: Seq<u8>| agree(g, f, k) by {
            if child_key(k) {
            } else {
                assert(agree(f, effect_all(a, c, 0), k));
                assert(agree(g, effect_all(f, c, 0), k));
                lemma_effect_all_key(f, a, c, 0, k);
                lemma_effect_all_key(f, f, c, 0, k);
            }
        }
        assert forall|k: Seq<u8>| g.dom().contains(k) == f.dom().contains(k) by {
            assert(agree(g, f, k));
        }
        assert forall|k: Seq<u8>| #[trigger] g.dom().contains(k) implies g[k] == f[k] by {
            assert(agree(g, f, k));
        }
        assert(g.dom() =~= f.dom());
        assert(g =~= f);
        lemma_map_determines(twice, once);
    }
}

/// The boundary to which a mutation advances the latest checkpoint date,
/// where it advances it at all.
pub open spec fn advances_to(m: OpMutation) -> Option<u64> {
    if m.before != m.after && m.after is Some {
        checkpoint_date(m.date)
    } else {
        None
    }
}

proof fn lemma_latest_run_bounds(latest: u64, ms: Seq<OpMutation>, i: int)
    requires
        0 <= i <= ms.len(),
    ensures
        latest_run(latest, ms, i) >= latest,
        forall|j: int|
            i <= j < ms.len() ==>
                (advances_to(#[trigger] ms[j]) matches Some(d) ==> d <= latest_run(
                latest,
                ms,
                i,
            )),
    decreases ms.len() - i,
{
    if i < ms.len() {
        lemma_latest_run_bounds(latest_step(latest, ms[i]), ms, i + 1);
    }
}

proof fn lemma_latest_run_stays(latest: u64, ms: Seq<OpMutation>, i: int)
    requires
        0 <= i <= ms.len(),
        forall|j: int|
            i <= j < ms.len() ==> (advances_to(#[trigger] ms[j]) matches Some(d) ==> d <= latest),
    ensures
        latest_run(latest, ms, i) == latest,
    decreases ms.len() - i,
{
    if i < ms.len() {
        assert(advances_to(ms[i]) matches Some(d) ==> d <= latest);
        lemma_latest_run_stays(latest, ms, i + 1);
    }
}

/// Re-applying an identical list of mutations is idempotent: where a list of
/// mutations, none of which takes an issue without batch away or changes
/// one, took a coherent store from `first` to `once`, recording the list on
/// `once` leaves a store that holds the operations, the running balances,
/// the checkpoints and the latest checkpoint date of `once`.
///
/// A list that takes an issue without batch away is left out: where the list
/// puts the issue in again, it is resolved against the balances that are
/// stored then, and a second run may find other balances than the first.
pub proof fn lemma_record_twice(first: &Db, once: &Db, twice: &Db, ms: Seq<OpMutation>)
    requires
        first.wf(),
        once.wf(),
        twice.wf(),
        all_repeatable(ms),
        run(first.ops(), ms, 0) == Ok::<Seq<OpView>, ErrorKind>(once.ops()),
        once.latest() == latest_run(first.latest(), ms, 0),
        match run(once.ops(), ms, 0) {
            Ok(t) => twice.ops() == t && twice.latest() == latest_run(once.latest(), ms, 0),
            Err(_) => twice.entries() == once.entries() && twice.snapshots() == once.snapshots()
                && twice.latest() == once.latest(),
        },
    ensures
        twice.entries() == once.entries(),
        twice.snapshots() == once.snapshots(),
        twice.latest() == once.latest(),
{
    lemma_store_sorted(first);
    lemma_rerun(first.ops(), ms);
    if run(once.ops(), ms, 0) is Ok {
        lemma_canonical(twice, once);
        lemma_latest_run_bounds(first.latest(), ms, 0);
        lemma_latest_run_stays(once.latest(), ms, 0);
    }
}

} // verus!
