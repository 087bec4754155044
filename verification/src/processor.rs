//! What a mutation does to the stored operations, as a function on the
//! sequence of operations in key order.

use crate::balances::{balance_on_date, fits_all, Place};
use crate::bytes::lex_lt;
use crate::elements::{
    Amount, Balance, BalanceForGoods, Batch, Dependant, InternalOperation, Mode, Op, OpMutation,
    OpView, Qty,
};
use crate::error::ErrorKind;
use crate::time::checkpoint_date;
use crate::topologies::date_type_store_batch_id::{keyed, op_views, rank, OpEntryView};
use crate::topologies::op_key::key_of;
use vstd::prelude::*;

verus! {

/// How many of the operations have a key strictly before `key`.
pub open spec fn rank_ops(ops: Seq<OpView>, key: Seq<u8>) -> int
    decreases ops.len(),
{
    if ops.len() == 0 {
        0
    } else {
        rank_ops(ops.drop_last(), key) + if lex_lt(key_of(ops.last()), key) {
            1int
        } else {
            0int
        }
    }
}

/// Whether an operation is stored under `key`.
pub open spec fn key_present(ops: Seq<OpView>, key: Seq<u8>) -> bool {
    0 <= rank_ops(ops, key) < ops.len() && key_of(ops[rank_ops(ops, key)]) == key
}

/// Whether exactly this operation is stored.
pub open spec fn found(ops: Seq<OpView>, o: OpView) -> bool {
    key_present(ops, key_of(o)) && ops[rank_ops(ops, key_of(o))] == o
}

/// The operations of entries have the rank that the entries have.
pub proof fn lemma_rank_ops(s: Seq<OpEntryView>, key: Seq<u8>)
    requires
        keyed(s),
    ensures
        rank_ops(Seq::new(s.len(), |i: int| s[i].op), key) == rank(s, key),
    decreases s.len(),
{
    let ops = Seq::new(s.len(), |i: int| s[i].op);
    if s.len() > 0 {
        let t = s.drop_last();
        assert(Seq::new(t.len(), |i: int| t[i].op) =~= ops.drop_last());
        assert forall|i: int| 0 <= i < t.len() implies (#[trigger] t[i]).key == key_of(t[i].op) by {
            assert(t[i] == s[i]);
        }
        lemma_rank_ops(t, key);
        assert(s.last().key == key_of(s.last().op));
    }
}

/// Puts one operation in: refused where its key is taken, and where a running
/// balance would leave the range that is kept.
pub open spec fn ins_one(ops: Seq<OpView>, o: OpView) -> Result<Seq<OpView>, ErrorKind> {
    if key_present(ops, key_of(o)) {
        Err(ErrorKind::Conflict)
    } else if !fits_all(ops.insert(rank_ops(ops, key_of(o)), o)) {
        Err(ErrorKind::Capacity)
    } else {
        Ok(ops.insert(rank_ops(ops, key_of(o)), o))
    }
}

/// Takes one operation out: refused where it is not stored as given, and
/// where a running balance would leave the range that is kept.
pub open spec fn del_one(ops: Seq<OpView>, o: OpView) -> Result<Seq<OpView>, ErrorKind> {
    if !found(ops, o) {
        Err(ErrorKind::Conflict)
    } else if !fits_all(ops.remove(rank_ops(ops, key_of(o)))) {
        Err(ErrorKind::Capacity)
    } else {
        Ok(ops.remove(rank_ops(ops, key_of(o))))
    }
}

/// Puts the operations `forms[i..]` in, one after the other.
pub open spec fn ins_many(ops: Seq<OpView>, forms: Seq<OpView>, i: int) -> Result<
    Seq<OpView>,
    ErrorKind,
>
    decreases forms.len() - i,
{
    if i < 0 || i >= forms.len() {
        Ok(ops)
    } else {
        match ins_one(ops, forms[i]) {
            Ok(next) => ins_many(next, forms, i + 1),
            Err(k) => Err(k),
        }
    }
}

/// Takes the operations `forms[i..n]` out, the last one first.
pub open spec fn del_many(ops: Seq<OpView>, forms: Seq<OpView>, i: int, n: int) -> Result<
    Seq<OpView>,
    ErrorKind,
>
    decreases n - i,
{
    if i < 0 || n <= i || n > forms.len() {
        Ok(ops)
    } else {
        match del_one(ops, forms[n - 1]) {
            Ok(next) => del_many(next, forms, i, n - 1),
            Err(k) => Err(k),
        }
    }
}

/// Whether all of `forms[i..]` are stored as given.
pub open spec fn all_found(ops: Seq<OpView>, forms: Seq<OpView>, i: int) -> bool
    decreases forms.len() - i,
{
    if i < 0 || i >= forms.len() {
        true
    } else {
        found(ops, forms[i]) && all_found(ops, forms, i + 1)
    }
}

/// All of `forms[i..]` are found only if `forms[j]` is, for `j` from `i` on.
pub proof fn lemma_all_found_needs(ops: Seq<OpView>, forms: Seq<OpView>, i: int, j: int)
    requires
        0 <= i <= j < forms.len(),
        !found(ops, forms[j]),
    ensures
        !all_found(ops, forms, i),
    decreases j - i,
{
    if i < j {
        lemma_all_found_needs(ops, forms, i + 1, j);
    }
}

/// Whether an operation was generated for the issue without batch that the
/// mutation describes.
pub open spec fn is_child(o: OpView, m: OpMutation) -> bool {
    o.is_dependent && o.op is Issue && o.id == m.id && o.date == m.date && o.store == m.store
        && o.goods == m.goods
}

/// The total quantity of the generated operations among the first `n`.
pub open spec fn children_qty(ops: Seq<OpView>, m: OpMutation, n: int) -> int
    decreases n,
{
    if n <= 0 {
        0
    } else if is_child(ops[n - 1], m) {
        children_qty(ops, m, n - 1) + ops[n - 1].op.qty_spec()
    } else {
        children_qty(ops, m, n - 1)
    }
}

/// How many generated operations are among the first `n`.
pub open spec fn children_count(ops: Seq<OpView>, m: OpMutation, n: int) -> int
    decreases n,
{
    if n <= 0 {
        0
    } else if is_child(ops[n - 1], m) {
        children_count(ops, m, n - 1) + 1
    } else {
        children_count(ops, m, n - 1)
    }
}

/// Where generated operations are counted among the first `n`, one is there.
pub proof fn lemma_some_child(ops: Seq<OpView>, m: OpMutation, n: int) -> (i: int)
    requires
        0 <= n <= ops.len(),
        children_count(ops, m, n) > 0,
    ensures
        0 <= i < n,
        is_child(ops[i], m),
    decreases n,
{
    if is_child(ops[n - 1], m) {
        n - 1
    } else {
        lemma_some_child(ops, m, n - 1)
    }
}

/// Takes the generated operations among the first `n` out, the last one
/// first.
pub open spec fn del_children(ops: Seq<OpView>, m: OpMutation, n: int) -> Result<
    Seq<OpView>,
    ErrorKind,
>
    decreases n,
{
    if n <= 0 || n > ops.len() {
        Ok(ops)
    } else if is_child(ops[n - 1], m) {
        if fits_all(ops.remove(n - 1)) {
            del_children(ops.remove(n - 1), m, n - 1)
        } else {
            Err(ErrorKind::Capacity)
        }
    } else {
        del_children(ops, m, n - 1)
    }
}

/// The cost of `part` out of `whole` units that cost `cost` together.
pub open spec fn part_cost(cost: int, part: int, whole: int) -> int {
    if whole == 0 {
        0
    } else {
        (cost * part) / whole
    }
}

/// The operation generated for the part of an issue that one batch covers.
pub open spec fn child_of(m: OpMutation, batch: Batch, qty: Qty, cost: i64, mode: Mode) -> OpView {
    OpView {
        id: m.id,
        date: m.date,
        store: m.store,
        goods: m.goods,
        batch,
        op: InternalOperation::Issue(qty, cost, mode),
        is_dependent: true,
        dependant: Seq::empty(),
    }
}

/// How much of a positive quantity still asked for the batch takes: nothing
/// from the unspecified batch or from a batch without a positive quantity.
pub open spec fn take_of(b: Balance, remaining: int) -> int {
    if remaining > 0 && b.number.qty > 0 && !b.batch.is_empty_spec() {
        if remaining <= b.number.qty {
            remaining
        } else {
            b.number.qty as int
        }
    } else {
        0
    }
}

/// What is still asked for after the walk over `balances[i..]`.
pub open spec fn left_over(balances: Seq<Balance>, i: int, remaining: int) -> int
    decreases balances.len() - i,
{
    if i < 0 || i >= balances.len() {
        remaining
    } else {
        left_over(balances, i + 1, remaining - take_of(balances[i], remaining))
    }
}

/// The operations generated for what the batches `balances[i..]` cover, in
/// the order of the balances.
pub open spec fn taken(
    m: OpMutation,
    mode: Mode,
    balances: Seq<Balance>,
    i: int,
    remaining: int,
) -> Seq<OpView>
    decreases balances.len() - i,
{
    if i < 0 || i >= balances.len() {
        Seq::empty()
    } else {
        let b = balances[i];
        let take = take_of(b, remaining);
        if take > 0 {
            seq![
                child_of(
                    m,
                    b.batch,
                    take as i64,
                    part_cost(b.number.cost as int, take, b.number.qty as int) as i64,
                    mode,
                ),
            ] + taken(m, mode, balances, i + 1, remaining - take)
        } else {
            taken(m, mode, balances, i + 1, remaining)
        }
    }
}

/// The operation generated for what no batch covers: issued in manual mode
/// from the unspecified batch, at the share of the cost that was given.
pub open spec fn uncovered_child(m: OpMutation, qty: Qty, cost: i64, rest: int) -> OpView {
    child_of(
        m,
        Batch { id: 0, date: 0 },
        rest as i64,
        part_cost(cost as int, rest, qty as int) as i64,
        Mode::Manual,
    )
}

/// First in, first out: walks the balances `balances[i..]` in their order and
/// takes from every batch with a positive quantity as much as is still asked
/// for, at the average cost of the batch. What no batch covers is issued in
/// manual mode from the unspecified batch, at the share of the cost that was
/// given. The generated operations stand in the order of their batches: the
/// one from the unspecified batch first.
pub open spec fn fifo(
    m: OpMutation,
    qty: Qty,
    cost: i64,
    mode: Mode,
    balances: Seq<Balance>,
    i: int,
    remaining: int,
) -> Seq<OpView> {
    let rest = left_over(balances, i, remaining);
    if rest != 0 {
        seq![uncovered_child(m, qty, cost, rest)] + taken(m, mode, balances, i, remaining)
    } else {
        taken(m, mode, balances, i, remaining)
    }
}

/// The coordinates of generated operations.
pub open spec fn coordinates(children: Seq<OpView>) -> Seq<Dependant> {
    Seq::new(
        children.len(),
        |i: int|
            Dependant {
                store: children[i].store,
                batch: children[i].batch,
                op_order: children[i].order(),
            },
    )
}

/// The total quantity of the operations `children[i..]`.
pub open spec fn total_qty(children: Seq<OpView>, i: int) -> int
    decreases children.len() - i,
{
    if i < 0 || i >= children.len() {
        0
    } else {
        children[i].op.qty_spec() + total_qty(children, i + 1)
    }
}

/// What the batches cover and what is left over are together what was asked
/// for.
pub proof fn lemma_taken_conserves(
    m: OpMutation,
    mode: Mode,
    balances: Seq<Balance>,
    i: int,
    remaining: int,
)
    requires
        0 <= i <= balances.len(),
    ensures
        total_qty(taken(m, mode, balances, i, remaining), 0) + left_over(balances, i, remaining)
            == remaining,
        remaining > 0 ==> 0 <= left_over(balances, i, remaining) <= remaining,
        remaining <= 0 ==> left_over(balances, i, remaining) == remaining,
    decreases balances.len() - i,
{
    let all = taken(m, mode, balances, i, remaining);
    if i < balances.len() {
        let take = take_of(balances[i], remaining);
        lemma_taken_conserves(m, mode, balances, i + 1, remaining - take);
        if take > 0 {
            let rest = taken(m, mode, balances, i + 1, remaining - take);
            lemma_total_qty_shift(all, rest, 0);
        }
    }
}

/// The generated operations issue exactly what is still asked for.
pub proof fn lemma_fifo_conserves(
    m: OpMutation,
    qty: Qty,
    cost: i64,
    mode: Mode,
    balances: Seq<Balance>,
    i: int,
    remaining: int,
)
    requires
        0 <= i <= balances.len(),
        i64::MIN <= remaining <= i64::MAX,
    ensures
        total_qty(fifo(m, qty, cost, mode, balances, i, remaining), 0) == remaining,
{
    let all = fifo(m, qty, cost, mode, balances, i, remaining);
    let part = taken(m, mode, balances, i, remaining);
    lemma_taken_conserves(m, mode, balances, i, remaining);
    if left_over(balances, i, remaining) != 0 {
        lemma_total_qty_shift(all, part, 0);
    }
}

proof fn lemma_total_qty_shift(all: Seq<OpView>, rest: Seq<OpView>, j: int)
    requires
        all.len() == rest.len() + 1,
        0 <= j <= rest.len(),
        forall|k: int| 0 <= k < rest.len() ==> all[k + 1] == rest[k],
    ensures
        total_qty(all, j + 1) == total_qty(rest, j),
    decreases rest.len() - j,
{
    if j < rest.len() {
        lemma_total_qty_shift(all, rest, j + 1);
    }
}

/// Where no batch has a positive quantity, nothing is taken from a batch.
proof fn lemma_nothing_taken(
    m: OpMutation,
    mode: Mode,
    balances: Seq<Balance>,
    i: int,
    remaining: int,
)
    requires
        0 <= i <= balances.len(),
        forall|k: int| 0 <= k < balances.len() ==> (#[trigger] balances[k]).number.qty <= 0,
    ensures
        taken(m, mode, balances, i, remaining) == Seq::<OpView>::empty(),
        left_over(balances, i, remaining) == remaining,
    decreases balances.len() - i,
{
    if i < balances.len() {
        assert(take_of(balances[i], remaining) == 0);
        lemma_nothing_taken(m, mode, balances, i + 1, remaining);
    }
}

/// Where no batch has a positive quantity, the whole issue falls back to one
/// manual issue from the unspecified batch.
pub proof fn lemma_fifo_falls_back(
    m: OpMutation,
    qty: Qty,
    cost: i64,
    mode: Mode,
    balances: Seq<Balance>,
    i: int,
)
    requires
        0 <= i <= balances.len(),
        qty != 0,
        forall|k: int| 0 <= k < balances.len() ==> (#[trigger] balances[k]).number.qty <= 0,
    ensures
        fifo(m, qty, cost, mode, balances, i, qty as int) == seq![
            child_of(m, Batch { id: 0, date: 0 }, qty, cost, Mode::Manual),
        ],
{
    lemma_nothing_taken(m, mode, balances, i, qty as int);
    assert((cost as int * qty as int) / (qty as int) == cost as int) by (nonlinear_arith)
        requires
            qty != 0,
    ;
    assert(seq![uncovered_child(m, qty, cost, qty as int)] + Seq::<OpView>::empty()
        =~= seq![child_of(m, Batch { id: 0, date: 0 }, qty, cost, Mode::Manual)]);
}

/// The order of batches: by date, then by identity.
pub open spec fn batch_lt(a: Batch, b: Batch) -> bool {
    a.date < b.date || (a.date == b.date && a.id < b.id)
}

/// How many of the first `n` batches come before `b`.
pub open spec fn batch_rank(list: Seq<Batch>, b: Batch, n: int) -> int
    decreases n,
{
    if n <= 0 {
        0
    } else {
        batch_rank(list, b, n - 1) + if batch_lt(list[n - 1], b) {
            1int
        } else {
            0int
        }
    }
}

/// The list with `b` at its place, where it is not yet in it.
pub open spec fn with_batch(list: Seq<Batch>, b: Batch) -> Seq<Batch> {
    if list.contains(b) {
        list
    } else {
        list.insert(batch_rank(list, b, list.len() as int), b)
    }
}

/// The batches of the first `n` operations on the store and goods that are
/// dated before `date`, oldest batch first.
pub open spec fn batches_before(
    ops: Seq<OpView>,
    store: u128,
    goods: u128,
    date: u64,
    n: int,
) -> Seq<
    Batch,
>
    decreases n,
{
    if n <= 0 {
        Seq::empty()
    } else if ops[n - 1].store == store && ops[n - 1].goods == goods && ops[n - 1].date < date {
        with_batch(batches_before(ops, store, goods, date, n - 1), ops[n - 1].batch)
    } else {
        batches_before(ops, store, goods, date, n - 1)
    }
}

/// The balance of every batch in `list` right before `date`.
pub open spec fn balances_of(
    ops: Seq<OpView>,
    store: u128,
    goods: u128,
    date: u64,
    list: Seq<Batch>,
) -> Seq<
    Balance,
> {
    Seq::new(
        list.len(),
        |i: int|
            Balance {
                date,
                store,
                goods,
                batch: list[i],
                number: kept_balance(
                    balance_on_date(
                        ops,
                        Place { store, goods, batch: list[i] },
                        if date > 0 {
                            (date - 1) as u64
                        } else {
                            0
                        },
                    ),
                ),
            },
    )
}

/// The balance with the given components.
pub open spec fn kept_balance(a: Amount) -> BalanceForGoods {
    BalanceForGoods { qty: a.qty as i64, cost: a.cost as i64 }
}

/// The balances against which an issue without batch dated `date` is
/// resolved: of every batch of the store and goods that was moved before
/// `date`, oldest batch first, the balance right before `date`.
pub open spec fn projected(ops: Seq<OpView>, store: u128, goods: u128, date: u64) -> Seq<Balance> {
    balances_of(ops, store, goods, date, batches_before(ops, store, goods, date, ops.len() as int))
}

/// Whether the movement is an issue that names no batch.
pub open spec fn unresolved(m: OpMutation, op: InternalOperation) -> bool {
    op is Issue && m.batch.is_empty_spec()
}

/// The operations that a movement with a batch is stored as.
pub open spec fn forms(m: OpMutation, op: InternalOperation) -> Seq<OpView> {
    match (op, m.transfer) {
        (InternalOperation::Transfer(_, _), Some(into)) => seq![
            m.op_of(op),
            m.transfer_in_of(op, into),
        ],
        _ => seq![m.op_of(op)],
    }
}

/// Whether what the mutation leaves behind breaks a rule of the data model.
pub open spec fn invalid(m: OpMutation) -> bool {
    match m.after {
        Some(a) => {
            ||| a.qty_spec() == 0
            ||| (a is Issue && !m.batch.is_empty_spec() && m.batch.date > m.date)
            ||| (a is Transfer && (m.transfer is None || m.batch.is_empty_spec()))
            ||| checkpoint_date(m.date) is None
        },
        None => false,
    }
}

/// Takes out what stood before the mutation.
pub open spec fn del_phase(ops: Seq<OpView>, m: OpMutation) -> Result<Seq<OpView>, ErrorKind> {
    match m.before {
        None => Ok(ops),
        Some(b) => if unresolved(m, b) {
            if children_count(ops, m, ops.len() as int) == 0 || children_qty(
                ops,
                m,
                ops.len() as int,
            ) != b.qty_spec() {
                Err(ErrorKind::Conflict)
            } else {
                del_children(ops, m, ops.len() as int)
            }
        } else {
            del_many(ops, forms(m, b), 0, forms(m, b).len() as int)
        },
    }
}

/// Puts in what stands after the mutation. What is stored already as it
/// would be put in is left as it is.
pub open spec fn ins_phase(ops: Seq<OpView>, m: OpMutation) -> Result<Seq<OpView>, ErrorKind> {
    match m.after {
        None => Ok(ops),
        Some(a) => if unresolved(m, a) {
            if children_count(ops, m, ops.len() as int) > 0 {
                if children_qty(ops, m, ops.len() as int) == a.qty_spec() {
                    Ok(ops)
                } else {
                    Err(ErrorKind::Conflict)
                }
            } else {
                ins_many(
                    ops,
                    fifo(
                        m,
                        a.qty_spec(),
                        a.cost_spec(),
                        mode_of(a),
                        projected(ops, m.store, m.goods, m.date),
                        0,
                        a.qty_spec() as int,
                    ),
                    0,
                )
            }
        } else if all_found(ops, forms(m, a), 0) {
            Ok(ops)
        } else {
            ins_many(ops, forms(m, a), 0)
        },
    }
}

/// The mode of an issue; `Auto` for other movements.
pub open spec fn mode_of(op: InternalOperation) -> Mode {
    match op {
        InternalOperation::Issue(_, _, mode) => mode,
        _ => Mode::Auto,
    }
}

/// What one mutation makes of the stored operations: nothing where before
/// and after are the same; else what stood before goes and what stands after
/// comes.
pub open spec fn step(ops: Seq<OpView>, m: OpMutation) -> Result<Seq<OpView>, ErrorKind> {
    if m.before == m.after {
        Ok(ops)
    } else if invalid(m) {
        Err(ErrorKind::Invalid)
    } else {
        match del_phase(ops, m) {
            Ok(mid) => ins_phase(mid, m),
            Err(k) => Err(k),
        }
    }
}

/// What the mutations `ms[i..]` make of the stored operations, one after the
/// other; the first refusal refuses them all.
pub open spec fn run(ops: Seq<OpView>, ms: Seq<OpMutation>, i: int) -> Result<Seq<OpView>, ErrorKind>
    decreases ms.len() - i,
{
    if i < 0 || i >= ms.len() {
        Ok(ops)
    } else {
        match step(ops, ms[i]) {
            Ok(next) => run(next, ms, i + 1),
            Err(k) => Err(k),
        }
    }
}

/// The latest checkpoint date after one mutation: advanced to the boundary of
/// what the mutation leaves behind, never rewound.
pub open spec fn latest_step(latest: u64, m: OpMutation) -> u64 {
    if m.before != m.after && m.after is Some && checkpoint_date(m.date) is Some && checkpoint_date(
        m.date,
    ).unwrap() > latest {
        checkpoint_date(m.date).unwrap()
    } else {
        latest
    }
}

/// The latest checkpoint date after the mutations `ms[i..]`.
pub open spec fn latest_run(latest: u64, ms: Seq<OpMutation>, i: int) -> u64
    decreases ms.len() - i,
{
    if i < 0 || i >= ms.len() {
        latest
    } else {
        latest_run(latest_step(latest, ms[i]), ms, i + 1)
    }
}

/// The cost of `part` out of `whole` units that cost `cost` together, rounded
/// down.
pub fn share_cost(cost: i64, part: i64, whole: i64) -> (r: i64)
    requires
        0 < part <= whole,
    ensures
        r == part_cost(cost as int, part as int, whole as int),
        cost >= 0 ==> 0 <= r <= cost,
        cost < 0 ==> cost <= r <= 0,
{
    proof {
        assert(-0x8000_0000_0000_0000 * 0x7fff_ffff_ffff_ffff <= (cost as int) * (part as int)
            <= 0x7fff_ffff_ffff_ffff * 0x7fff_ffff_ffff_ffff) by (nonlinear_arith)
            requires
                -0x8000_0000_0000_0000 <= cost <= 0x7fff_ffff_ffff_ffff,
                0 < part <= 0x7fff_ffff_ffff_ffff,
        ;
    }
    let n: i128 = (cost as i128) * (part as i128);
    let w: i128 = whole as i128;
    if n >= 0 {
        let q: i128 = n / w;
        proof {
            assert(0 <= (n as int) / (w as int) <= cost) by (nonlinear_arith)
                requires
                    n == (cost as int) * (part as int),
                    n >= 0,
                    0 < part <= w,
                    w == whole as int,
            ;
        }
        q as i64
    } else {
        let a: i128 = -n;
        let c: i128 = (a + w - 1) / w;
        proof {
            let ci = c as int;
            let wi = w as int;
            let ai = a as int;
            assert(ci * wi >= ai && (ci - 1) * wi < ai && ci >= 1) by (nonlinear_arith)
                requires
                    ci == (ai + wi - 1) / wi,
                    wi > 0,
                    ai > 0,
            ;
            let rem = (n as int) + ci * wi;
            assert((n as int) == (-ci) * wi + rem) by (nonlinear_arith)
                requires
                    rem == (n as int) + ci * wi,
            ;
            assert(0 <= rem < wi) by (nonlinear_arith)
                requires
                    rem == (n as int) + ci * wi,
                    n as int == -ai,
                    ci * wi >= ai,
                    (ci - 1) * wi < ai,
            ;
            vstd::arithmetic::div_mod::lemma_fundamental_div_mod_converse(n as int, wi, -ci, rem);
            assert(ci <= -(cost as int)) by (nonlinear_arith)
                requires
                    (ci - 1) * wi < ai,
                    ai == -((cost as int) * (part as int)),
                    0 < part <= wi,
                    cost < 0,
                    ci >= 1,
            ;
        }
        (-c) as i64
    }
}

/// Resolves an issue without batch against the balances of the batches, first
/// in, first out.
pub fn allocate(m: &OpMutation, qty: Qty, cost: i64, mode: Mode, balances: &Vec<Balance>) -> (r:
    Vec<Op>)
    ensures
        op_views(r@) == fifo(*m, qty, cost, mode, balances@, 0, qty as int),
{
    let ghost whole = taken(*m, mode, balances@, 0, qty as int);
    let ghost rest = left_over(balances@, 0, qty as int);
    let mut children: Vec<Op> = Vec::new();
    let mut remaining: i64 = qty;
    let mut i: usize = 0;
    assert(op_views(children@) =~= Seq::<OpView>::empty());
    while i < balances.len()
        invariant
            i <= balances@.len(),
            whole == taken(*m, mode, balances@, 0, qty as int),
            rest == left_over(balances@, 0, qty as int),
            op_views(children@) + taken(*m, mode, balances@, i as int, remaining as int) == whole,
            left_over(balances@, i as int, remaining as int) == rest,
            qty > 0 ==> 0 <= remaining <= qty,
            qty <= 0 ==> remaining == qty,
        decreases balances@.len() - i,
    {
        let b: Balance = balances[i];
        if remaining > 0 && b.number.qty > 0 && !b.batch.is_empty() {
            let take: i64 = if remaining <= b.number.qty {
                remaining
            } else {
                b.number.qty
            };
            assert(take as int == take_of(b, remaining as int));
            let child: Op = Op {
                id: m.id,
                date: m.date,
                store: m.store,
                goods: m.goods,
                batch: b.batch,
                op: InternalOperation::Issue(
                    take,
                    share_cost(b.number.cost, take, b.number.qty),
                    mode,
                ),
                is_dependent: true,
                dependant: Vec::new(),
            };
            let ghost before = op_views(children@);
            let ghost tail = taken(*m, mode, balances@, i + 1, remaining as int - take as int);
            children.push(child);
            proof {
                assert(op_views(children@) =~= before.push(child@));
                assert(before.push(child@) + tail =~= before + (seq![child@] + tail));
            }
            remaining = remaining - take;
        } else {
            assert(take_of(b, remaining as int) == 0);
        }
        i = i + 1;
    }
    proof {
        assert(op_views(children@) + Seq::<OpView>::empty() =~= op_views(children@));
    }
    if remaining != 0 {
        let rest_cost: i64 = if remaining == qty {
            proof {
                assert(((cost as int) * (qty as int)) / (qty as int) == cost as int)
                    by (nonlinear_arith)
                    requires
                        qty != 0,
                ;
            }
            cost
        } else {
            share_cost(cost, remaining, qty)
        };
        let child: Op = Op {
            id: m.id,
            date: m.date,
            store: m.store,
            goods: m.goods,
            batch: Batch { id: 0, date: 0 },
            op: InternalOperation::Issue(remaining, rest_cost, Mode::Manual),
            is_dependent: true,
            dependant: Vec::new(),
        };
        let ghost before = op_views(children@);
        children.insert(0, child);
        proof {
            assert(op_views(children@) =~= seq![child@] + before);
        }
    }
    children
}

/// The mode of an issue; `Auto` for other movements.
pub fn op_mode(op: &InternalOperation) -> (r: Mode)
    ensures
        r == mode_of(*op),
{
    match op {
        InternalOperation::Issue(_, _, mode) => *mode,
        _ => Mode::Auto,
    }
}

impl OpMutation {
    /// Resolves the issue that the mutation leaves behind against the
    /// balances of the batches, first in, first out: the issue with the
    /// coordinates of what was generated for it, and what was generated.
    /// Nothing where the mutation leaves no issue behind.
    pub fn resolve(&self, balances: &Vec<Balance>) -> (r: Option<(Op, Vec<Op>)>)
        ensures
            r is Some <==> (self.after matches Some(a) && a is Issue),
            r matches Some(found) ==> {
                let a = self.after.unwrap();
                let children = fifo(
                    *self,
                    a.qty_spec(),
                    a.cost_spec(),
                    mode_of(a),
                    balances@,
                    0,
                    a.qty_spec() as int,
                );
                &&& op_views(found.1@) == children
                &&& found.0@ == (OpView { dependant: coordinates(children), ..self.op_of(a) })
            },
    {
        match self.after {
            Some(a) => {
                if !a.is_issue() {
                    return None;
                }
                let children: Vec<Op> = allocate(self, a.qty(), a.cost(), op_mode(&a), balances);
                let mut dependant: Vec<Dependant> = Vec::new();
                let mut i: usize = 0;
                while i < children.len()
                    invariant
                        i <= children@.len(),
                        dependant@.len() == i,
                        forall|k: int|
                            0 <= k < i ==> dependant@[k] == coordinates(op_views(children@))[k],
                    decreases children@.len() - i,
                {
                    let c: &Op = &children[i];
                    assert(op_views(children@)[i as int] == c@);
                    dependant.push(
                        Dependant { store: c.store, batch: c.batch, op_order: c.op_order() },
                    );
                    i = i + 1;
                }
                assert(dependant@ =~= coordinates(op_views(children@)));
                let parent: Op = Op {
                    id: self.id,
                    date: self.date,
                    store: self.store,
                    goods: self.goods,
                    batch: self.batch,
                    op: a,
                    is_dependent: false,
                    dependant,
                };
                Some((parent, children))
            },
            None => None,
        }
    }
}

/// Every operation generated for a batch bears the coordinates of the
/// mutation and is a dependent issue from one of the batches.
pub proof fn lemma_taken_children(
    m: OpMutation,
    mode: Mode,
    balances: Seq<Balance>,
    i: int,
    remaining: int,
)
    requires
        0 <= i <= balances.len(),
    ensures
        forall|k: int|
            0 <= k < taken(m, mode, balances, i, remaining).len() ==> is_child(
                #[trigger] taken(m, mode, balances, i, remaining)[k],
                m,
            ) && !taken(m, mode, balances, i, remaining)[k].batch.is_empty_spec(),
    decreases balances.len() - i,
{
    let all = taken(m, mode, balances, i, remaining);
    if i < balances.len() {
        let b = balances[i];
        let take = take_of(b, remaining);
        lemma_taken_children(m, mode, balances, i + 1, remaining - take);
        if take > 0 {
            let rest = taken(m, mode, balances, i + 1, remaining - take);
            assert forall|k: int| 0 <= k < all.len() implies is_child(#[trigger] all[k], m)
                && !all[k].batch.is_empty_spec() by {
                if k > 0 {
                    assert(all[k] == rest[k - 1]);
                }
            }
        }
    }
}

/// Every generated operation bears the coordinates of the mutation and is
/// a dependent issue.
pub proof fn lemma_fifo_children(
    m: OpMutation,
    qty: Qty,
    cost: i64,
    mode: Mode,
    balances: Seq<Balance>,
    i: int,
    remaining: int,
)
    requires
        0 <= i <= balances.len(),
    ensures
        forall|k: int|
            0 <= k < fifo(m, qty, cost, mode, balances, i, remaining).len() ==> is_child(
                #[trigger] fifo(m, qty, cost, mode, balances, i, remaining)[k],
                m,
            ),
{
    let all = fifo(m, qty, cost, mode, balances, i, remaining);
    let part = taken(m, mode, balances, i, remaining);
    lemma_taken_children(m, mode, balances, i, remaining);
    assert forall|k: int| 0 <= k < all.len() implies is_child(#[trigger] all[k], m) by {
        if left_over(balances, i, remaining) != 0 {
            if k > 0 {
                assert(all[k] == part[k - 1]);
            }
        }
    }
}

/// Batches strictly ascending by date, then by identity.
pub open spec fn batches_sorted(list: Seq<Batch>) -> bool {
    forall|i: int, j: int| 0 <= i < j < list.len() ==> batch_lt(list[i], list[j])
}

/// In a sorted list, the batches before `b` are the first ones, as many as
/// its rank says.
proof fn lemma_batch_rank(list: Seq<Batch>, b: Batch, n: int)
    requires
        batches_sorted(list),
        0 <= n <= list.len(),
    ensures
        0 <= batch_rank(list, b, n) <= n,
        forall|k: int| 0 <= k < batch_rank(list, b, n) ==> batch_lt(list[k], b),
        forall|k: int| batch_rank(list, b, n) <= k < n ==> !batch_lt(list[k], b),
    decreases n,
{
    if n > 0 {
        lemma_batch_rank(list, b, n - 1);
        let r = batch_rank(list, b, n - 1);
        if batch_lt(list[n - 1], b) {
            assert forall|k: int| 0 <= k < n implies batch_lt(list[k], b) by {
                if k < n - 1 {
                    assert(batch_lt(list[k], list[n - 1]));
                }
            }
            if r < n - 1 {
                assert(!batch_lt(list[r], b));
            }
        }
    }
}

/// Putting a batch at its place keeps the list sorted.
proof fn lemma_with_batch_sorted(list: Seq<Batch>, b: Batch)
    requires
        batches_sorted(list),
    ensures
        batches_sorted(with_batch(list, b)),
{
    if !list.contains(b) {
        let r = batch_rank(list, b, list.len() as int);
        lemma_batch_rank(list, b, list.len() as int);
        let t = list.insert(r, b);
        assert forall|i: int, j: int| 0 <= i < j < t.len() implies batch_lt(t[i], t[j]) by {
            let i0 = if i < r {
                i
            } else {
                i - 1
            };
            let j0 = if j < r {
                j
            } else {
                j - 1
            };
            if i != r {
                assert(t[i] == list[i0]);
            }
            if j != r {
                assert(t[j] == list[j0]);
            }
            if i == r {
                assert(!batch_lt(list[j0], b));
                assert(list.contains(list[j0]));
                assert(list[j0] != b);
            }
        }
    }
}

/// First in, first out: the balances against which an issue without batch is
/// resolved stand oldest batch first, by date and then by identity, each batch
/// once.
pub proof fn lemma_projected_oldest_first(ops: Seq<OpView>, store: u128, goods: u128, date: u64)
    ensures
        forall|i: int, j: int|
            0 <= i < j < projected(ops, store, goods, date).len() ==> batch_lt(
                #[trigger] projected(ops, store, goods, date)[i].batch,
                #[trigger] projected(ops, store, goods, date)[j].batch,
            ),
{
    lemma_batches_before_sorted(ops, store, goods, date, ops.len() as int);
}

proof fn lemma_batches_before_sorted(ops: Seq<OpView>, store: u128, goods: u128, date: u64, n: int)
    ensures
        batches_sorted(batches_before(ops, store, goods, date, n)),
    decreases n,
{
    if n > 0 {
        lemma_batches_before_sorted(ops, store, goods, date, n - 1);
        lemma_with_batch_sorted(batches_before(ops, store, goods, date, n - 1), ops[n - 1].batch);
    }
}

} // verus!
