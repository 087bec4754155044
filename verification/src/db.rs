//! The store: the ordered topology and the checkpoint topology kept coherent
//! by the operation processor, and the queries over both.

use crate::balances::{
    balance_on_date, dates_ascend, fits_all, lemma_dsum_fits, lemma_dsum_insert,
    lemma_dsum_is_psum, lemma_dsum_remove, lemma_psum_insert, lemma_psum_remove, lemma_psum_skip,
    place_of, psum, share, Place,
};
use crate::aggregations::{
    balance_place, cost_total, cover, later, line, moved_of, new_get_aggregations, open_of, places,
    selsum, uncovered_from, AgregationStore, AgregationStoreGoods, MAX_REPORT_INPUT, Report, Sel,
};
use crate::checkpoints::check_date_store_batch::{
    ceiling_for, check_has_key, check_keyed, check_rank, check_sorted, goods_total, picked,
    total_for_goods, CheckDateStoreBatch, CheckEntryView, CheckFilter,
};
use crate::reports::{
    lemma_cover_member, lemma_dsum_selsum, lemma_ops_where_members, lemma_picked_members,
    lemma_places_members, lemma_selsum_beyond, lemma_selsum_directions, lemma_selsum_range,
    lemma_selsum_same, lemma_selsum_scanned, moved, opening,
};
use crate::checkpoints::check_key::{
    build_check_key, check_key_of, check_parts_of, lemma_check_key_order, CheckParts,
};
use crate::coherence::{
    active, check_place, checkpoints_ok, covered, has_snapshot, kept, latest_ok,
    lemma_checkpoints_after_insert, lemma_checkpoints_after_remove, lemma_covered_insert_entry,
    lemma_covered_insert_op, lemma_covered_remove_entry, lemma_covered_remove_op,
    lemma_covered_same_shape, lemma_dates_ascend, lemma_running_after_insert,
    lemma_running_after_remove, lemma_snapshotted_insert_entry, lemma_snapshotted_insert_op,
    lemma_snapshotted_remove_entry, lemma_snapshotted_remove_op, lemma_snapshotted_same_keys,
    op_seq, running_ok, signed, snapshot_key, snapshot_of, snapshots_ok, snapshotted,
};
use crate::plain::{lemma_plain_found, lemma_plain_same, lemma_plain_update, plain_get};
use crate::elements::{
    Amount, Balance, BalanceDelta, BalanceForGoods, Batch, Goods, InternalOperation, Op,
    OpMutation, OpView, Store,
};
use crate::error::{ErrorKind, WHError};
use crate::ids::UUID_NIL;
use crate::processor::{
    all_found, allocate, balances_of, batch_rank, batches_before, children_count, children_qty,
    del_children, del_many, del_one, del_phase, forms, found, ins_many, ins_one, ins_phase,
    invalid, is_child, latest_run, latest_step, lemma_all_found_needs, lemma_fifo_children,
    lemma_fifo_conserves, lemma_rank_ops, lemma_some_child, mode_of, op_mode, projected, rank_ops,
    run, step, total_qty, with_batch,
};
use crate::time::{checkpoint_date, month_start, next_checkpoint};
use crate::topologies::date_type_store_batch_id::{
    has_key, keyed, op_views, ops_where, rank, sorted, DateTypeStoreBatchId, OpEntry, OpEntryView,
    OpFilter,
};
use crate::topologies::op_key::{build_key, key_of, lemma_key_order, lowest, parts_of};
use vstd::prelude::*;

verus! {

/// The store.
#[derive(Debug)]
pub struct Db {
    ordered: DateTypeStoreBatchId,
    checkpoints: CheckDateStoreBatch,
    plain: Vec<(Vec<u8>, String)>,
}

impl Db {
    /// The stored operations with their running balances, in key order.
    pub closed spec fn entries(&self) -> Seq<OpEntryView> {
        self.ordered@
    }

    /// The stored checkpoints, in key order.
    pub closed spec fn snapshots(&self) -> Seq<CheckEntryView> {
        self.checkpoints@.entries
    }

    /// The latest checkpoint date written.
    pub closed spec fn latest(&self) -> u64 {
        self.checkpoints@.latest
    }

    /// The stored operations, in key order.
    pub open spec fn ops(&self) -> Seq<OpView> {
        op_seq(self.entries())
    }

    /// Both topologies are in key order.
    pub open spec fn ordered_ok(&self) -> bool {
        &&& sorted(self.entries())
        &&& keyed(self.entries())
        &&& check_sorted(self.snapshots())
        &&& check_keyed(self.snapshots())
    }

    /// The topologies are coherent: running balances and checkpoints are the
    /// sums they stand for, and checkpoints exist exactly where there is
    /// activity.
    pub open spec fn wf(&self) -> bool {
        &&& self.ordered_ok()
        &&& running_ok(self.entries())
        &&& checkpoints_ok(self.ops(), self.snapshots())
        &&& snapshots_ok(self.ops(), self.snapshots())
        &&& latest_ok(self.ops(), self.latest())
    }

    /// An empty store: no operation, no checkpoint, no text in the default
    /// column family, and the latest checkpoint date at the start of 1970.
    pub fn new() -> (db: Db)
        ensures
            db.wf(),
            db.entries() == Seq::<OpEntryView>::empty(),
            db.snapshots() == Seq::<CheckEntryView>::empty(),
            db.latest() == 0,
            db.pairs() == Seq::<(Seq<u8>, Seq<char>)>::empty(),
    {
        let db = Db {
            ordered: DateTypeStoreBatchId::new(),
            checkpoints: CheckDateStoreBatch::new(),
            plain: Vec::new(),
        };
        assert(db.pairs() =~= Seq::<(Seq<u8>, Seq<char>)>::empty());
        db
    }

    /// A copy of the store.
    pub fn duplicate(&self) -> (db: Db)
        ensures
            db.entries() == self.entries(),
            db.snapshots() == self.snapshots(),
            db.latest() == self.latest(),
            db.pairs() == self.pairs(),
    {
        let mut plain: Vec<(Vec<u8>, String)> = Vec::new();
        let mut i: usize = 0;
        while i < self.plain.len()
            invariant
                i <= self.plain@.len(),
                plain@.len() == i,
                forall|j: int|
                    0 <= j < i ==> (#[trigger] plain@[j]).0@ == self.plain@[j].0@ && plain@[j].1@
                        == self.plain@[j].1@,
            decreases self.plain@.len() - i,
        {
            plain.push((crate::bytes::copy_bytes(&self.plain[i].0), self.plain[i].1.clone()));
            i = i + 1;
        }
        let db = Db {
            ordered: self.ordered.duplicate(),
            checkpoints: self.checkpoints.duplicate(),
            plain,
        };
        assert(db.pairs() =~= self.pairs());
        db
    }

    /// The keys and texts of the default column family, in the order in which
    /// the keys were first put.
    pub closed spec fn pairs(&self) -> Seq<(Seq<u8>, Seq<char>)> {
        Seq::new(self.plain@.len(), |i: int| (self.plain@[i].0@, self.plain@[i].1@))
    }

    /// The text stored under a key of the default column family.
    pub open spec fn stored(&self, key: Seq<u8>) -> Option<Seq<char>> {
        plain_get(self.pairs(), key, self.pairs().len() as int)
    }

    /// Stores a text under a key of the default column family, in place of
    /// what stood there.
    pub fn put(&mut self, key: &Vec<u8>, value: &String) -> (r: Result<(), WHError>)
        ensures
            r is Ok,
            final(self).entries() == old(self).entries(),
            final(self).snapshots() == old(self).snapshots(),
            final(self).latest() == old(self).latest(),
            final(self).stored(key@) == Some(value@),
            forall|k: Seq<u8>| k != key@ ==> final(self).stored(k) == old(self).stored(k),
    {
        let ghost before = self.pairs();
        let n: usize = self.plain.len();
        let mut i: usize = 0;
        while i < n
            invariant
                i <= n,
                n == self.plain@.len(),
                self.pairs() == before,
                before == old(self).pairs(),
                self.entries() == old(self).entries(),
                self.snapshots() == old(self).snapshots(),
                self.latest() == old(self).latest(),
                plain_get(before, key@, i as int) is None,
            decreases n - i,
        {
            assert(before[i as int].0 == self.plain@[i as int].0@);
            if crate::bytes::bytes_eq(&self.plain[i].0, key) {
                let _ = self.plain.remove(i);
                self.plain.insert(i, (crate::bytes::copy_bytes(key), value.clone()));
                proof {
                    let after = self.pairs();
                    assert(after =~= before.update(i as int, (key@, value@)));
                    lemma_plain_update(before, i as int, (key@, value@), key@, n as int);
                    assert forall|k: Seq<u8>| k != key@ implies self.stored(k) == old(self).stored(
                        k,
                    ) by {
                        lemma_plain_update(before, i as int, (key@, value@), k, n as int);
                    }
                }
                return Ok(());
            }
            i = i + 1;
        }
        self.plain.push((crate::bytes::copy_bytes(key), value.clone()));
        proof {
            let after = self.pairs();
            assert(after =~= before.push((key@, value@)));
            lemma_plain_same(before, after, key@, n as int);
            assert forall|k: Seq<u8>| k != key@ implies self.stored(k) == old(self).stored(k) by {
                lemma_plain_same(before, after, k, n as int);
            }
        }
        Ok(())
    }

    /// The text stored under a key of the default column family. A key under
    /// which nothing is stored is not found.
    pub fn get(&self, key: &Vec<u8>) -> (r: Result<String, WHError>)
        ensures
            r is Ok <==> self.stored(key@) is Some,
            r matches Ok(v) ==> self.stored(key@) == Some(v@),
            r matches Err(e) ==> e.kind == ErrorKind::NotFound,
    {
        let n: usize = self.plain.len();
        let mut i: usize = 0;
        while i < n
            invariant
                i <= n,
                n == self.plain@.len(),
                plain_get(self.pairs(), key@, i as int) is None,
            decreases n - i,
        {
            assert(self.pairs()[i as int].0 == self.plain@[i as int].0@);
            if crate::bytes::bytes_eq(&self.plain[i].0, key) {
                proof {
                    lemma_plain_found(self.pairs(), key@, i as int, n as int);
                }
                return Ok(self.plain[i].1.clone());
            }
            i = i + 1;
        }
        Err(WHError::new(ErrorKind::NotFound, "Can't get from database - no such value"))
    }

    /// The ordered topology, to read.
    pub fn ordered(&self) -> (t: &DateTypeStoreBatchId)
        ensures
            t@ == self.entries(),
    {
        &self.ordered
    }

    /// The checkpoint topology, to read.
    pub fn checkpoints(&self) -> (t: &CheckDateStoreBatch)
        ensures
            t@.entries == self.snapshots(),
            t@.latest == self.latest(),
    {
        &self.checkpoints
    }

    /// The running balance of a place right before position `p`.
    fn running_before(&self, p: usize, store: Store, goods: Goods, batch: Batch) -> (b:
        BalanceForGoods)
        requires
            p <= self.entries().len(),
            forall|k: int|
                0 <= k < p ==> (#[trigger] self.entries()[k]).balance.amount() == psum(
                    self.ops(),
                    place_of(self.entries()[k].op),
                    k + 1,
                ),
        ensures
            b.amount() == psum(self.ops(), Place { store, goods, batch }, p as int),
    {
        let ghost at = Place { store, goods, batch };
        let mut j: usize = p;
        while j > 0
            invariant
                j <= p <= self.entries().len(),
                at == (Place { store, goods, batch }),
                self.entries() == self.ordered@,
                forall|k: int|
                    0 <= k < p ==> (#[trigger] self.entries()[k]).balance.amount() == psum(
                        self.ops(),
                        place_of(self.entries()[k].op),
                        k + 1,
                    ),
                forall|k: int| j <= k < p ==> place_of(#[trigger] self.ops()[k]) != at,
            decreases j,
        {
            let e: &OpEntry = self.ordered.entry(j - 1);
            if e.op.store == store && e.op.goods == goods && e.op.batch == batch {
                proof {
                    assert(self.entries()[j - 1].balance.amount() == psum(
                        self.ops(),
                        place_of(self.entries()[j - 1].op),
                        (j - 1) + 1,
                    ));
                    lemma_psum_skip(self.ops(), at, j as int, p as int);
                }
                return e.balance;
            }
            j = j - 1;
        }
        proof {
            lemma_psum_skip(self.ops(), at, 0, p as int);
        }
        BalanceForGoods { qty: 0, cost: 0 }
    }

    /// The balance of a place on a date, read from the running balance of the
    /// last operation on the place dated at or before `d`.
    fn balance_before(&self, store: Store, goods: Goods, batch: Batch, d: u64) -> (b:
        BalanceForGoods)
        requires
            sorted(self.entries()),
            keyed(self.entries()),
            running_ok(self.entries()),
        ensures
            b.amount() == balance_on_date(self.ops(), Place { store, goods, batch }, d),
    {
        let ghost at = Place { store, goods, batch };
        let c: usize = if d == u64::MAX {
            self.ordered.len()
        } else {
            let bound: Vec<u8> = build_key(
                d + 1,
                0,
                UUID_NIL,
                UUID_NIL,
                Batch { id: UUID_NIL, date: 0 },
                UUID_NIL,
                0,
            );
            self.ordered.position(&bound)
        };
        proof {
            let s = self.entries();
            let ops = self.ops();
            assert forall|j: int| 0 <= j < ops.len() implies ((#[trigger] ops[j]).date <= d <==> j
                < c) by {
                if d < u64::MAX {
                    assert(s[j].key == key_of(s[j].op));
                    lemma_key_order(parts_of(s[j].op), lowest((d + 1) as u64, UUID_NIL, UUID_NIL));
                }
            }
            lemma_dsum_is_psum(ops, at, d, c as int, ops.len() as int);
        }
        self.running_before(c, store, goods, batch)
    }

    /// Changes the running balance of every operation on the place from
    /// position `from` on by the delta of `op`, or by its opposite.
    fn shift_running(
        &mut self,
        from: usize,
        store: Store,
        goods: Goods,
        batch: Batch,
        op: &InternalOperation,
        is_dependent: bool,
        forward: bool,
    ) -> (r: Result<(), WHError>)
        requires
            sorted(old(self).entries()),
            keyed(old(self).entries()),
            from <= old(self).entries().len(),
        ensures
            final(self).snapshots() == old(self).snapshots(),
            final(self).latest() == old(self).latest(),
            sorted(final(self).entries()),
            keyed(final(self).entries()),
            final(self).entries().len() == old(self).entries().len(),
            forall|i: int|
                0 <= i < old(self).entries().len() ==> (#[trigger] final(self).entries()[i]).key
                    == old(self).entries()[i].key
                        && final(self).entries()[i].op == old(self).entries()[i].op,
            r is Ok ==> forall|i: int|
                0 <= i < old(self).entries().len() ==>
                    (#[trigger] final(self).entries()[i]).balance.amount()
                        == (if i >= from && place_of(
                    old(self).entries()[i].op,
                ) == (Place { store, goods, batch }) {
                    old(self).entries()[i].balance.amount().plus(signed(*op, is_dependent, forward))
                } else {
                    old(self).entries()[i].balance.amount()
                }),
            r matches Err(e) ==> e.kind == ErrorKind::Capacity && exists|i: int|
                from <= i < old(self).entries().len() && place_of(
                    (#[trigger] old(self).entries()[i]).op,
                ) == (Place { store, goods, batch }) && !old(self).entries()[i].balance.amount().plus(
                    signed(*op, is_dependent, forward),
                ).fits(),
    {
        let ghost s0 = self.entries();
        let ghost at = Place { store, goods, batch };
        let ghost d = signed(*op, is_dependent, forward);
        let n: usize = self.ordered.len();
        let mut j: usize = from;
        while j < n
            invariant
                from <= j <= n,
                n == s0.len(),
                s0 == old(self).entries(),
                at == (Place { store, goods, batch }),
                d == signed(*op, is_dependent, forward),
                self.entries() == self.ordered@,
                self.snapshots() == old(self).snapshots(),
                self.latest() == old(self).latest(),
                sorted(self.entries()),
                keyed(self.entries()),
                self.entries().len() == n,
                forall|i: int|
                    0 <= i < n ==> (#[trigger] self.entries()[i]).key == s0[i].key
                        && self.entries()[i].op == s0[i].op,
                forall|i: int|
                    0 <= i < j ==> (#[trigger] self.entries()[i]).balance.amount() == (if i >= from
                        && place_of(s0[i].op) == at {
                        s0[i].balance.amount().plus(d)
                    } else {
                        s0[i].balance.amount()
                    }),
                forall|i: int| j <= i < n ==> (#[trigger] self.entries()[i]) == s0[i],
            decreases n - j,
        {
            let e: &OpEntry = self.ordered.entry(j);
            if e.op.store == store && e.op.goods == goods && e.op.batch == batch {
                let changed: Option<BalanceForGoods> = if forward {
                    e.balance.apply(op, is_dependent)
                } else {
                    e.balance.unapply(op, is_dependent)
                };
                match changed {
                    Some(b) => {
                        self.ordered.set_balance_at(j, b);
                    },
                    None => {
                        assert(place_of(s0[j as int].op) == at);
                        return Err(WHError::new(ErrorKind::Capacity, "balance out of range"));
                    },
                }
            }
            j = j + 1;
        }
        Ok(())
    }

    /// Changes the balance of every checkpoint of the place dated at or after
    /// `since` by the delta of `op`, or by its opposite.
    fn shift_checkpoints(
        &mut self,
        store: Store,
        goods: Goods,
        batch: Batch,
        since: u64,
        op: &InternalOperation,
        is_dependent: bool,
        forward: bool,
    ) -> (r: Result<(), WHError>)
        requires
            check_sorted(old(self).snapshots()),
            check_keyed(old(self).snapshots()),
        ensures
            final(self).entries() == old(self).entries(),
            final(self).latest() == old(self).latest(),
            check_sorted(final(self).snapshots()),
            check_keyed(final(self).snapshots()),
            final(self).snapshots().len() == old(self).snapshots().len(),
            forall|k: int|
                0 <= k < old(self).snapshots().len() ==> (#[trigger] final(self).snapshots()[k]).key
                    == old(self).snapshots()[k].key && check_place(
                    final(self).snapshots()[k].balance,
                ) == check_place(old(self).snapshots()[k].balance) && final(self).snapshots()[k].balance.date == old(self).snapshots()[k].balance.date,
            r is Ok ==> forall|k: int|
                0 <= k < old(self).snapshots().len() ==>
                    (#[trigger] final(self).snapshots()[k]).balance.number.amount()
                        == (if check_place(
                    old(self).snapshots()[k].balance,
                ) == (Place { store, goods, batch }) && old(self).snapshots()[k].balance.date
                    >= since {
                    old(self).snapshots()[k].balance.number.amount().plus(
                        signed(*op, is_dependent, forward),
                    )
                } else {
                    old(self).snapshots()[k].balance.number.amount()
                }),
            r matches Err(e) ==> e.kind == ErrorKind::Capacity && exists|k: int|
                0 <= k < old(self).snapshots().len() && check_place(
                    (#[trigger] old(self).snapshots()[k]).balance,
                ) == (Place { store, goods, batch }) && old(self).snapshots()[k].balance.date
                    >= since && !old(self).snapshots()[k].balance.number.amount().plus(
                    signed(*op, is_dependent, forward),
                ).fits(),
    {
        let ghost c0 = self.snapshots();
        let ghost at = Place { store, goods, batch };
        let ghost d = signed(*op, is_dependent, forward);
        let n: usize = self.checkpoints.len();
        let mut j: usize = 0;
        while j < n
            invariant
                j <= n,
                n == c0.len(),
                c0 == old(self).snapshots(),
                at == (Place { store, goods, batch }),
                d == signed(*op, is_dependent, forward),
                self.snapshots() == self.checkpoints@.entries,
                self.entries() == old(self).entries(),
                self.latest() == old(self).latest(),
                check_sorted(self.snapshots()),
                check_keyed(self.snapshots()),
                self.snapshots().len() == n,
                forall|k: int|
                    0 <= k < n ==> (#[trigger] self.snapshots()[k]).key == c0[k].key && check_place(
                        self.snapshots()[k].balance,
                    ) == check_place(c0[k].balance) && self.snapshots()[k].balance.date
                        == c0[k].balance.date,
                forall|k: int|
                    0 <= k < j ==> (#[trigger] self.snapshots()[k]).balance.number.amount() == (
                    if check_place(c0[k].balance) == at && c0[k].balance.date >= since {
                        c0[k].balance.number.amount().plus(d)
                    } else {
                        c0[k].balance.number.amount()
                    }),
                forall|k: int| j <= k < n ==> (#[trigger] self.snapshots()[k]) == c0[k],
            decreases n - j,
        {
            let b: Balance = self.checkpoints.entry(j).balance;
            if b.store == store && b.goods == goods && b.batch == batch && b.date >= since {
                let changed: Option<BalanceForGoods> = if forward {
                    b.number.apply(op, is_dependent)
                } else {
                    b.number.unapply(op, is_dependent)
                };
                match changed {
                    Some(number) => {
                        self.checkpoints.set_number_at(j, number);
                    },
                    None => {
                        assert(check_place(c0[j as int].balance) == at);
                        return Err(WHError::new(ErrorKind::Capacity, "balance out of range"));
                    },
                }
            }
            j = j + 1;
        }
        Ok(())
    }

    /// Stores one more operation with the running balance after it.
    fn insert_entry(&mut self, op: Op) -> (r: Result<usize, WHError>)
        requires
            sorted(old(self).entries()),
            keyed(old(self).entries()),
            running_ok(old(self).entries()),
            !has_key(old(self).entries(), key_of(op@)),
        ensures
            final(self).snapshots() == old(self).snapshots(),
            final(self).latest() == old(self).latest(),
            r is Ok <==> psum(
                old(self).ops(),
                place_of(op@),
                rank(old(self).entries(), key_of(op@)),
            ).plus(op@.delta()).fits(),
            r matches Ok(p) ==> {
                &&& p == rank(old(self).entries(), key_of(op@))
                &&& 0 <= p <= old(self).entries().len()
                &&& p < usize::MAX
                &&& sorted(final(self).entries())
                &&& keyed(final(self).entries())
                &&& final(self).entries().len() == old(self).entries().len() + 1
                &&& final(self).entries()[p as int].op == op@
                &&& final(self).entries()[p as int].balance.amount() == psum(
                    old(self).ops(),
                    place_of(op@),
                    p as int,
                ).plus(op@.delta())
                &&& final(self).entries() == old(self).entries().insert(
                    p as int,
                    final(self).entries()[p as int],
                )
            },
            r matches Err(e) ==> e.kind == ErrorKind::Capacity
                && final(self).entries() == old(self).entries(),
    {
        let key: Vec<u8> = self.ordered.key(&op);
        let p: usize = self.ordered.position(&key);
        let prev: BalanceForGoods = self.running_before(p, op.store, op.goods, op.batch);
        let bal: BalanceForGoods = match prev.apply(&op.op, op.is_dependent) {
            Some(b) => b,
            None => {
                return Err(WHError::new(ErrorKind::Capacity, "balance out of range"));
            },
        };
        self.ordered.insert_at(p, op, bal);
        // The new length fits a `usize`, so `p` is below its maximum.
        let _: usize = self.ordered.len();
        Ok(p)
    }

    /// Stores one more operation with the running balance after it, and
    /// raises every later running balance of its place by its delta.
    fn insert_running(&mut self, op: Op) -> (r: Result<usize, WHError>)
        requires
            sorted(old(self).entries()),
            keyed(old(self).entries()),
            running_ok(old(self).entries()),
            !has_key(old(self).entries(), key_of(op@)),
        ensures
            final(self).snapshots() == old(self).snapshots(),
            final(self).latest() == old(self).latest(),
            r is Ok <==> fits_all(
                old(self).ops().insert(rank(old(self).entries(), key_of(op@)), op@),
            ),
            r matches Ok(p) ==> {
                &&& p == rank(old(self).entries(), key_of(op@))
                &&& 0 <= p <= old(self).entries().len()
                &&& sorted(final(self).entries())
                &&& keyed(final(self).entries())
                &&& running_ok(final(self).entries())
                &&& final(self).ops() == old(self).ops().insert(p as int, op@)
            },
            r matches Err(e) ==> e.kind == ErrorKind::Capacity,
    {
        let ghost s0 = self.entries();
        let ghost ops0 = self.ops();
        let ghost o = op@;
        let ghost at = place_of(o);
        let ghost p0 = rank(s0, key_of(o));
        let ghost ops1 = ops0.insert(p0, o);
        let store: Store = op.store;
        let goods: Goods = op.goods;
        let batch: Batch = op.batch;
        let kind: InternalOperation = op.op;
        let dep: bool = op.is_dependent;
        proof {
            crate::topologies::date_type_store_batch_id::lemma_rank_finds(s0, key_of(o));
            lemma_psum_insert(ops0, p0, o, at, p0 + 1);
            assert(ops1[p0] == o);
        }
        let p: usize = match self.insert_entry(op) {
            Ok(p) => p,
            Err(e) => {
                proof {
                    assert(!psum(ops1, place_of(ops1[p0]), p0 + 1).fits());
                }
                return Err(e);
            },
        };
        let ghost s1 = self.entries();
        proof {
            assert(op_seq(s1) =~= ops1);
        }
        match self.shift_running(p + 1, store, goods, batch, &kind, dep, true) {
            Err(e) => {
                proof {
                    let i = choose|i: int|
                        p + 1 <= i < s1.len() && place_of((#[trigger] s1[i]).op) == at
                            && !s1[i].balance.amount().plus(signed(kind, dep, true)).fits();
                    assert(s1[i] == s0[i - 1]);
                    assert(s0[i - 1].balance.amount() == psum(ops0, place_of(s0[i - 1].op), i));
                    lemma_psum_insert(ops0, p as int, o, at, i + 1);
                    assert(ops1[i] == s1[i].op);
                    assert(!psum(ops1, place_of(ops1[i]), i + 1).fits());
                }
                return Err(e);
            },
            Ok(()) => {},
        }
        let ghost s2 = self.entries();
        proof {
            assert(op_seq(s2) =~= ops1);
            assert forall|i: int| 0 <= i < p implies (#[trigger] s2[i]).balance
                == s0[i].balance by {
                assert(s1[i] == s0[i]);
                assert(s2[i].balance.amount() == s1[i].balance.amount());
            }
            assert(s2[p as int].balance.amount() == s1[p as int].balance.amount());
            assert forall|i: int| p < i < s2.len() implies (#[trigger] s2[i]).balance.amount()
                == s0[i - 1].balance.amount().plus(share(o, place_of(s0[i - 1].op))) by {
                assert(s1[i] == s0[i - 1]);
            }
            lemma_running_after_insert(s0, s2, p as int, o);
        }
        Ok(p)
    }

    /// Raises every checkpoint of the place of a newly stored operation dated
    /// at or after it by its delta.
    fn raise_checkpoints(&mut self, op: &Op, Ghost(ops0): Ghost<Seq<OpView>>, Ghost(p): Ghost<int>)
        requires
            0 <= p <= ops0.len(),
            old(self).ops() == ops0.insert(p, op@),
            sorted(old(self).entries()),
            keyed(old(self).entries()),
            running_ok(old(self).entries()),
            check_sorted(old(self).snapshots()),
            check_keyed(old(self).snapshots()),
            checkpoints_ok(ops0, old(self).snapshots()),
            snapshots_ok(ops0, old(self).snapshots()),
        ensures
            final(self).entries() == old(self).entries(),
            final(self).latest() == old(self).latest(),
            check_sorted(final(self).snapshots()),
            check_keyed(final(self).snapshots()),
            checkpoints_ok(final(self).ops(), final(self).snapshots()),
            covered(final(self).ops(), final(self).snapshots()),
            snapshotted(ops0, final(self).snapshots()),
    {
        let ghost c0 = self.snapshots();
        let ghost o = op@;
        let ghost at = place_of(o);
        let ghost ops1 = self.ops();
        let ghost s2 = self.entries();
        match self.shift_checkpoints(
            op.store,
            op.goods,
            op.batch,
            op.date,
            &op.op,
            op.is_dependent,
            true,
        ) {
            Err(e) => {
                proof {
                    let k = choose|k: int|
                        0 <= k < c0.len() && check_place((#[trigger] c0[k]).balance) == at
                            && c0[k].balance.date >= op.date
                            && !c0[k].balance.number.amount().plus(
                            signed(op.op, op.is_dependent, true),
                        ).fits();
                    assert forall|i: int| 0 <= i < ops1.len() implies (#[trigger] psum(
                        ops1,
                        place_of(ops1[i]),
                        i + 1,
                    )).fits() by {
                        assert(s2[i].op == ops1[i]);
                        assert(s2[i].balance.amount() == psum(ops1, place_of(s2[i].op), i + 1));
                    }
                    lemma_dates_ascend(s2);
                    lemma_dsum_insert(ops0, p, o, at, c0[k].balance.date, ops1.len() as int);
                    lemma_dsum_fits(ops1, at, c0[k].balance.date);
                    assert(c0[k].balance.number.amount() == balance_on_date(
                        ops0,
                        check_place(c0[k].balance),
                        c0[k].balance.date,
                    ));
                    assert(false);
                }
            },
            Ok(()) => {},
        }
        proof {
            let c1 = self.snapshots();
            lemma_checkpoints_after_insert(ops0, p, o, c0, c1);
            lemma_covered_insert_op(ops0, p, o, c0);
            lemma_covered_same_shape(ops1, c0, c1);
            lemma_snapshotted_same_keys(ops0, c0, c1);
        }
    }

    /// Makes the checkpoint under which a newly stored operation is
    /// snapshotted, where there is none, and advances the latest checkpoint
    /// date to it.
    fn ensure_checkpoint(&mut self, op: &Op, Ghost(ops0): Ghost<Seq<OpView>>, Ghost(p): Ghost<int>)
        requires
            0 <= p <= ops0.len(),
            old(self).ops() == ops0.insert(p, op@),
            checkpoint_date(op.date) is Some,
            sorted(old(self).entries()),
            keyed(old(self).entries()),
            running_ok(old(self).entries()),
            check_sorted(old(self).snapshots()),
            check_keyed(old(self).snapshots()),
            checkpoints_ok(old(self).ops(), old(self).snapshots()),
            covered(old(self).ops(), old(self).snapshots()),
            snapshotted(ops0, old(self).snapshots()),
            latest_ok(ops0, old(self).latest()),
        ensures
            final(self).entries() == old(self).entries(),
            final(self).latest() == (if checkpoint_date(op.date).unwrap() > old(self).latest() {
                checkpoint_date(op.date).unwrap()
            } else {
                old(self).latest()
            }),
            final(self).wf(),
    {
        let ghost c1 = self.snapshots();
        let ghost o = op@;
        let ghost at = place_of(o);
        let ghost ops1 = self.ops();
        assert(ops1[p] == o);
        let m: u64 = match next_checkpoint(op.date) {
            Ok(m) => m,
            Err(_) => {
                assert(false);
                0
            },
        };
        let ckey: Vec<u8> = build_check_key(m, op.store, op.goods, op.batch);
        let cp: usize = self.checkpoints.position(&ckey);
        if !self.checkpoints.holds_at(cp, &ckey) {
            let value: BalanceForGoods = self.balance_before(op.store, op.goods, op.batch, m);
            let fresh: Balance = Balance {
                date: m,
                store: op.store,
                goods: op.goods,
                batch: op.batch,
                number: value,
            };
            self.checkpoints.insert_at(cp, fresh);
            proof {
                let e = CheckEntryView { key: check_key_of(fresh), balance: fresh };
                assert(active(ops1, at, m)) by {
                    reveal(active);
                    assert(place_of(ops1[p]) == at);
                }
                lemma_covered_insert_entry(ops1, c1, cp as int, e);
                lemma_snapshotted_insert_entry(ops0, c1, cp as int, e);
                let c2 = c1.insert(cp as int, e);
                assert(has_snapshot(c2, snapshot_of(o))) by {
                    reveal(has_snapshot);
                    assert(c2[cp as int].key == snapshot_of(o));
                }
                assert forall|k: int| 0 <= k < c2.len() implies (
                #[trigger] c2[k]).balance.number.amount() == balance_on_date(
                    ops1,
                    check_place(c2[k].balance),
                    c2[k].balance.date,
                ) by {
                    if k < cp {
                        assert(c2[k] == c1[k]);
                    } else if k > cp {
                        assert(c2[k] == c1[k - 1]);
                    }
                }
            }
        } else {
            proof {
                assert(has_snapshot(c1, snapshot_of(o))) by {
                    reveal(has_snapshot);
                    assert(c1[cp as int].key == snapshot_of(o));
                }
            }
        }
        if m > self.checkpoints.get_latest_checkpoint_date() {
            self.checkpoints.set_latest_checkpoint_date(m);
        }
        proof {
            lemma_snapshotted_insert_op(ops0, p, o, self.snapshots());
            assert forall|i: int| 0 <= i < ops1.len() implies (checkpoint_date(
                (#[trigger] ops1[i]).date,
            ) matches Some(x) ==> x <= self.latest()) by {
                if i < p {
                    assert(ops1[i] == ops0[i]);
                } else if i > p {
                    assert(ops1[i] == ops0[i - 1]);
                }
            }
        }
    }

    /// Stores one more operation: with the running balance after it, every
    /// later running balance of its place raised by its delta, every
    /// checkpoint of its place dated at or after it raised likewise, and the
    /// checkpoint of its own month made where there was none.
    fn insert_op(&mut self, op: Op) -> (r: Result<(), WHError>)
        requires
            old(self).wf(),
            !has_key(old(self).entries(), key_of(op@)),
            checkpoint_date(op.date) is Some,
        ensures
            r is Ok <==> fits_all(
                old(self).ops().insert(rank(old(self).entries(), key_of(op@)), op@),
            ),
            r is Ok ==> final(self).wf() && final(self).ops() == old(self).ops().insert(
                rank(old(self).entries(), key_of(op@)),
                op@,
            ) && final(self).latest() == (if checkpoint_date(op.date).unwrap() > old(self).latest() {
                checkpoint_date(op.date).unwrap()
            } else {
                old(self).latest()
            }),
            r matches Err(e) ==> e.kind == ErrorKind::Capacity,
    {
        let ghost ops0 = self.ops();
        let copy: Op = op.duplicate();
        let p: usize = self.insert_running(op)?;
        self.raise_checkpoints(&copy, Ghost(ops0), Ghost(p as int));
        self.ensure_checkpoint(&copy, Ghost(ops0), Ghost(p as int));
        Ok(())
    }

    /// Takes the operation at `p` out and lowers every later running balance
    /// of its place by its delta.
    fn remove_running(&mut self, p: usize) -> (r: Result<Op, WHError>)
        requires
            sorted(old(self).entries()),
            keyed(old(self).entries()),
            running_ok(old(self).entries()),
            p < old(self).entries().len(),
        ensures
            final(self).snapshots() == old(self).snapshots(),
            final(self).latest() == old(self).latest(),
            r is Ok <==> fits_all(old(self).ops().remove(p as int)),
            r matches Ok(op) ==> {
                &&& op@ == old(self).ops()[p as int]
                &&& sorted(final(self).entries())
                &&& keyed(final(self).entries())
                &&& running_ok(final(self).entries())
                &&& final(self).ops() == old(self).ops().remove(p as int)
            },
            r matches Err(e) ==> e.kind == ErrorKind::Capacity,
    {
        let ghost s0 = self.entries();
        let ghost ops0 = self.ops();
        let ghost ops1 = ops0.remove(p as int);
        let gone: OpEntry = self.ordered.remove_at(p);
        let op: Op = gone.op;
        let ghost o = op@;
        let ghost at = place_of(o);
        let ghost s1 = self.entries();
        proof {
            assert(op_seq(s1) =~= ops1);
            assert(ops0[p as int] == o);
        }
        match self.shift_running(p, op.store, op.goods, op.batch, &op.op, op.is_dependent, false) {
            Err(e) => {
                proof {
                    let i = choose|i: int|
                        p <= i < s1.len() && place_of((#[trigger] s1[i]).op) == at
                            && !s1[i].balance.amount().plus(
                            signed(op.op, op.is_dependent, false),
                        ).fits();
                    assert(s1[i] == s0[i + 1]);
                    assert(s0[i + 1].balance.amount() == psum(ops0, place_of(s0[i + 1].op), i + 2));
                    lemma_psum_remove(ops0, p as int, at, i + 1);
                    assert(ops1[i] == s1[i].op);
                    assert(!psum(ops1, place_of(ops1[i]), i + 1).fits());
                }
                return Err(e);
            },
            Ok(()) => {},
        }
        let ghost s2 = self.entries();
        proof {
            assert(op_seq(s2) =~= ops1);
            assert forall|i: int| 0 <= i < p implies (#[trigger] s2[i]).balance
                == s0[i].balance by {
                assert(s1[i] == s0[i]);
                assert(s2[i].balance.amount() == s1[i].balance.amount());
            }
            assert forall|i: int| p <= i < s2.len() implies (#[trigger] s2[i]).balance.amount()
                == s0[i + 1].balance.amount().minus(share(
                    s0[p as int].op,
                    place_of(s0[i + 1].op),
                )) by {
                assert(s1[i] == s0[i + 1]);
            }
            lemma_running_after_remove(s0, s2, p as int);
        }
        Ok(op)
    }

    /// Lowers every checkpoint of the place of an operation that was taken out
    /// dated at or after it by its delta.
    fn lower_checkpoints(&mut self, op: &Op, Ghost(ops0): Ghost<Seq<OpView>>, Ghost(p): Ghost<int>)
        requires
            0 <= p < ops0.len(),
            ops0[p] == op@,
            old(self).ops() == ops0.remove(p),
            sorted(old(self).entries()),
            keyed(old(self).entries()),
            running_ok(old(self).entries()),
            check_sorted(old(self).snapshots()),
            check_keyed(old(self).snapshots()),
            checkpoints_ok(ops0, old(self).snapshots()),
            snapshots_ok(ops0, old(self).snapshots()),
        ensures
            final(self).entries() == old(self).entries(),
            final(self).latest() == old(self).latest(),
            check_sorted(final(self).snapshots()),
            check_keyed(final(self).snapshots()),
            checkpoints_ok(final(self).ops(), final(self).snapshots()),
            covered(ops0, final(self).snapshots()),
            snapshotted(ops0, final(self).snapshots()),
    {
        let ghost c0 = self.snapshots();
        let ghost o = op@;
        let ghost at = place_of(o);
        let ghost ops1 = self.ops();
        let ghost s2 = self.entries();
        match self.shift_checkpoints(
            op.store,
            op.goods,
            op.batch,
            op.date,
            &op.op,
            op.is_dependent,
            false,
        ) {
            Err(e) => {
                proof {
                    let k = choose|k: int|
                        0 <= k < c0.len() && check_place((#[trigger] c0[k]).balance) == at
                            && c0[k].balance.date >= op.date
                            && !c0[k].balance.number.amount().plus(
                            signed(op.op, op.is_dependent, false),
                        ).fits();
                    assert forall|i: int| 0 <= i < ops1.len() implies (#[trigger] psum(
                        ops1,
                        place_of(ops1[i]),
                        i + 1,
                    )).fits() by {
                        assert(s2[i].op == ops1[i]);
                        assert(s2[i].balance.amount() == psum(ops1, place_of(s2[i].op), i + 1));
                    }
                    lemma_dates_ascend(s2);
                    lemma_dsum_remove(ops0, p, at, c0[k].balance.date, ops1.len() as int);
                    lemma_dsum_fits(ops1, at, c0[k].balance.date);
                    assert(c0[k].balance.number.amount() == balance_on_date(
                        ops0,
                        check_place(c0[k].balance),
                        c0[k].balance.date,
                    ));
                    assert(false);
                }
            },
            Ok(()) => {},
        }
        proof {
            let c1 = self.snapshots();
            lemma_checkpoints_after_remove(ops0, p, c0, c1);
            lemma_covered_same_shape(ops0, c0, c1);
            lemma_snapshotted_same_keys(ops0, c0, c1);
        }
    }

    /// Whether some stored operation on the place is snapshotted under the
    /// boundary.
    fn is_active(&self, store: Store, goods: Goods, batch: Batch, boundary: u64) -> (r: bool)
        requires
            forall|i: int|
                0 <= i < self.ops().len() ==> checkpoint_date((#[trigger] self.ops()[i]).date)
                    is Some,
        ensures
            r == active(self.ops(), Place { store, goods, batch }, boundary),
    {
        let ghost at = Place { store, goods, batch };
        let n: usize = self.ordered.len();
        let mut i: usize = 0;
        while i < n
            invariant
                i <= n,
                n == self.entries().len(),
                at == (Place { store, goods, batch }),
                self.entries() == self.ordered@,
                forall|i: int|
                    0 <= i < self.ops().len() ==> checkpoint_date((#[trigger] self.ops()[i]).date)
                        is Some,
                forall|j: int|
                    0 <= j < i ==> !(place_of(#[trigger] self.ops()[j]) == at && checkpoint_date(
                        self.ops()[j].date,
                    ) == Some(boundary)),
            decreases n - i,
        {
            let e: &OpEntry = self.ordered.entry(i);
            assert(self.ops()[i as int] == e.op@);
            if e.op.store == store && e.op.goods == goods && e.op.batch == batch {
                match next_checkpoint(e.op.date) {
                    Ok(m) => {
                        if m == boundary {
                            proof {
                                reveal(active);
                                assert(place_of(self.ops()[i as int]) == at);
                            }
                            return true;
                        }
                    },
                    Err(_) => {
                        assert(false);
                    },
                }
            }
            i = i + 1;
        }
        proof {
            reveal(active);
        }
        false
    }

    /// Takes out the checkpoint under which an operation that was taken out
    /// was snapshotted, where no other operation is snapshotted under it.
    fn drop_checkpoint(&mut self, op: &Op, Ghost(ops0): Ghost<Seq<OpView>>, Ghost(p): Ghost<int>)
        requires
            0 <= p < ops0.len(),
            ops0[p] == op@,
            old(self).ops() == ops0.remove(p),
            sorted(old(self).entries()),
            keyed(old(self).entries()),
            running_ok(old(self).entries()),
            check_sorted(old(self).snapshots()),
            check_keyed(old(self).snapshots()),
            checkpoints_ok(old(self).ops(), old(self).snapshots()),
            covered(ops0, old(self).snapshots()),
            snapshotted(ops0, old(self).snapshots()),
            latest_ok(ops0, old(self).latest()),
        ensures
            final(self).entries() == old(self).entries(),
            final(self).latest() == old(self).latest(),
            final(self).wf(),
    {
        let ghost c1 = self.snapshots();
        let ghost o = op@;
        let ghost at = place_of(o);
        let ghost ops1 = self.ops();
        proof {
            lemma_snapshotted_remove_op(ops0, p, c1);
            assert forall|i: int| 0 <= i < ops1.len() implies (checkpoint_date(
                (#[trigger] ops1[i]).date,
            ) matches Some(x) ==> x <= self.latest()) by {
                if i < p {
                    assert(ops1[i] == ops0[i]);
                } else {
                    assert(ops1[i] == ops0[i + 1]);
                }
            }
        }
        let m: u64 = match next_checkpoint(op.date) {
            Ok(m) => m,
            Err(_) => {
                assert(false);
                0
            },
        };
        let still: bool = self.is_active(op.store, op.goods, op.batch, m);
        if still {
            proof {
                lemma_covered_remove_op(ops0, p, c1);
            }
        } else {
            let ckey: Vec<u8> = build_check_key(m, op.store, op.goods, op.batch);
            let cp: usize = self.checkpoints.position(&ckey);
            proof {
                reveal(has_snapshot);
                assert(has_snapshot(c1, snapshot_of(o)));
            }
            let _ = self.checkpoints.remove_at(cp);
            proof {
                let c2 = c1.remove(cp as int);
                lemma_covered_remove_entry(ops0, c1, cp as int);
                assert forall|k: int| 0 <= k < c2.len() implies !(check_place(
                    (#[trigger] c2[k]).balance,
                ) == at && c2[k].balance.date == m) by {
                    let k0 = if k < cp {
                        k
                    } else {
                        k + 1
                    };
                    assert(c2[k] == c1[k0]);
                    assert(c1[k0].key == check_key_of(c1[k0].balance));
                    if check_place(c1[k0].balance) == at && c1[k0].balance.date == m {
                        assert(check_parts_of(c1[k0].balance) == (CheckParts {
                            date: m,
                            store: at.store,
                            goods: at.goods,
                            batch_date: at.batch.date,
                            batch_id: at.batch.id,
                        }));
                        assert(c1[k0].key == c1[cp as int].key);
                        if k0 < cp {
                            assert(crate::bytes::lex_lt(c1[k0].key, c1[cp as int].key));
                            crate::bytes::lemma_lex_lt_irreflexive(c1[k0].key);
                        } else {
                            assert(crate::bytes::lex_lt(c1[cp as int].key, c1[k0].key));
                            crate::bytes::lemma_lex_lt_irreflexive(c1[k0].key);
                        }
                    }
                }
                lemma_covered_remove_op(ops0, p, c2);
                assert forall|i: int| 0 <= i < ops1.len() implies snapshot_of(#[trigger] ops1[i])
                    != c1[cp as int].key by {
                    if snapshot_of(ops1[i]) == c1[cp as int].key {
                        lemma_check_key_order(
                            CheckParts {
                                date: checkpoint_date(ops1[i].date).unwrap(),
                                store: ops1[i].store,
                                goods: ops1[i].goods,
                                batch_date: ops1[i].batch.date,
                                batch_id: ops1[i].batch.id,
                            },
                            CheckParts {
                                date: m,
                                store: at.store,
                                goods: at.goods,
                                batch_date: at.batch.date,
                                batch_id: at.batch.id,
                            },
                        );
                        reveal(active);
                        assert(place_of(ops1[i]) == at);
                        assert(false);
                    }
                }
                lemma_snapshotted_remove_entry(ops1, c1, cp as int);
                assert forall|k: int| 0 <= k < c2.len() implies (
                #[trigger] c2[k]).balance.number.amount() == balance_on_date(
                    ops1,
                    check_place(c2[k].balance),
                    c2[k].balance.date,
                ) by {
                    if k < cp {
                        assert(c2[k] == c1[k]);
                    } else {
                        assert(c2[k] == c1[k + 1]);
                    }
                }
            }
        }
    }

    /// Takes the operation at `p` out: every later running balance of its
    /// place and every checkpoint of its place dated at or after it is lowered
    /// by its delta, and the checkpoint of its month goes where nothing else
    /// is snapshotted under it.
    fn remove_op(&mut self, p: usize) -> (r: Result<(), WHError>)
        requires
            old(self).wf(),
            p < old(self).entries().len(),
        ensures
            r is Ok <==> fits_all(old(self).ops().remove(p as int)),
            r is Ok ==> final(self).wf() && final(self).ops() == old(self).ops().remove(p as int)
                && final(self).latest() == old(self).latest(),
            r matches Err(e) ==> e.kind == ErrorKind::Capacity,
    {
        let ghost ops0 = self.ops();
        let op: Op = self.remove_running(p)?;
        self.lower_checkpoints(&op, Ghost(ops0), Ghost(p as int));
        self.drop_checkpoint(&op, Ghost(ops0), Ghost(p as int));
        Ok(())
    }

    /// Puts one operation in, as [`ins_one`] says.
    fn put_one(&mut self, op: Op) -> (r: Result<(), WHError>)
        requires
            old(self).wf(),
            checkpoint_date(op.date) is Some,
        ensures
            match ins_one(old(self).ops(), op@) {
                Ok(t) => r is Ok
                    && final(self).wf() && final(self).ops() == t
                    && final(self).latest()
                        == (if checkpoint_date(op.date).unwrap() > old(self).latest() {
                    checkpoint_date(op.date).unwrap()
                } else {
                    old(self).latest()
                }),
                Err(k) => r matches Err(e) && e.kind == k,
            },
    {
        let key: Vec<u8> = self.ordered.key(&op);
        let p: usize = self.ordered.position(&key);
        proof {
            lemma_rank_ops(self.entries(), key@);
            if p < self.entries().len() {
                assert(self.entries()[p as int].key == key_of(self.entries()[p as int].op));
                assert(self.ops()[p as int] == self.entries()[p as int].op);
            }
        }
        if self.ordered.holds_at(p, &key) {
            return Err(WHError::new(
                ErrorKind::Conflict,
                "another operation is stored under the key",
            ));
        }
        self.insert_op(op)
    }

    /// Takes one operation out, as [`del_one`] says.
    fn take_one(&mut self, op: &Op) -> (r: Result<(), WHError>)
        requires
            old(self).wf(),
        ensures
            match del_one(old(self).ops(), op@) {
                Ok(t) => r is Ok
                    && final(self).wf() && final(self).ops() == t
                    && final(self).latest() == old(self).latest(),
                Err(k) => r matches Err(e) && e.kind == k,
            },
    {
        let key: Vec<u8> = self.ordered.key(op);
        let p: usize = self.ordered.position(&key);
        proof {
            lemma_rank_ops(self.entries(), key@);
            if p < self.entries().len() {
                assert(self.entries()[p as int].key == key_of(self.entries()[p as int].op));
                assert(self.ops()[p as int] == self.entries()[p as int].op);
            }
        }
        if !self.ordered.holds_at(p, &key) {
            return Err(WHError::new(ErrorKind::Conflict, "the operation is not stored"));
        }
        if !self.ordered.entry(p).op.same(op) {
            return Err(WHError::new(
                ErrorKind::Conflict,
                "another operation is stored under the key",
            ));
        }
        self.remove_op(p)
    }

    /// Whether exactly this operation is stored.
    fn holds(&self, op: &Op) -> (r: bool)
        requires
            sorted(self.entries()),
            keyed(self.entries()),
        ensures
            r == found(self.ops(), op@),
    {
        let key: Vec<u8> = self.ordered.key(op);
        let p: usize = self.ordered.position(&key);
        proof {
            lemma_rank_ops(self.entries(), key@);
            if p < self.entries().len() {
                assert(self.entries()[p as int].key == key_of(self.entries()[p as int].op));
                assert(self.ops()[p as int] == self.entries()[p as int].op);
            }
        }
        self.ordered.holds_at(p, &key) && self.ordered.entry(p).op.same(op)
    }

    /// Whether all of the operations are stored as given.
    fn holds_all(&self, forms: &Vec<Op>) -> (r: bool)
        requires
            sorted(self.entries()),
            keyed(self.entries()),
        ensures
            r == all_found(self.ops(), op_views(forms@), 0),
    {
        let mut i: usize = forms.len();
        while i > 0
            invariant
                i <= forms@.len(),
                sorted(self.entries()),
                keyed(self.entries()),
                all_found(self.ops(), op_views(forms@), i as int),
            decreases i,
        {
            if !self.holds(&forms[i - 1]) {
                proof {
                    lemma_all_found_needs(self.ops(), op_views(forms@), 0, i - 1);
                }
                return false;
            }
            i = i - 1;
        }
        true
    }

    /// Puts the operations in, one after the other, as [`ins_many`] says.
    fn put_many(&mut self, forms: &Vec<Op>, date: u64) -> (r: Result<(), WHError>)
        requires
            old(self).wf(),
            checkpoint_date(date) is Some,
            forall|k: int| 0 <= k < forms@.len() ==> (#[trigger] forms@[k]).date == date,
        ensures
            match ins_many(old(self).ops(), op_views(forms@), 0) {
                Ok(t) => r is Ok && final(self).wf() && final(self).ops()
                    == t && final(self).latest()
                    == (if forms@.len() > 0 && checkpoint_date(date).unwrap() > old(self).latest() {
                    checkpoint_date(date).unwrap()
                } else {
                    old(self).latest()
                }),
                Err(k) => r matches Err(e) && e.kind == k,
            },
    {
        let mut i: usize = 0;
        while i < forms.len()
            invariant
                i <= forms@.len(),
                self.wf(),
                checkpoint_date(date) is Some,
                forall|k: int| 0 <= k < forms@.len() ==> (#[trigger] forms@[k]).date == date,
                ins_many(old(self).ops(), op_views(forms@), 0) == ins_many(
                    self.ops(),
                    op_views(forms@),
                    i as int,
                ),
                self.latest() == (if i > 0 && checkpoint_date(date).unwrap() > old(self).latest() {
                    checkpoint_date(date).unwrap()
                } else {
                    old(self).latest()
                }),
            decreases forms@.len() - i,
        {
            assert(op_views(forms@)[i as int] == forms@[i as int]@);
            self.put_one(forms[i].duplicate())?;
            i = i + 1;
        }
        Ok(())
    }

    /// Takes the operations out, the last one first, as [`del_many`] says.
    fn take_many(&mut self, forms: &Vec<Op>) -> (r: Result<(), WHError>)
        requires
            old(self).wf(),
        ensures
            match del_many(old(self).ops(), op_views(forms@), 0, forms@.len() as int) {
                Ok(t) => r is Ok
                    && final(self).wf() && final(self).ops() == t
                    && final(self).latest() == old(self).latest(),
                Err(k) => r matches Err(e) && e.kind == k,
            },
    {
        let mut n: usize = forms.len();
        while n > 0
            invariant
                n <= forms@.len(),
                self.wf(),
                del_many(old(self).ops(), op_views(forms@), 0, forms@.len() as int) == del_many(
                    self.ops(),
                    op_views(forms@),
                    0,
                    n as int,
                ),
                self.latest() == old(self).latest(),
            decreases n,
        {
            assert(op_views(forms@)[n - 1] == forms@[n - 1]@);
            self.take_one(&forms[n - 1])?;
            n = n - 1;
        }
        Ok(())
    }
}

impl Db {
    /// Whether the operation was generated for the issue without batch that
    /// the mutation describes.
    fn child_of_mutation(op: &Op, m: &OpMutation) -> (r: bool)
        ensures
            r == is_child(op@, *m),
    {
        op.is_dependent && op.is_issue() && op.id == m.id && op.date == m.date && op.store
            == m.store && op.goods == m.goods
    }

    /// How many operations were generated for the issue without batch that the
    /// mutation describes, and their total quantity.
    fn count_children(&self, m: &OpMutation) -> (r: (usize, i128))
        ensures
            r.0 == children_count(self.ops(), *m, self.ops().len() as int),
            r.1 == children_qty(self.ops(), *m, self.ops().len() as int),
    {
        let n: usize = self.ordered.len();
        let mut count: usize = 0;
        let mut qty: i128 = 0;
        let mut i: usize = 0;
        while i < n
            invariant
                i <= n,
                n == self.entries().len(),
                self.entries() == self.ordered@,
                count <= i,
                count == children_count(self.ops(), *m, i as int),
                qty == children_qty(self.ops(), *m, i as int),
                -(i as int) * 0x8000_0000_0000_0000 <= qty <= (i as int) * 0x8000_0000_0000_0000,
            decreases n - i,
        {
            let e: &OpEntry = self.ordered.entry(i);
            assert(self.ops()[i as int] == e.op@);
            proof {
                assert((i as int) * 0x8000_0000_0000_0000 + 0x8000_0000_0000_0000 == (i + 1)
                    * 0x8000_0000_0000_0000) by (nonlinear_arith);
                assert((i + 1) * 0x8000_0000_0000_0000 <= 0xffff_ffff_ffff_ffff
                    * 0x8000_0000_0000_0000) by (nonlinear_arith)
                    requires
                        i + 1 <= 0xffff_ffff_ffff_ffff,
                ;
            }
            if Db::child_of_mutation(&e.op, m) {
                count = count + 1;
                qty = qty + e.op.op.qty() as i128;
            }
            i = i + 1;
        }
        (count, qty)
    }

    /// Takes out the operations that were generated for the issue without
    /// batch that the mutation describes, as [`del_children`] says.
    fn take_children(&mut self, m: &OpMutation) -> (r: Result<(), WHError>)
        requires
            old(self).wf(),
        ensures
            match del_children(old(self).ops(), *m, old(self).ops().len() as int) {
                Ok(t) => r is Ok
                    && final(self).wf() && final(self).ops() == t
                    && final(self).latest() == old(self).latest(),
                Err(k) => r matches Err(e) && e.kind == k,
            },
    {
        let mut n: usize = self.ordered.len();
        while n > 0
            invariant
                n <= self.ops().len(),
                self.wf(),
                self.entries() == self.ordered@,
                self.latest() == old(self).latest(),
                del_children(old(self).ops(), *m, old(self).ops().len() as int) == del_children(
                    self.ops(),
                    *m,
                    n as int,
                ),
            decreases n,
        {
            let e: &OpEntry = self.ordered.entry(n - 1);
            assert(self.ops()[n - 1] == e.op@);
            if Db::child_of_mutation(&e.op, m) {
                self.remove_op(n - 1)?;
            }
            n = n - 1;
        }
        Ok(())
    }

    /// Puts a batch at its place in the list, where it is not yet in it.
    fn insert_batch(list: &mut Vec<Batch>, b: Batch)
        ensures
            final(list)@ == with_batch(old(list)@, b),
    {
        let mut place: usize = 0;
        let mut i: usize = 0;
        while i < list.len()
            invariant
                i <= list@.len(),
                list@ == old(list)@,
                place <= i,
                place == batch_rank(list@, b, i as int),
                forall|k: int| 0 <= k < i ==> list@[k] != b,
            decreases list@.len() - i,
        {
            let x: Batch = list[i];
            if x.id == b.id && x.date == b.date {
                return ;
            }
            if x.date < b.date || (x.date == b.date && x.id < b.id) {
                place = place + 1;
            }
            i = i + 1;
        }
        list.insert(place, b);
    }

    /// The balances against which an issue without batch dated `date` is
    /// resolved: of every batch of the store and goods that was moved before
    /// `date`, oldest batch first, the balance right before `date`.
    pub fn project(&self, store: Store, goods: Goods, date: u64) -> (r: Vec<Balance>)
        requires
            self.wf(),
        ensures
            r@ == projected(self.ops(), store, goods, date),
    {
        let n: usize = self.ordered.len();
        let mut list: Vec<Batch> = Vec::new();
        let mut i: usize = 0;
        while i < n
            invariant
                i <= n,
                n == self.entries().len(),
                self.entries() == self.ordered@,
                list@ == batches_before(self.ops(), store, goods, date, i as int),
            decreases n - i,
        {
            let e: &OpEntry = self.ordered.entry(i);
            assert(self.ops()[i as int] == e.op@);
            if e.op.store == store && e.op.goods == goods && e.op.date < date {
                Db::insert_batch(&mut list, e.op.batch);
            }
            i = i + 1;
        }
        let upto: u64 = if date > 0 {
            date - 1
        } else {
            0
        };
        let mut res: Vec<Balance> = Vec::new();
        let mut k: usize = 0;
        while k < list.len()
            invariant
                k <= list@.len(),
                self.wf(),
                list@ == batches_before(self.ops(), store, goods, date, self.ops().len() as int),
                upto == (if date > 0 {
                    (date - 1) as u64
                } else {
                    0
                }),
                res@.len() == k,
                forall|j: int|
                    0 <= j < k ==> res@[j] == balances_of(self.ops(), store, goods, date, list@)[j],
            decreases list@.len() - k,
        {
            let number: BalanceForGoods = self.balance_before(store, goods, list[k], upto);
            res.push(Balance { date, store, goods, batch: list[k], number });
            k = k + 1;
        }
        assert(res@ =~= projected(self.ops(), store, goods, date));
        res
    }

    /// The operations that a movement with a batch is stored as.
    fn make_forms(m: &OpMutation, op: InternalOperation) -> (r: Vec<Op>)
        ensures
            op_views(r@) == forms(*m, op),
            forall|k: int| 0 <= k < r@.len() ==> (#[trigger] r@[k]).date == m.date,
    {
        let mut r: Vec<Op> = Vec::new();
        r.push(m.make_op(op));
        if op.is_transfer() {
            if let Some(into) = m.transfer {
                r.push(m.make_transfer_in(op, into));
            }
        }
        assert(op_views(r@) =~= forms(*m, op));
        r
    }

    /// Whether what the mutation leaves behind breaks a rule of the data
    /// model.
    fn is_invalid(m: &OpMutation) -> (r: bool)
        ensures
            r == invalid(*m),
    {
        match m.after {
            Some(a) => {
                if a.is_zero() {
                    return true;
                }
                if a.is_issue() && !m.batch.is_empty() && m.batch.date > m.date {
                    return true;
                }
                if a.is_transfer() && (m.transfer.is_none() || m.batch.is_empty()) {
                    return true;
                }
                next_checkpoint(m.date).is_err()
            },
            None => false,
        }
    }

    /// Takes out what stood before the mutation, as [`del_phase`] says.
    fn del_stage(&mut self, m: &OpMutation) -> (r: Result<(), WHError>)
        requires
            old(self).wf(),
        ensures
            match del_phase(old(self).ops(), *m) {
                Ok(t) => r is Ok
                    && final(self).wf() && final(self).ops() == t
                    && final(self).latest() == old(self).latest(),
                Err(k) => r matches Err(e) && e.kind == k,
            },
    {
        match m.before {
            None => Ok(()),
            Some(b) => {
                if b.is_issue() && m.batch.is_empty() {
                    let (count, qty) = self.count_children(m);
                    if count == 0 || qty != b.qty() as i128 {
                        return Err(
                            WHError::new(ErrorKind::Conflict, "the issue is not stored as given"),
                        );
                    }
                    self.take_children(m)
                } else {
                    let stored: Vec<Op> = Db::make_forms(m, b);
                    self.take_many(&stored)
                }
            },
        }
    }

    /// Puts in what stands after the mutation, as [`ins_phase`] says.
    fn ins_stage(&mut self, m: &OpMutation) -> (r: Result<(), WHError>)
        requires
            old(self).wf(),
            m.after is Some ==> checkpoint_date(m.date) is Some,
            m.after matches Some(a) ==> a.qty_spec() != 0,
        ensures
            match ins_phase(old(self).ops(), *m) {
                Ok(t) => r is Ok && final(self).wf() && final(self).ops()
                    == t && final(self).latest()

                        == (if m.after is Some && checkpoint_date(m.date).unwrap() > old(self).latest() {
                    checkpoint_date(m.date).unwrap()
                } else {
                    old(self).latest()
                }),
                Err(k) => r matches Err(e) && e.kind == k,
            },
    {
        match m.after {
            None => Ok(()),
            Some(a) => {
                if a.is_issue() && m.batch.is_empty() {
                    let (count, qty) = self.count_children(m);
                    if count > 0 {
                        if qty == a.qty() as i128 {
                            proof {
                                self.lemma_child_dated(*m);
                            }
                            return Ok(());
                        }
                        return Err(
                            WHError::new(ErrorKind::Conflict, "the issue is stored otherwise"),
                        );
                    }
                    let balances: Vec<Balance> = self.project(m.store, m.goods, m.date);
                    let children: Vec<Op> = allocate(m, a.qty(), a.cost(), op_mode(&a), &balances);
                    proof {
                        lemma_fifo_children(
                            *m,
                            a.qty_spec(),
                            a.cost_spec(),
                            mode_of(a),
                            balances@,
                            0,
                            a.qty_spec() as int,
                        );
                        lemma_fifo_conserves(
                            *m,
                            a.qty_spec(),
                            a.cost_spec(),
                            mode_of(a),
                            balances@,
                            0,
                            a.qty_spec() as int,
                        );
                        assert forall|k: int| 0 <= k < children@.len() implies (
                        #[trigger] children@[k]).date == m.date by {
                            assert(op_views(children@)[k] == children@[k]@);
                        }
                        if children@.len() == 0 {
                            assert(total_qty(op_views(children@), 0) == 0);
                        }
                    }
                    self.put_many(&children, m.date)
                } else {
                    let wanted: Vec<Op> = Db::make_forms(m, a);
                    if self.holds_all(&wanted) {
                        proof {
                            assert(found(self.ops(), op_views(wanted@)[0]));
                            self.lemma_found_dated(op_views(wanted@)[0]);
                        }
                        return Ok(());
                    }
                    self.put_many(&wanted, m.date)
                }
            },
        }
    }

    /// A stored operation is snapshotted at or before the latest checkpoint
    /// date.
    proof fn lemma_found_dated(&self, o: OpView)
        requires
            self.wf(),
            found(self.ops(), o),
        ensures
            checkpoint_date(o.date) matches Some(x) && x <= self.latest(),
    {
        let p = rank_ops(self.ops(), key_of(o));
        assert(self.ops()[p] == o);
    }

    /// Where operations were generated for a mutation, its date is
    /// snapshotted at or before the latest checkpoint date.
    proof fn lemma_child_dated(&self, m: OpMutation)
        requires
            self.wf(),
            children_count(self.ops(), m, self.ops().len() as int) > 0,
        ensures
            checkpoint_date(m.date) matches Some(x) && x <= self.latest(),
    {
        let i = lemma_some_child(self.ops(), m, self.ops().len() as int);
        assert(self.ops()[i].date == m.date);
    }

    /// Applies one mutation, as [`step`] says.
    fn record_op(&mut self, m: &OpMutation) -> (r: Result<(), WHError>)
        requires
            old(self).wf(),
        ensures
            match step(old(self).ops(), *m) {
                Ok(t) => r is Ok
                    && final(self).wf() && final(self).ops() == t
                    && final(self).latest() == latest_step(old(self).latest(), *m),
                Err(k) => r matches Err(e) && e.kind == k,
            },
    {
        if m.before == m.after {
            return Ok(());
        }
        if Db::is_invalid(m) {
            return Err(WHError::new(ErrorKind::Invalid, "the operation breaks the data model"));
        }
        self.del_stage(m)?;
        self.ins_stage(m)
    }

    /// Records the mutations, one after the other. Either all of them take
    /// effect, or the first refusal is returned and the store is as it was.
    pub fn record_ops(&mut self, ops: &Vec<OpMutation>) -> (r: Result<(), WHError>)
        requires
            old(self).wf(),
        ensures
            final(self).wf(),
            final(self).pairs() == old(self).pairs(),
            match run(old(self).ops(), ops@, 0) {
                Ok(t) => r is Ok && final(self).ops() == t && final(self).latest() == latest_run(
                    old(self).latest(),
                    ops@,
                    0,
                ),
                Err(k) => r matches Err(e)
                    && e.kind == k && final(self).entries() == old(self).entries()
                    && final(self).snapshots() == old(self).snapshots()
                    && final(self).latest() == old(self).latest(),
            },
    {
        let mut work: Db = self.duplicate();
        let mut i: usize = 0;
        while i < ops.len()
            invariant
                i <= ops@.len(),
                work.wf(),
                run(old(self).ops(), ops@, 0) == run(work.ops(), ops@, i as int),
                latest_run(old(self).latest(), ops@, 0) == latest_run(
                    work.latest(),
                    ops@,
                    i as int,
                ),
                self.entries() == old(self).entries(),
                self.snapshots() == old(self).snapshots(),
                self.latest() == old(self).latest(),
                self.pairs() == old(self).pairs(),
                self.wf(),
            decreases ops@.len() - i,
        {
            work.record_op(&ops[i])?;
            i = i + 1;
        }
        self.ordered = work.ordered;
        self.checkpoints = work.checkpoints;
        Ok(())
    }

    /// A line that the aggregation engine makes of the checkpoints before
    /// `from` and the operations up to `till` of one store is what the stored
    /// operations say of the place: the balance right before `from`, what came
    /// in and went out inside `[from, till]`, and the balance on `till`.
    pub proof fn lemma_report_line(
        &self,
        balances: Seq<Balance>,
        f: OpFilter,
        at: Place,
        from: u64,
        ceiling: u64,
        g: CheckFilter,
    )
        requires
            self.wf(),
            from <= f.till,
            f.from == 0,
            f.goods is None,
            g.goods is None,
            g.batch is None,
            g.store == f.store,
            g.ceiling == ceiling,
            f.store matches Some(s) ==> at.store == s,
            from == 0 ==> balances == Seq::<Balance>::empty(),
            from > 0 ==> ceiling <= from - 1 && balances == picked(
                self.snapshots(),
                g,
                self.snapshots().len() as int,
            ),
        ensures
            open_of(
                balances,
                ops_where(self.entries(), f),
                at,
                from,
                ops_where(self.entries(), f).len() as int,
            ) == opening(self.ops(), at, from),
            moved_of(
                balances,
                ops_where(self.entries(), f),
                at,
                from,
                true,
                ops_where(self.entries(), f).len() as int,
            ) == moved(self.ops(), at, from, f.till, true),
            moved_of(
                balances,
                ops_where(self.entries(), f),
                at,
                from,
                false,
                ops_where(self.entries(), f).len() as int,
            ) == moved(self.ops(), at, from, f.till, false),
            opening(self.ops(), at, from).plus(moved(self.ops(), at, from, f.till, true)).plus(
                moved(self.ops(), at, from, f.till, false),
            ) == balance_on_date(self.ops(), at, f.till),
    {
        let ops = self.ops();
        let n = ops.len() as int;
        let list = ops_where(self.entries(), f);
        let m = list.len() as int;
        let till = f.till;
        let c = cover(balances, at, balances.len() as int);
        let free = uncovered_from(c);
        assert forall|j: int| 0 <= j < m implies (#[trigger] list[j]).date <= till by {
            lemma_ops_where_members(self.entries(), f, j);
        }
        // what came in and what went out
        let lo = later(free, from as int);
        if c is Some {
            let b = c.unwrap();
            lemma_cover_member(balances, at, balances.len() as int);
            let j = choose|j: int| 0 <= j < balances.len() && #[trigger] balances[j] == b;
            lemma_picked_members(self.snapshots(), g, self.snapshots().len() as int, j);
            let k = choose|k: int|
                0 <= k < self.snapshots().len() && (#[trigger] self.snapshots()[k]).balance == b;
            assert(self.snapshots()[k].balance.number.amount() == balance_on_date(
                ops,
                check_place(self.snapshots()[k].balance),
                self.snapshots()[k].balance.date,
            ));
            assert(check_place(b) == at);
            assert(b.date <= ceiling);
            lemma_dsum_selsum(ops, at, b.date, n);
            lemma_selsum_range(ops, at, 0, b.date as int, from - 1, None, n);
        }
        assert(lo == from);
        assert(free <= from);
        let open_sel = Sel { at, lo: free, hi: from - 1, incoming: None };
        lemma_selsum_scanned(self.entries(), f, open_sel);
        if c is None {
            if from == 0 {
                lemma_selsum_beyond(ops, open_sel, n);
            } else {
                lemma_dsum_selsum(ops, at, (from - 1) as u64, n);
            }
        } else if from > 0 {
            lemma_dsum_selsum(ops, at, (from - 1) as u64, n);
        }
        let in_wide = Sel { at, lo: from as int, hi: u64::MAX as int, incoming: Some(true) };
        let in_sel = Sel { at, lo: from as int, hi: till as int, incoming: Some(true) };
        let out_wide = Sel { at, lo: from as int, hi: u64::MAX as int, incoming: Some(false) };
        let out_sel = Sel { at, lo: from as int, hi: till as int, incoming: Some(false) };
        lemma_selsum_same(list, in_wide, in_sel, m);
        lemma_selsum_same(list, out_wide, out_sel, m);
        lemma_selsum_scanned(self.entries(), f, in_sel);
        lemma_selsum_scanned(self.entries(), f, out_sel);
        // the closing balance
        lemma_selsum_directions(ops, at, from as int, till as int, n);
        lemma_dsum_selsum(ops, at, till, n);
        lemma_selsum_range(ops, at, 0, from - 1, till as int, None, n);
        if from == 0 {
            lemma_selsum_beyond(ops, Sel { at, lo: 0, hi: -1, incoming: None }, n);
        }
    }

    /// The balance of a store, goods and batch on a date: the most recent
    /// checkpoint of the place from which a query for `date` can replay, and
    /// the operations on the place after it that are dated at or before
    /// `date`.
    pub fn balance_on(&self, store: Store, goods: Goods, batch: Batch, date: u64) -> (r: Result<
        BalanceForGoods,
        WHError,
    >)
        requires
            self.wf(),
        ensures
            r is Ok <==> month_start(date) is Some,
            r matches Ok(b) ==> b.amount() == balance_on_date(
                self.ops(),
                Place { store, goods, batch },
                date,
            ),
            r matches Err(e) ==> e.kind == ErrorKind::Invalid,
    {
        let ghost at = Place { store, goods, batch };
        let ghost ops = self.ops();
        let ghost n = ops.len() as int;
        let found: Option<Balance> = self.checkpoints.get_checkpoint_for_goods_and_batch(
            store,
            goods,
            &batch,
            date,
        )?;
        let ghost g = CheckFilter {
            ceiling: ceiling_for(self.latest(), date).unwrap(),
            store: Some(store),
            goods: Some(seq![goods]),
            batch: Some(batch),
        };
        let mut qty: i128 = 0;
        let mut cost: i128 = 0;
        let mut start: u64 = 0;
        let mut done: bool = false;
        proof {
            lemma_dsum_selsum(ops, at, date, n);
        }
        match found {
            Some(c) => {
                proof {
                    lemma_picked_members(self.snapshots(), g, self.snapshots().len() as int, 0);
                    let k = choose|k: int|
                        0 <= k < self.snapshots().len() && (
                        #[trigger] self.snapshots()[k]).balance == c;
                    assert(self.snapshots()[k].balance.number.amount() == balance_on_date(
                        ops,
                        check_place(self.snapshots()[k].balance),
                        self.snapshots()[k].balance.date,
                    ));
                    assert(g.goods.unwrap().contains(c.goods));
                    assert(c.goods == goods);
                    assert(check_place(c) == at);
                    lemma_dsum_selsum(ops, at, c.date, n);
                    lemma_selsum_range(ops, at, 0, c.date as int, date as int, None, n);
                }
                qty = c.number.qty as i128;
                cost = c.number.cost as i128;
                if c.date == u64::MAX {
                    done = true;
                    proof {
                        lemma_selsum_beyond(
                            ops,
                            Sel { at, lo: c.date + 1, hi: date as int, incoming: None },
                            n,
                        );
                    }
                } else {
                    start = c.date + 1;
                }
            },
            None => {},
        }
        let ghost sel = Sel { at, lo: start as int, hi: date as int, incoming: None };
        let ghost base = Amount { qty: qty as int, cost: cost as int };
        assert(done ==> base == balance_on_date(ops, at, date));
        assert(!done ==> base.plus(selsum(ops, sel, n)) == balance_on_date(ops, at, date));
        if !done {
            let list: Vec<Op> = self.ordered.get_ops_for_one_goods(store, goods, start, date);
            let ghost f = OpFilter {
                from: start,
                till: date,
                store: Some(store),
                goods: Some(seq![goods]),
            };
            let ghost got = ops_where(self.entries(), f);
            proof {
                assert forall|o: OpView|
                    place_of(o) == sel.at && sel.lo <= o.date <= sel.hi implies #[trigger] f.admits(
                    o,
                ) by {
                    assert(seq![goods][0] == o.goods);
                }
                lemma_selsum_scanned(self.entries(), f, sel);
                assert forall|j: int| 0 <= j < got.len() implies f.admits(#[trigger] got[j]) by {
                    lemma_ops_where_members(self.entries(), f, j);
                }
            }
            let mut i: usize = 0;
            while i < list.len()
                invariant
                    i <= list@.len(),
                    op_views(list@) == got,
                    at == (Place { store, goods, batch }),
                    sel == (Sel { at, lo: start as int, hi: date as int, incoming: None }),
                    (Amount { qty: qty as int, cost: cost as int }) == base.plus(
                        selsum(got, sel, i as int),
                    ),
                    forall|j: int| 0 <= j < got.len() ==> f.admits(#[trigger] got[j]),
                    f == (OpFilter {
                        from: start,
                        till: date,
                        store: Some(store),
                        goods: Some(seq![goods]),
                    }),
                    -(i + 1) * 0x8000_0000_0000_0000 <= qty < (i + 1) * 0x8000_0000_0000_0000,
                    -(i + 1) * 0x8000_0000_0000_0000 <= cost < (i + 1) * 0x8000_0000_0000_0000,
                decreases list@.len() - i,
            {
                let op: &Op = &list[i];
                assert(got[i as int] == op@);
                assert(f.admits(got[i as int]));
                proof {
                    assert((i + 1) * 0x8000_0000_0000_0000 + 0x8000_0000_0000_0000 == (i + 2)
                        * 0x8000_0000_0000_0000) by (nonlinear_arith);
                    assert((i + 2) * 0x8000_0000_0000_0000 <= 0x1_0000_0000_0000_0000
                        * 0x8000_0000_0000_0000) by (nonlinear_arith)
                        requires
                            i + 2 <= 0x1_0000_0000_0000_0000,
                    ;
                }
                if op.batch == batch {
                    let d: BalanceDelta = op.to_delta();
                    qty = qty + d.qty;
                    cost = cost + d.cost;
                }
                i = i + 1;
            }
        }
        proof {
            lemma_dates_ascend(self.entries());
            assert forall|i: int| 0 <= i < ops.len() implies (#[trigger] psum(
                ops,
                place_of(ops[i]),
                i + 1,
            )).fits() by {
                assert(self.entries()[i].op == ops[i]);
                assert(self.entries()[i].balance.amount() == psum(
                    ops,
                    place_of(self.entries()[i].op),
                    i + 1,
                ));
            }
            lemma_dsum_fits(ops, at, date);
        }
        Ok(BalanceForGoods { qty: qty as i64, cost: cost as i64 })
    }

    /// The opening snapshots of a report that begins at `from`: for every
    /// place of the store, or of all stores, the most recent checkpoint from
    /// which a query for the instant before `from` can replay.
    pub open spec fn report_balances(&self, store: Option<Store>, from: u64) -> Seq<Balance> {
        if from == 0 {
            Seq::empty()
        } else {
            picked(
                self.snapshots(),
                CheckFilter {
                    ceiling: ceiling_for(self.latest(), (from - 1) as u64).unwrap(),
                    store,
                    goods: None,
                    batch: None,
                },
                self.snapshots().len() as int,
            )
        }
    }

    /// The operations that a report up to `till` replays: those of the store,
    /// or of all stores, dated at or before `till`.
    pub open spec fn report_ops(&self, store: Option<Store>, till: u64) -> Seq<OpView> {
        ops_where(self.entries(), OpFilter { from: 0, till, store, goods: None })
    }

    /// The places that a report has a line for, in the order of its lines.
    pub open spec fn report_places(&self, store: Option<Store>, from: u64, till: u64) -> Seq<Place> {
        places(
            self.report_balances(store, from),
            self.report_balances(store, from).len() as int,
            self.report_ops(store, till),
            self.report_ops(store, till).len() as int,
        )
    }

    /// Whether a report over `[from, till]` can be made.
    pub open spec fn report_error(&self, store: Option<Store>, from: u64, till: u64) -> Option<
        ErrorKind,
    > {
        if from > till {
            Some(ErrorKind::Invalid)
        } else if from > 0 && month_start((from - 1) as u64) is None {
            Some(ErrorKind::Invalid)
        } else if self.report_balances(store, from).len() > MAX_REPORT_INPUT || self.report_ops(
            store,
            till,
        ).len() > MAX_REPORT_INPUT {
            Some(ErrorKind::Capacity)
        } else {
            None
        }
    }

    /// The lines of a report over `[from, till]` on one store, or on all.
    fn report_lines(&self, store: Option<Store>, from: u64, till: u64) -> (r: Result<
        (AgregationStore, Vec<AgregationStoreGoods>),
        WHError,
    >)
        requires
            self.wf(),
        ensures
            r is Ok <==> self.report_error(store, from, till) is None,
            r matches Err(e) ==> self.report_error(store, from, till) == Some(e.kind),
            r matches Ok(v) ==> {
                let ps = self.report_places(store, from, till);
                &&& v.1@.len() == ps.len()
                &&& forall|i: int|
                    0 <= i < ps.len() ==> line(#[trigger] v.1@[i]) == (
                        Some(ps[i].store),
                        Some(ps[i].goods),
                        Some(ps[i].batch),
                        opening(self.ops(), ps[i], from),
                        moved(self.ops(), ps[i], from, till, true),
                        moved(self.ops(), ps[i], from, till, false),
                        balance_on_date(self.ops(), ps[i], till),
                    )
                &&& forall|i: int| 0 <= i < ps.len() ==>
                    (store matches Some(s) ==> (#[trigger] ps[i]).store == s)
                &&& v.0.store == (if ps.len() > 0 {
                    Some(ps[0].store)
                } else {
                    None
                })
                &&& v.0.open_balance == cost_total(v.1@, 0, v.1@.len() as int)
                &&& v.0.receive == cost_total(v.1@, 1, v.1@.len() as int)
                &&& v.0.issue == cost_total(v.1@, 2, v.1@.len() as int)
                &&& v.0.close_balance == cost_total(v.1@, 3, v.1@.len() as int)
            },
    {
        if from > till {
            return Err(WHError::new(ErrorKind::Invalid, "the period ends before it begins"));
        }
        let balances: Vec<Balance> = if from == 0 {
            Vec::new()
        } else {
            match store {
                Some(s) => self.checkpoints.get_checkpoints_for_one_storage_before_date(
                    s,
                    from - 1,
                )?,
                None => self.checkpoints.get_checkpoints_for_all_storages_before_date(from - 1)?,
            }
        };
        let list: Vec<Op> = match store {
            Some(s) => self.ordered.get_ops_for_storage(s, 0, till),
            None => self.ordered.get_ops_for_all(0, till),
        };
        let ghost bs = balances@;
        let ghost got = op_views(list@);
        let ghost f = OpFilter { from: 0, till, store, goods: None };
        let ghost ceiling = if from > 0 {
            ceiling_for(self.latest(), (from - 1) as u64).unwrap()
        } else {
            0
        };
        let ghost g = CheckFilter { ceiling, store, goods: None, batch: None };
        assert(bs == self.report_balances(store, from));
        assert(got == self.report_ops(store, till));
        let v = new_get_aggregations(balances, list, from)?;
        proof {
            let ps = self.report_places(store, from, till);
            assert forall|i: int| 0 <= i < ps.len() implies (store matches Some(s) ==> (
            #[trigger] ps[i]).store == s) by {
                lemma_places_members(bs, bs.len() as int, got, got.len() as int, i);
                if exists|j: int| 0 <= j < bs.len() && balance_place(#[trigger] bs[j]) == ps[i] {
                    let j = choose|j: int| 0 <= j < bs.len()
                        && balance_place(#[trigger] bs[j]) == ps[i];
                    lemma_picked_members(self.snapshots(), g, self.snapshots().len() as int, j);
                } else {
                    let k = choose|k: int| 0 <= k < got.len()
                        && place_of(#[trigger] got[k]) == ps[i];
                    lemma_ops_where_members(self.entries(), f, k);
                }
            }
            assert forall|i: int| 0 <= i < ps.len() implies line(#[trigger] v.1@[i]) == (
                Some(ps[i].store),
                Some(ps[i].goods),
                Some(ps[i].batch),
                opening(self.ops(), ps[i], from),
                moved(self.ops(), ps[i], from, till, true),
                moved(self.ops(), ps[i], from, till, false),
                balance_on_date(self.ops(), ps[i], till),
            ) by {
                assert(ps[i].store == ps[i].store);
                self.lemma_report_line(bs, f, ps[i], from, ceiling, g);
            }
        }
        Ok(v)
    }

    /// The report of one store over `[from_date, till_date]`: for every goods
    /// and batch of the store, the balance right before the period, what came
    /// in and went out during it, and the balance at its end.
    pub fn get_report_for_storage(&self, storage: Store, from_date: u64, till_date: u64) -> (r:
        Result<Report, WHError>)
        requires
            self.wf(),
        ensures
            r is Ok <==> self.report_error(Some(storage), from_date, till_date) is None,
            r matches Err(e) ==> self.report_error(Some(storage), from_date, till_date) == Some(
                e.kind,
            ),
            r matches Ok(rep) ==> {
                let ps = self.report_places(Some(storage), from_date, till_date);
                &&& rep.from_date == from_date
                &&& rep.till_date == till_date
                &&& rep.items.1@.len() == ps.len()
                &&& forall|i: int|
                    0 <= i < ps.len() ==> line(#[trigger] rep.items.1@[i]) == (
                        Some(storage),
                        Some(ps[i].goods),
                        Some(ps[i].batch),
                        opening(self.ops(), ps[i], from_date),
                        moved(self.ops(), ps[i], from_date, till_date, true),
                        moved(self.ops(), ps[i], from_date, till_date, false),
                        balance_on_date(self.ops(), ps[i], till_date),
                    ) && ps[i].store == storage
                &&& rep.items.0.store == (if ps.len() > 0 {
                    Some(storage)
                } else {
                    None
                })
                &&& rep.items.0.open_balance == cost_total(rep.items.1@, 0, ps.len() as int)
                &&& rep.items.0.receive == cost_total(rep.items.1@, 1, ps.len() as int)
                &&& rep.items.0.issue == cost_total(rep.items.1@, 2, ps.len() as int)
                &&& rep.items.0.close_balance == cost_total(rep.items.1@, 3, ps.len() as int)
            },
    {
        let items = self.report_lines(Some(storage), from_date, till_date)?;
        Ok(Report { from_date, till_date, items })
    }

    /// The balance of every place of the store, or of all stores, on a date,
    /// in the order of the lines of a report over that one date.
    pub open spec fn rows_on(&self, store: Option<Store>, date: u64) -> Seq<Balance> {
        Seq::new(
            self.report_places(store, date, date).len(),
            |i: int|
                Balance {
                    date,
                    store: self.report_places(store, date, date)[i].store,
                    goods: self.report_places(store, date, date)[i].goods,
                    batch: self.report_places(store, date, date)[i].batch,
                    number: kept(
                        balance_on_date(self.ops(), self.report_places(store, date, date)[i], date),
                    ),
                },
        )
    }

    /// The balances of every place of the store, or of all stores, on a date,
    /// in the order of the lines of a report over that one date.
    fn balances_of_lines(&self, store: Option<Store>, date: u64) -> (r: Result<Vec<Balance>, WHError>)
        requires
            self.wf(),
        ensures
            r is Ok <==> self.report_error(store, date, date) is None,
            r matches Err(e) ==> self.report_error(store, date, date) == Some(e.kind),
            r matches Ok(v) ==> {
                let ps = self.report_places(store, date, date);
                &&& v@.len() == ps.len()
                &&& forall|i: int|
                    0 <= i < ps.len() ==> (#[trigger] v@[i]).date == date && check_place(v@[i])
                        == ps[i] && v@[i].number.amount() == balance_on_date(
                        self.ops(),
                        ps[i],
                        date,
                    ) && (store matches Some(s) ==> v@[i].store == s)
            },
    {
        let lines = self.report_lines(store, date, date)?;
        let ghost ps = self.report_places(store, date, date);
        let mut res: Vec<Balance> = Vec::new();
        let mut i: usize = 0;
        proof {
            lemma_dates_ascend(self.entries());
            assert forall|i: int| 0 <= i < self.ops().len() implies (#[trigger] psum(
                self.ops(),
                place_of(self.ops()[i]),
                i + 1,
            )).fits() by {
                assert(self.entries()[i].op == self.ops()[i]);
                assert(self.entries()[i].balance.amount() == psum(
                    self.ops(),
                    place_of(self.entries()[i].op),
                    i + 1,
                ));
            }
        }
        while i < lines.1.len()
            invariant
                i <= lines.1@.len(),
                lines.1@.len() == ps.len(),
                dates_ascend(self.ops()),
                fits_all(self.ops()),
                forall|i: int|
                    0 <= i < ps.len() ==> line(#[trigger] lines.1@[i]) == (
                        Some(ps[i].store),
                        Some(ps[i].goods),
                        Some(ps[i].batch),
                        opening(self.ops(), ps[i], date),
                        moved(self.ops(), ps[i], date, date, true),
                        moved(self.ops(), ps[i], date, date, false),
                        balance_on_date(self.ops(), ps[i], date),
                    ),
                forall|i: int| 0 <= i < ps.len() ==>
                    (store matches Some(s) ==> (#[trigger] ps[i]).store == s),
                res@.len() == i,
                forall|j: int|
                    0 <= j < i ==> (#[trigger] res@[j]).date == date
                        && check_place(res@[j]) == ps[j]
                        && res@[j].number.amount() == balance_on_date(self.ops(), ps[j], date) && (
                    store matches Some(s) ==> res@[j].store == s),
            decreases lines.1@.len() - i,
        {
            let l: AgregationStoreGoods = lines.1[i];
            proof {
                assert(line(lines.1@[i as int]).3 == opening(self.ops(), ps[i as int], date));
                lemma_dsum_fits(self.ops(), ps[i as int], date);
            }
            match (l.store, l.goods, l.batch) {
                (Some(s), Some(g), Some(b)) => {
                    res.push(
                        Balance {
                            date,
                            store: s,
                            goods: g,
                            batch: b,
                            number: BalanceForGoods {
                                qty: l.close_balance.qty as i64,
                                cost: l.close_balance.cost as i64,
                            },
                        },
                    );
                },
                _ => {
                    assert(false);
                },
            }
            i = i + 1;
        }
        Ok(res)
    }

    /// The balance of every goods and batch of a store on a date.
    pub fn balances_on(&self, store: Store, date: u64) -> (r: Result<Vec<Balance>, WHError>)
        requires
            self.wf(),
        ensures
            r is Ok <==> self.report_error(Some(store), date, date) is None,
            r matches Err(e) ==> self.report_error(Some(store), date, date) == Some(e.kind),
            r matches Ok(v) ==> {
                let ps = self.report_places(Some(store), date, date);
                &&& v@.len() == ps.len()
                &&& forall|i: int|
                    0 <= i < ps.len() ==> (#[trigger] v@[i]).date == date && check_place(v@[i])
                        == ps[i] && v@[i].store == store && v@[i].number.amount()
                        == balance_on_date(self.ops(), ps[i], date)
            },
    {
        self.balances_of_lines(Some(store), date)
    }

    /// The balance of every store, goods and batch on a date.
    pub fn get_balance_for_all(&self, date: u64) -> (r: Result<Vec<Balance>, WHError>)
        requires
            self.wf(),
        ensures
            r is Ok <==> self.report_error(None, date, date) is None,
            r matches Err(e) ==> self.report_error(None, date, date) == Some(e.kind),
            r matches Ok(v) ==> {
                let ps = self.report_places(None, date, date);
                &&& v@.len() == ps.len()
                &&& forall|i: int|
                    0 <= i < ps.len() ==> (#[trigger] v@[i]).date == date && check_place(v@[i])
                        == ps[i] && v@[i].number.amount() == balance_on_date(
                        self.ops(),
                        ps[i],
                        date,
                    )
            },
    {
        self.balances_of_lines(None, date)
    }

    /// For each batch of one kind of goods in one store, the most recent
    /// checkpoint from which a query for `date` can replay.
    pub fn get_checkpoints_for_goods(&self, store: Store, goods: Goods, date: u64) -> (r: Result<
        Vec<Balance>,
        WHError,
    >)
        requires
            self.wf(),
        ensures
            r is Ok <==> ceiling_for(self.latest(), date) is Some,
            r matches Ok(v) ==> v@ == picked(
                self.snapshots(),
                CheckFilter {
                    ceiling: ceiling_for(self.latest(), date).unwrap(),
                    store: Some(store),
                    goods: Some(seq![goods]),
                    batch: None,
                },
                self.snapshots().len() as int,
            ),
            r matches Err(e) ==> e.kind == ErrorKind::Invalid,
    {
        self.checkpoints.get_checkpoints_for_one_goods(store, goods, date)
    }

    /// The most recent checkpoint of one batch from which a query for `date`
    /// can replay.
    pub fn get_checkpoint_for_goods_and_batch(
        &self,
        store: Store,
        goods: Goods,
        batch: &Batch,
        date: u64,
    ) -> (r: Result<Option<Balance>, WHError>)
        requires
            self.wf(),
        ensures
            r is Ok <==> ceiling_for(self.latest(), date) is Some,
            r matches Ok(found) ==> {
                let all = picked(
                    self.snapshots(),
                    CheckFilter {
                        ceiling: ceiling_for(self.latest(), date).unwrap(),
                        store: Some(store),
                        goods: Some(seq![goods]),
                        batch: Some(*batch),
                    },
                    self.snapshots().len() as int,
                );
                found == (if all.len() > 0 {
                    Some(all[0])
                } else {
                    None
                })
            },
            r matches Err(e) ==> e.kind == ErrorKind::Invalid,
    {
        self.checkpoints.get_checkpoint_for_goods_and_batch(store, goods, batch, date)
    }

    /// For every goods and batch of one store, the most recent checkpoint from
    /// which a query for `date` can replay.
    pub fn get_checkpoints_before_date(&self, store: Store, date: u64) -> (r: Result<
        Vec<Balance>,
        WHError,
    >)
        requires
            self.wf(),
        ensures
            r is Ok <==> ceiling_for(self.latest(), date) is Some,
            r matches Ok(v) ==> v@ == picked(
                self.snapshots(),
                CheckFilter {
                    ceiling: ceiling_for(self.latest(), date).unwrap(),
                    store: Some(store),
                    goods: None,
                    batch: None,
                },
                self.snapshots().len() as int,
            ),
            r matches Err(e) ==> e.kind == ErrorKind::Invalid,
    {
        self.checkpoints.get_checkpoints_before_date(store, date)
    }

    /// The checkpoint under which the operation of a mutation is snapshotted,
    /// if it is stored.
    pub fn find_checkpoint(&self, op: &OpMutation) -> (r: Result<Option<Balance>, WHError>)
        requires
            self.wf(),
        ensures
            r is Ok <==> checkpoint_date(op.date) is Some,
            r matches Ok(found) ==> {
                let key = snapshot_key(
                    Place { store: op.store, goods: op.goods, batch: op.batch },
                    checkpoint_date(op.date).unwrap(),
                );
                &&& found is Some <==> check_has_key(self.snapshots(), key)
                &&& found matches Some(b) ==> b == self.snapshots()[check_rank(
                    self.snapshots(),
                    key,
                )].balance
            },
            r matches Err(e) ==> e.kind == ErrorKind::Invalid,
    {
        let key: Vec<u8> = self.checkpoints.key(op.store, op.goods, op.batch, op.date)?;
        let p: usize = self.checkpoints.position(&key);
        if self.checkpoints.holds_at(p, &key) {
            Ok(Some(self.checkpoints.entry(p).balance))
        } else {
            Ok(None)
        }
    }

    /// The report of one goods and batch of a store over
    /// `[from_date, till_date]`: the line of the report of the store that is
    /// on the goods and batch, if there is one, and its costs.
    pub fn get_report_for_goods(
        &self,
        storage: Store,
        goods: Goods,
        batch: &Batch,
        from_date: u64,
        till_date: u64,
    ) -> (r: Result<Report, WHError>)
        requires
            self.wf(),
        ensures
            r is Ok <==> self.report_error(Some(storage), from_date, till_date) is None,
            r matches Err(e) ==> self.report_error(Some(storage), from_date, till_date) == Some(
                e.kind,
            ),
            r matches Ok(rep) ==> {
                let ps = self.report_places(Some(storage), from_date, till_date);
                &&& rep.from_date == from_date
                &&& rep.till_date == till_date
                &&& forall|i: int|
                    0 <= i < rep.items.1@.len() ==>
                        (#[trigger] rep.items.1@[i]).goods == Some(goods)
                        && rep.items.1@[i].batch == Some(*batch) && rep.items.1@[i].store == Some(
                        storage,
                    ) && line(rep.items.1@[i]) == (
                        Some(storage),
                        Some(goods),
                        Some(*batch),
                        opening(
                            self.ops(),
                            Place { store: storage, goods, batch: *batch },
                            from_date,
                        ),
                        moved(
                            self.ops(),
                            Place { store: storage, goods, batch: *batch },
                            from_date,
                            till_date,
                            true,
                        ),
                        moved(
                            self.ops(),
                            Place { store: storage, goods, batch: *batch },
                            from_date,
                            till_date,
                            false,
                        ),
                        balance_on_date(
                            self.ops(),
                            Place { store: storage, goods, batch: *batch },
                            till_date,
                        ),
                    )
                &&& rep.items.1@.len() > 0 <==> ps.contains(
                    Place { store: storage, goods, batch: *batch },
                )
                &&& rep.items.0.store == Some(storage)
                &&& rep.items.0.open_balance == cost_total(
                    rep.items.1@,
                    0,
                    rep.items.1@.len() as int,
                )
                &&& rep.items.0.receive == cost_total(rep.items.1@, 1, rep.items.1@.len() as int)
                &&& rep.items.0.issue == cost_total(rep.items.1@, 2, rep.items.1@.len() as int)
                &&& rep.items.0.close_balance == cost_total(
                    rep.items.1@,
                    3,
                    rep.items.1@.len() as int,
                )
            },
    {
        let all = self.report_lines(Some(storage), from_date, till_date)?;
        let ghost ps = self.report_places(Some(storage), from_date, till_date);
        let ghost at = Place { store: storage, goods, batch: *batch };
        let mut lines: Vec<AgregationStoreGoods> = Vec::new();
        let mut total: AgregationStore = AgregationStore {
            store: Some(storage),
            open_balance: 0,
            receive: 0,
            issue: 0,
            close_balance: 0,
        };
        let mut i: usize = 0;
        while i < all.1.len()
            invariant
                i <= all.1@.len(),
                all.1@.len() == ps.len(),
                at == (Place { store: storage, goods, batch: *batch }),
                forall|k: int|
                    0 <= k < ps.len() ==> line(#[trigger] all.1@[k]) == (
                        Some(ps[k].store),
                        Some(ps[k].goods),
                        Some(ps[k].batch),
                        opening(self.ops(), ps[k], from_date),
                        moved(self.ops(), ps[k], from_date, till_date, true),
                        moved(self.ops(), ps[k], from_date, till_date, false),
                        balance_on_date(self.ops(), ps[k], till_date),
                    ),
                forall|k: int| 0 <= k < ps.len() ==> (#[trigger] ps[k]).store == storage,
                lines@.len() <= 1,
                lines@.len() > 0 <==> exists|k: int| 0 <= k < i && ps[k] == at,
                forall|k: int|
                    0 <= k < lines@.len() ==> line(#[trigger] lines@[k]) == (
                        Some(storage),
                        Some(goods),
                        Some(*batch),
                        opening(self.ops(), at, from_date),
                        moved(self.ops(), at, from_date, till_date, true),
                        moved(self.ops(), at, from_date, till_date, false),
                        balance_on_date(self.ops(), at, till_date),
                    ),
                total.store == Some(storage),
                total.open_balance == cost_total(lines@, 0, lines@.len() as int),
                total.receive == cost_total(lines@, 1, lines@.len() as int),
                total.issue == cost_total(lines@, 2, lines@.len() as int),
                total.close_balance == cost_total(lines@, 3, lines@.len() as int),
            decreases all.1@.len() - i,
        {
            let l: AgregationStoreGoods = all.1[i];
            assert(line(all.1@[i as int]).1 == Some(ps[i as int].goods));
            let same: bool = match (l.goods, l.batch) {
                (Some(g), Some(b)) => g == goods && b == *batch,
                _ => false,
            };
            assert(same == (ps[i as int] == at));
            if same && lines.len() == 0 {
                lines.push(l);
                total = AgregationStore {
                    store: Some(storage),
                    open_balance: l.open_balance.cost,
                    receive: l.receive.cost,
                    issue: l.issue.cost,
                    close_balance: l.close_balance.cost,
                };
                assert(cost_total(lines@, 0, 0) == 0);
                assert(cost_total(lines@, 1, 0) == 0);
                assert(cost_total(lines@, 2, 0) == 0);
                assert(cost_total(lines@, 3, 0) == 0);
            }
            i = i + 1;
        }
        proof {
            if ps.contains(at) {
                let k = choose|k: int| 0 <= k < ps.len() && ps[k] == at;
            }
        }
        Ok(Report { from_date, till_date, items: (total, lines) })
    }

    /// The total of each of the listed goods on a date, over every store and
    /// batch.
    pub fn get_balance(&self, date: u64, goods: &Vec<Goods>) -> (r: Result<
        Vec<(Goods, BalanceDelta)>,
        WHError,
    >)
        requires
            self.wf(),
        ensures
            r is Ok <==> self.report_error(None, date, date) is None,
            r matches Err(e) ==> self.report_error(None, date, date) == Some(e.kind),
            r matches Ok(v) ==> v@.len() == goods@.len() && forall|i: int|
                0 <= i < goods@.len() ==> (#[trigger] v@[i]).0 == goods@[i] && v@[i].1.amount()
                    == goods_total(self.rows_on(None, date), goods@[i]),
    {
        let rows: Vec<Balance> = self.get_balance_for_all(date)?;
        proof {
            let want = self.rows_on(None, date);
            assert forall|i: int| 0 <= i < rows@.len() implies rows@[i] == want[i] by {
                assert(check_place(rows@[i]) == self.report_places(None, date, date)[i]);
                assert(rows@[i].number == kept(rows@[i].number.amount()));
            }
            assert(rows@ =~= want);
        }
        let mut res: Vec<(Goods, BalanceDelta)> = Vec::new();
        let mut i: usize = 0;
        while i < goods.len()
            invariant
                i <= goods@.len(),
                res@.len() == i,
                rows@ == self.rows_on(None, date),
                forall|k: int|
                    0 <= k < i ==> (#[trigger] res@[k]).0 == goods@[k] && res@[k].1.amount()
                        == goods_total(rows@, goods@[k]),
            decreases goods@.len() - i,
        {
            res.push((goods[i], total_for_goods(&rows, goods[i])));
            i = i + 1;
        }
        Ok(res)
    }

    /// Whether the balance stored with every operation is the sum that it
    /// stands for.
    fn audit_running(&self) -> (r: bool)
        ensures
            r == running_ok(self.entries()),
    {
        let n: usize = self.ordered.len();
        let mut i: usize = 0;
        while i < n
            invariant
                i <= n,
                n == self.entries().len(),
                self.entries() == self.ordered@,
                forall|k: int|
                    0 <= k < i ==> (#[trigger] self.entries()[k]).balance.amount() == psum(
                        self.ops(),
                        place_of(self.entries()[k].op),
                        k + 1,
                    ),
            decreases n - i,
        {
            let e: &OpEntry = self.ordered.entry(i);
            let before: BalanceForGoods = self.running_before(
                i,
                e.op.store,
                e.op.goods,
                e.op.batch,
            );
            assert(self.ops()[i as int] == e.op@);
            let fine: bool = match before.apply(&e.op.op, e.op.is_dependent) {
                Some(b) => b.qty == e.balance.qty && b.cost == e.balance.cost,
                None => false,
            };
            if !fine {
                assert(self.entries()[i as int].balance.amount() != psum(
                    self.ops(),
                    place_of(self.entries()[i as int].op),
                    i + 1,
                ));
                return false;
            }
            i = i + 1;
        }
        true
    }

    /// Whether every operation has the checkpoint under which it is
    /// snapshotted, at or before the latest checkpoint date.
    fn audit_snapshots(&self) -> (r: bool)
        requires
            check_sorted(self.snapshots()),
            check_keyed(self.snapshots()),
        ensures
            r == (snapshotted(self.ops(), self.snapshots()) && latest_ok(
                self.ops(),
                self.latest(),
            )),
    {
        let n: usize = self.ordered.len();
        let latest: u64 = self.checkpoints.get_latest_checkpoint_date();
        let mut i: usize = 0;
        while i < n
            invariant
                i <= n,
                n == self.entries().len(),
                self.entries() == self.ordered@,
                latest == self.latest(),
                check_sorted(self.snapshots()),
                check_keyed(self.snapshots()),
                forall|k: int|
                    0 <= k < i ==> checkpoint_date((#[trigger] self.ops()[k]).date) is Some
                        && has_snapshot(self.snapshots(), snapshot_of(self.ops()[k]))
                        && checkpoint_date(self.ops()[k].date).unwrap() <= latest,
            decreases n - i,
        {
            let e: &OpEntry = self.ordered.entry(i);
            assert(self.ops()[i as int] == e.op@);
            let fine: bool = match next_checkpoint(e.op.date) {
                Ok(m) => {
                    let key: Vec<u8> = build_check_key(m, e.op.store, e.op.goods, e.op.batch);
                    let p: usize = self.checkpoints.position(&key);
                    proof {
                        reveal(has_snapshot);
                    }
                    m <= latest && self.checkpoints.holds_at(p, &key)
                },
                Err(_) => false,
            };
            if !fine {
                return false;
            }
            i = i + 1;
        }
        true
    }

    /// Whether every checkpoint holds the balance of its place on its date
    /// and is called for by an operation.
    fn audit_checkpoints(&self) -> (r: bool)
        requires
            sorted(self.entries()),
            keyed(self.entries()),
            running_ok(self.entries()),
            forall|i: int|
                0 <= i < self.ops().len() ==> checkpoint_date((#[trigger] self.ops()[i]).date)
                    is Some,
        ensures
            r == (checkpoints_ok(self.ops(), self.snapshots()) && covered(
                self.ops(),
                self.snapshots(),
            )),
    {
        let n: usize = self.checkpoints.len();
        let mut k: usize = 0;
        while k < n
            invariant
                k <= n,
                n == self.snapshots().len(),
                self.snapshots() == self.checkpoints@.entries,
                sorted(self.entries()),
                keyed(self.entries()),
                running_ok(self.entries()),
                forall|i: int|
                    0 <= i < self.ops().len() ==> checkpoint_date((#[trigger] self.ops()[i]).date)
                        is Some,
                forall|j: int|
                    0 <= j < k ==> (#[trigger] self.snapshots()[j]).balance.number.amount()
                        == balance_on_date(
                        self.ops(),
                        check_place(self.snapshots()[j].balance),
                        self.snapshots()[j].balance.date,
                    ) && active(
                        self.ops(),
                        check_place(self.snapshots()[j].balance),
                        self.snapshots()[j].balance.date,
                    ),
            decreases n - k,
        {
            let b: Balance = self.checkpoints.entry(k).balance;
            let now: BalanceForGoods = self.balance_before(b.store, b.goods, b.batch, b.date);
            if now.qty != b.number.qty || now.cost != b.number.cost {
                return false;
            }
            if !self.is_active(b.store, b.goods, b.batch, b.date) {
                return false;
            }
            k = k + 1;
        }
        true
    }

    /// Whether topologies that were read back make a coherent store.
    pub open spec fn coherent(
        entries: Seq<OpEntryView>,
        snapshots: Seq<CheckEntryView>,
        latest: u64,
    ) -> bool {
        &&& running_ok(entries)
        &&& checkpoints_ok(op_seq(entries), snapshots)
        &&& snapshots_ok(op_seq(entries), snapshots)
        &&& latest_ok(op_seq(entries), latest)
    }

    /// The store over topologies that were read back, with an empty default
    /// column family. Every running balance and every checkpoint is computed
    /// again from the operations; topologies that are not coherent are
    /// refused as corrupt.
    pub fn restore(ordered: DateTypeStoreBatchId, checkpoints: CheckDateStoreBatch) -> (r: Result<
        Db,
        WHError,
    >)
        requires
            ordered.wf(),
            checkpoints.wf(),
        ensures
            r is Ok <==> Db::coherent(ordered@, checkpoints@.entries, checkpoints@.latest),
            r matches Ok(db) ==> db.wf() && db.entries() == ordered@ && db.snapshots()
                == checkpoints@.entries && db.latest() == checkpoints@.latest,
            r matches Ok(db) ==> db.pairs() == Seq::<(Seq<u8>, Seq<char>)>::empty(),
            r matches Err(e) ==> e.kind == ErrorKind::Corrupt,
    {
        let db = Db { ordered, checkpoints, plain: Vec::new() };
        assert(db.pairs() =~= Seq::<(Seq<u8>, Seq<char>)>::empty());
        if !db.audit_running() {
            return Err(WHError::new(
                ErrorKind::Corrupt,
                "a running balance is not the sum of its operations",
            ));
        }
        if !db.audit_snapshots() {
            return Err(WHError::new(ErrorKind::Corrupt, "an operation is without its checkpoint"));
        }
        if !db.audit_checkpoints() {
            return Err(WHError::new(
                ErrorKind::Corrupt,
                "a checkpoint is not the balance on its date",
            ));
        }
        Ok(db)
    }
}

} // verus!
