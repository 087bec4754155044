//! The primary ordered topology: every operation under its key, together with
//! the balance of its store, goods and batch right after it.

use crate::bytes::{
    be_bytes, bytes_eq, bytes_lt, copy_bytes, lemma_be_bytes_len, lemma_be_bytes_order,
    lemma_lex_lt_transitive, lemma_pow256_values, lex_lt, pow256, range_eq,
};
use crate::elements::{BalanceForGoods, Batch, Goods, Op, OpView, Store};
use crate::error::{ErrorKind, WHError};
use crate::ids::{push_id, UUID_MAX, UUID_NIL};
use crate::topologies::op_key::{
    build_key, dep_byte, highest, key_bytes, key_of, lemma_key_len, lemma_key_order,
    lemma_key_slices, lowest, parts_lt, parts_of, KeyParts,
};
use crate::ordered::{
    ascending_keys, keys_before, lemma_before_finds, lemma_before_is_position,
    lemma_insert_ascending, lemma_remove_ascending,
};
use vstd::prelude::*;

verus! {

/// One stored operation.
#[derive(Debug)]
pub struct OpEntry {
    pub key: Vec<u8>,
    pub op: Op,
    /// The balance of the operation's store, goods and batch right after it.
    pub balance: BalanceForGoods,
}

/// What an [`OpEntry`] holds, as a mathematical value.
pub struct OpEntryView {
    pub key: Seq<u8>,
    pub op: OpView,
    pub balance: BalanceForGoods,
}

impl View for OpEntry {
    type V = OpEntryView;

    open spec fn view(&self) -> OpEntryView {
        OpEntryView { key: self.key@, op: self.op@, balance: self.balance }
    }
}

/// The views of a vector of operations.
pub open spec fn op_views(v: Seq<Op>) -> Seq<OpView> {
    Seq::new(v.len(), |i: int| v[i]@)
}

/// The entries that records make under the keys of their operations.
pub open spec fn entries_of(records: Seq<(Op, BalanceForGoods)>) -> Seq<OpEntryView> {
    Seq::new(
        records.len(),
        |i: int|
            OpEntryView { key: key_of(records[i].0@), op: records[i].0@, balance: records[i].1 },
    )
}

/// Keys strictly ascending.
pub open spec fn sorted(s: Seq<OpEntryView>) -> bool {
    forall|i: int, j: int| 0 <= i < j < s.len() ==> lex_lt(#[trigger] s[i].key, #[trigger] s[j].key)
}

/// Every entry stands under the key of its operation.
pub open spec fn keyed(s: Seq<OpEntryView>) -> bool {
    forall|i: int| 0 <= i < s.len() ==> (#[trigger] s[i]).key == key_of(s[i].op)
}

/// How many keys of `s` come strictly before `key`.
pub open spec fn rank(s: Seq<OpEntryView>, key: Seq<u8>) -> int
    decreases s.len(),
{
    if s.len() == 0 {
        0
    } else {
        rank(s.drop_last(), key) + if lex_lt(s.last().key, key) {
            1int
        } else {
            0int
        }
    }
}

/// Whether `key` is stored.
pub open spec fn has_key(s: Seq<OpEntryView>, key: Seq<u8>) -> bool {
    exists|i: int| 0 <= i < s.len() && #[trigger] s[i].key == key
}

/// What a scan asks for.
pub struct OpFilter {
    pub from: u64,
    pub till: u64,
    pub store: Option<Store>,
    pub goods: Option<Seq<Goods>>,
}

impl OpFilter {
    /// Whether the operation is dated inside `[from, till]` and is on the
    /// store and on one of the goods asked for.
    pub open spec fn admits(self, o: OpView) -> bool {
        &&& self.from <= o.date <= self.till
        &&& (self.store matches Some(s) ==> o.store == s)
        &&& (self.goods matches Some(g) ==> g.contains(o.goods))
    }
}

/// The admitted operations of `s`, in key order.
pub open spec fn ops_where(s: Seq<OpEntryView>, f: OpFilter) -> Seq<OpView>
    decreases s.len(),
{
    if s.len() == 0 {
        Seq::empty()
    } else if f.admits(s.last().op) {
        ops_where(s.drop_last(), f).push(s.last().op)
    } else {
        ops_where(s.drop_last(), f)
    }
}

/// The keys of the entries.
pub open spec fn keys(s: Seq<OpEntryView>) -> Seq<Seq<u8>> {
    Seq::new(s.len(), |i: int| s[i].key)
}

/// What holds of the keys holds of the entries.
pub proof fn lemma_keys(s: Seq<OpEntryView>, key: Seq<u8>)
    ensures
        sorted(s) <==> ascending_keys(keys(s)),
        rank(s, key) == keys_before(keys(s), key),
        has_key(s, key) <==> keys(s).contains(key),
    decreases s.len(),
{
    let ks = keys(s);
    if s.len() > 0 {
        assert(keys(s.drop_last()) =~= ks.drop_last());
        lemma_keys(s.drop_last(), key);
    }
    if sorted(s) {
        assert forall|i: int, j: int| 0 <= i < j < ks.len() implies lex_lt(
            #[trigger] ks[i],
            #[trigger] ks[j],
        ) by {
            assert(lex_lt(s[i].key, s[j].key));
        }
    }
    if ascending_keys(ks) {
        assert forall|i: int, j: int| 0 <= i < j < s.len() implies lex_lt(
            #[trigger] s[i].key,
            #[trigger] s[j].key,
        ) by {
            assert(lex_lt(ks[i], ks[j]));
        }
    }
    if has_key(s, key) {
        let i = choose|i: int| 0 <= i < s.len() && #[trigger] s[i].key == key;
        assert(ks[i] == key);
    }
    if ks.contains(key) {
        let i = choose|i: int| 0 <= i < ks.len() && ks[i] == key;
        assert(s[i].key == key);
    }
}

/// In a sorted sequence the keys before `key` are exactly those in front of the
/// place that a search for `key` finds.
pub proof fn lemma_rank_is_position(s: Seq<OpEntryView>, key: Seq<u8>, p: int)
    requires
        0 <= p <= s.len(),
        forall|j: int| 0 <= j < p ==> lex_lt(#[trigger] s[j].key, key),
        forall|j: int| p <= j < s.len() ==> !lex_lt(#[trigger] s[j].key, key),
    ensures
        rank(s, key) == p,
{
    let ks = keys(s);
    lemma_keys(s, key);
    assert forall|j: int| 0 <= j < p implies lex_lt(#[trigger] ks[j], key) by {
        assert(lex_lt(s[j].key, key));
    }
    assert forall|j: int| p <= j < ks.len() implies !lex_lt(#[trigger] ks[j], key) by {
        assert(!lex_lt(s[j].key, key));
    }
    lemma_before_is_position(ks, key, p);
}

/// In a sorted sequence, a stored key stands at its rank, and a key that is
/// not stored is not at its rank.
pub proof fn lemma_rank_finds(s: Seq<OpEntryView>, key: Seq<u8>)
    requires
        sorted(s),
    ensures
        0 <= rank(s, key) <= s.len(),
        forall|j: int| 0 <= j < rank(s, key) ==> lex_lt(#[trigger] s[j].key, key),
        forall|j: int| rank(s, key) <= j < s.len() ==> !lex_lt(#[trigger] s[j].key, key),
        has_key(s, key) <==> (rank(s, key) < s.len() && s[rank(s, key)].key == key),
{
    let ks = keys(s);
    lemma_keys(s, key);
    lemma_before_finds(ks, key);
    assert forall|j: int| 0 <= j < rank(s, key) implies lex_lt(#[trigger] s[j].key, key) by {
        assert(lex_lt(ks[j], key));
    }
    assert forall|j: int| rank(s, key) <= j < s.len() implies !lex_lt(
        #[trigger] s[j].key,
        key,
    ) by {
        assert(!lex_lt(ks[j], key));
    }
}

/// Entries that the filter does not admit add nothing to a scan.
pub proof fn lemma_ops_where_skip(s: Seq<OpEntryView>, f: OpFilter, a: int, b: int)
    requires
        0 <= a <= b <= s.len(),
        forall|j: int| a <= j < b ==> !f.admits(#[trigger] s[j].op),
    ensures
        ops_where(s.take(b), f) == ops_where(s.take(a), f),
    decreases b - a,
{
    if a < b {
        assert(s.take(b).drop_last() =~= s.take(b - 1));
        assert(s.take(b).last() == s[b - 1]);
        lemma_ops_where_skip(s, f, a, b - 1);
    }
}

/// Putting an entry at the place of its key keeps the order.
pub proof fn lemma_insert_keeps(s: Seq<OpEntryView>, p: int, e: OpEntryView)
    requires
        sorted(s),
        keyed(s),
        e.key == key_of(e.op),
        p == rank(s, e.key),
        !has_key(s, e.key),
    ensures
        0 <= p <= s.len(),
        sorted(s.insert(p, e)),
        keyed(s.insert(p, e)),
{
    let t = s.insert(p, e);
    lemma_keys(s, e.key);
    lemma_insert_ascending(keys(s), e.key);
    assert(keys(t) =~= keys(s).insert(p, e.key));
    lemma_keys(t, e.key);
    assert forall|i: int| 0 <= i < t.len() implies (#[trigger] t[i]).key == key_of(t[i].op) by {
        let i0 = if i < p {
            i
        } else {
            i - 1
        };
        if i != p {
            assert(t[i] == s[i0]);
        }
    }
}

/// Taking an entry out keeps the order, and its key is stored no more.
pub proof fn lemma_remove_keeps(s: Seq<OpEntryView>, p: int)
    requires
        sorted(s),
        keyed(s),
        0 <= p < s.len(),
    ensures
        sorted(s.remove(p)),
        keyed(s.remove(p)),
        !has_key(s.remove(p), s[p].key),
        rank(s.remove(p), s[p].key) == p,
        rank(s, s[p].key) == p,
{
    let t = s.remove(p);
    let key = s[p].key;
    lemma_keys(s, key);
    lemma_remove_ascending(keys(s), p);
    assert(keys(t) =~= keys(s).remove(p));
    lemma_keys(t, key);
    assert forall|i: int| 0 <= i < t.len() implies (#[trigger] t[i]).key == key_of(t[i].op) by {
        let i0 = if i < p {
            i
        } else {
            i + 1
        };
        assert(t[i] == s[i0]);
    }
}

/// Changing the balance of an entry keeps the order.
pub proof fn lemma_update_keeps(s: Seq<OpEntryView>, p: int, balance: BalanceForGoods)
    requires
        sorted(s),
        keyed(s),
        0 <= p < s.len(),
    ensures
        sorted(s.update(p, OpEntryView { balance, ..s[p] })),
        keyed(s.update(p, OpEntryView { balance, ..s[p] })),
{
    let t = s.update(p, OpEntryView { balance, ..s[p] });
    assert forall|i: int, j: int| 0 <= i < j < t.len() implies lex_lt(
        #[trigger] t[i].key,
        #[trigger] t[j].key,
    ) by {
        assert(t[i].key == s[i].key && t[j].key == s[j].key);
    }
    assert forall|i: int| 0 <= i < t.len() implies (#[trigger] t[i]).key == key_of(t[i].op) by {
        assert(t[i].key == s[i].key && t[i].op == s[i].op);
    }
}

/// The primary ordered topology.
#[derive(Debug)]
pub struct DateTypeStoreBatchId {
    entries: Vec<OpEntry>,
}

impl View for DateTypeStoreBatchId {
    type V = Seq<OpEntryView>;

    closed spec fn view(&self) -> Seq<OpEntryView> {
        Seq::new(self.entries@.len(), |i: int| self.entries@[i]@)
    }
}

impl DateTypeStoreBatchId {
    /// Keys ascend strictly, and every entry stands under the key of its
    /// operation.
    pub open spec fn wf(&self) -> bool {
        sorted(self@) && keyed(self@)
    }

    /// An empty topology.
    pub fn new() -> (t: Self)
        ensures
            t@ == Seq::<OpEntryView>::empty(),
            t.wf(),
    {
        let t = DateTypeStoreBatchId { entries: Vec::new() };
        assert(t@ =~= Seq::<OpEntryView>::empty());
        t
    }

    /// The topology that holds the records, which come in key order as they
    /// are read from a column family. Records out of key order, or two under
    /// one key, are refused as corrupt.
    pub fn load(records: &Vec<(Op, BalanceForGoods)>) -> (r: Result<Self, WHError>)
        ensures
            r is Ok <==> sorted(entries_of(records@)),
            r matches Ok(t) ==> t@ == entries_of(records@) && t.wf(),
            r matches Err(e) ==> e.kind == ErrorKind::Corrupt,
    {
        let ghost want = entries_of(records@);
        let mut entries: Vec<OpEntry> = Vec::new();
        let mut i: usize = 0;
        while i < records.len()
            invariant
                i <= records@.len(),
                want == entries_of(records@),
                entries@.len() == i,
                forall|j: int| 0 <= j < i ==> (#[trigger] entries@[j])@ == want[j],
                forall|a: int, b: int|
                    0 <= a < b < i ==> lex_lt(#[trigger] want[a].key, #[trigger] want[b].key),
            decreases records@.len() - i,
        {
            let op: &Op = &records[i].0;
            let key: Vec<u8> = build_key(
                op.date,
                op.op_order(),
                op.store,
                op.goods,
                op.batch,
                op.id,
                if op.is_dependent {
                    1
                } else {
                    0
                },
            );
            assert(key@ == want[i as int].key);
            if i > 0 {
                assert(entries@[i - 1]@ == want[i - 1]);
                if !bytes_lt(&entries[i - 1].key, &key) {
                    assert(!lex_lt(want[i - 1].key, want[i as int].key));
                    return Err(WHError::new(ErrorKind::Corrupt, "operations out of key order"));
                }
                proof {
                    assert forall|a: int| 0 <= a < i implies lex_lt(
                        #[trigger] want[a].key,
                        want[i as int].key,
                    ) by {
                        if a < i - 1 {
                            lemma_lex_lt_transitive(
                                want[a].key,
                                want[i - 1].key,
                                want[i as int].key,
                            );
                        }
                    }
                }
            }
            entries.push(OpEntry { key, op: op.duplicate(), balance: records[i].1 });
            i = i + 1;
        }
        let t = DateTypeStoreBatchId { entries };
        assert(t@ =~= want);
        Ok(t)
    }

    /// A copy of the topology.
    pub fn duplicate(&self) -> (t: Self)
        ensures
            t@ == self@,
    {
        let mut entries: Vec<OpEntry> = Vec::new();
        let mut i: usize = 0;
        while i < self.entries.len()
            invariant
                i <= self.entries@.len(),
                entries@.len() == i,
                forall|j: int| 0 <= j < i ==> (#[trigger] entries@[j])@ == self.entries@[j]@,
            decreases self.entries@.len() - i,
        {
            let e: &OpEntry = &self.entries[i];
            entries.push(OpEntry { key: copy_bytes(&e.key), op: e.op.duplicate(), balance: e.balance });
            i = i + 1;
        }
        let t = DateTypeStoreBatchId { entries };
        assert(t@ =~= self@);
        t
    }

    /// The name of the column family.
    pub fn cf_name() -> (name: &'static str)
        ensures
            name@ == "cf_ops_date_type_store_batch_id"@,
    {
        "cf_ops_date_type_store_batch_id"
    }

    /// How many operations are stored.
    pub fn len(&self) -> (n: usize)
        ensures
            n == self@.len(),
    {
        self.entries.len()
    }

    /// The key of an operation.
    pub fn key(&self, op: &Op) -> (key: Vec<u8>)
        ensures
            key@ == key_of(op@),
    {
        self.key_build(
            op.store,
            op.goods,
            op.batch,
            op.date,
            op.op_order(),
            op.id,
            op.is_dependent,
        )
    }

    /// Builds a key: `ts | op_order | store | goods | batch | op.id | dependent`.
    pub fn key_build(
        &self,
        store: Store,
        goods: Goods,
        batch: Batch,
        date: u64,
        op_order: u8,
        op_id: u128,
        is_dependent: bool,
    ) -> (key: Vec<u8>)
        ensures
            key@ == key_bytes(
                KeyParts {
                    date,
                    order: op_order,
                    store,
                    goods,
                    batch_date: batch.date,
                    batch_id: batch.id,
                    id: op_id,
                    dep: dep_byte(is_dependent),
                },
            ),
    {
        let dep: u8 = if is_dependent {
            1
        } else {
            0
        };
        build_key(date, op_order, store, goods, batch, op_id, dep)
    }

    /// The entry at a position.
    pub fn entry(&self, i: usize) -> (e: &OpEntry)
        requires
            i < self@.len(),
        ensures
            e@ == self@[i as int],
    {
        &self.entries[i]
    }

    /// The place of `key` among the stored keys: the number of keys before it.
    pub fn position(&self, key: &Vec<u8>) -> (p: usize)
        requires
            self.wf(),
        ensures
            p == rank(self@, key@),
            p <= self@.len(),
            forall|j: int| 0 <= j < p ==> lex_lt(#[trigger] self@[j].key, key@),
            forall|j: int| p <= j < self@.len() ==> !lex_lt(#[trigger] self@[j].key, key@),
            has_key(self@, key@) <==> (p < self@.len() && self@[p as int].key == key@),
    {
        let mut lo: usize = 0;
        let mut hi: usize = self.entries.len();
        while lo < hi
            invariant
                self.wf(),
                lo <= hi <= self@.len(),
                self@.len() == self.entries@.len(),
                forall|j: int| 0 <= j < lo ==> lex_lt(#[trigger] self@[j].key, key@),
                forall|j: int| hi <= j < self@.len() ==> !lex_lt(#[trigger] self@[j].key, key@),
            decreases hi - lo,
        {
            let mid: usize = lo + (hi - lo) / 2;
            assert(self@[mid as int] == self.entries@[mid as int]@);
            if bytes_lt(&self.entries[mid].key, key) {
                proof {
                    assert forall|j: int| 0 <= j < mid + 1 implies lex_lt(
                        #[trigger] self@[j].key,
                        key@,
                    ) by {
                        if j < mid {
                            lemma_lex_lt_transitive(self@[j].key, self@[mid as int].key, key@);
                        }
                    }
                }
                lo = mid + 1;
            } else {
                proof {
                    assert forall|j: int| mid <= j < self@.len() implies !lex_lt(
                        #[trigger] self@[j].key,
                        key@,
                    ) by {
                        if j > mid && lex_lt(self@[j].key, key@) {
                            lemma_lex_lt_transitive(self@[mid as int].key, self@[j].key, key@);
                        }
                    }
                }
                hi = mid;
            }
        }
        proof {
            lemma_rank_is_position(self@, key@, lo as int);
            lemma_rank_finds(self@, key@);
        }
        lo
    }

    /// Whether an entry stands at `p` under `key`.
    pub fn holds_at(&self, p: usize, key: &Vec<u8>) -> (r: bool)
        ensures
            r == (p < self@.len() && self@[p as int].key == key@),
    {
        if p < self.entries.len() {
            assert(self@[p as int] == self.entries@[p as int]@);
            bytes_eq(&self.entries[p].key, key)
        } else {
            false
        }
    }

    /// Stores a new entry at its place.
    pub fn insert_at(&mut self, p: usize, op: Op, balance: BalanceForGoods)
        requires
            old(self).wf(),
            p == rank(old(self)@, key_of(op@)),
            !has_key(old(self)@, key_of(op@)),
        ensures
            final(self).wf(),
            final(self)@ == old(self)@.insert(
                p as int,
                OpEntryView { key: key_of(op@), op: op@, balance },
            ),
    {
        let key: Vec<u8> = self.key(&op);
        let ghost before = self@;
        let ghost e = OpEntryView { key: key@, op: op@, balance };
        proof {
            lemma_insert_keeps(before, p as int, e);
        }
        self.entries.insert(p, OpEntry { key, op, balance });
        assert(self@ =~= before.insert(p as int, e));
    }

    /// Takes the entry at `p` out.
    pub fn remove_at(&mut self, p: usize) -> (e: OpEntry)
        requires
            old(self).wf(),
            p < old(self)@.len(),
        ensures
            final(self).wf(),
            final(self)@ == old(self)@.remove(p as int),
            e@ == old(self)@[p as int],
    {
        let ghost before = self@;
        assert(before[p as int] == self.entries@[p as int]@);
        proof {
            lemma_remove_keeps(before, p as int);
        }
        let e: OpEntry = self.entries.remove(p);
        assert(self@ =~= before.remove(p as int));
        e
    }

    /// Replaces the balance stored with the entry at `p`.
    pub fn set_balance_at(&mut self, p: usize, balance: BalanceForGoods)
        requires
            old(self).wf(),
            p < old(self)@.len(),
        ensures
            final(self).wf(),
            final(self)@ == old(self)@.update(
                p as int,
                OpEntryView { balance, ..old(self)@[p as int] },
            ),
    {
        let ghost before = self@;
        assert(before[p as int] == self.entries@[p as int]@);
        proof {
            lemma_update_keeps(before, p as int, balance);
        }
        let old_entry: OpEntry = self.entries.remove(p);
        self.entries.insert(p, OpEntry { key: old_entry.key, op: old_entry.op, balance });
        assert(self@ =~= before.update(p as int, OpEntryView { balance, ..before[p as int] }));
    }

    /// Stores the operation with the balance after it, in place of what stood
    /// under its key, and returns what stood there. A zero quantity is refused
    /// on an operation that was not generated.
    pub fn put(&mut self, op: &Op, balance: &BalanceForGoods) -> (r: Result<
        Option<(Op, BalanceForGoods)>,
        WHError,
    >)
        requires
            old(self).wf(),
        ensures
            final(self).wf(),
            r is Err <==> (op.op.qty_spec() == 0 && !op.is_dependent),
            r matches Err(e) ==> e.kind == ErrorKind::Invalid && final(self)@ == old(self)@,
            r matches Ok(prev) ==> {
                let p = rank(old(self)@, key_of(op@));
                let e = OpEntryView { key: key_of(op@), op: op@, balance: *balance };
                &&& prev is Some <==> has_key(old(self)@, key_of(op@))
                &&& prev matches Some(was) ==> was.0@ == old(self)@[p].op
                    && was.1 == old(self)@[p].balance && final(self)@ == old(self)@.update(p, e)
                &&& prev is None ==> final(self)@ == old(self)@.insert(p, e)
            },
    {
        if op.op.is_zero() && !op.is_dependent {
            return Err(WHError::new(ErrorKind::Invalid, "operation without quantity"));
        }
        let key: Vec<u8> = self.key(op);
        let p: usize = self.position(&key);
        if self.holds_at(p, &key) {
            proof {
                lemma_remove_keeps(self@, p as int);
            }
            let was: OpEntry = self.remove_at(p);
            self.insert_at(p, op.duplicate(), *balance);
            proof {
                let e = OpEntryView { key: key_of(op@), op: op@, balance: *balance };
                assert(self@ =~= old(self)@.update(p as int, e));
            }
            Ok(Some((was.op, was.balance)))
        } else {
            self.insert_at(p, op.duplicate(), *balance);
            Ok(None)
        }
    }

    /// The stored operation under the key of `op`, with the balance after it.
    pub fn get(&self, op: &Op) -> (r: Option<(Op, BalanceForGoods)>)
        requires
            self.wf(),
        ensures
            r is Some <==> has_key(self@, key_of(op@)),
            r matches Some(found) ==> {
                let p = rank(self@, key_of(op@));
                found.0@ == self@[p].op && found.1 == self@[p].balance
            },
    {
        let key: Vec<u8> = self.key(op);
        let p: usize = self.position(&key);
        if self.holds_at(p, &key) {
            let e: &OpEntry = self.entry(p);
            Some((e.op.duplicate(), e.balance))
        } else {
            None
        }
    }

    /// Removes what is stored under the key of `op`.
    pub fn del(&mut self, op: &Op) -> (r: Result<(), WHError>)
        requires
            old(self).wf(),
        ensures
            final(self).wf(),
            r is Ok <==> has_key(old(self)@, key_of(op@)),
            r is Ok ==> final(self)@ == old(self)@.remove(rank(old(self)@, key_of(op@))),
            r matches Err(e) ==> e.kind == ErrorKind::NotFound && final(self)@ == old(self)@,
    {
        let key: Vec<u8> = self.key(op);
        let p: usize = self.position(&key);
        if self.holds_at(p, &key) {
            let _ = self.remove_at(p);
            Ok(())
        } else {
            Err(WHError::new(ErrorKind::NotFound, "no such operation"))
        }
    }

    /// Whether the goods of the key are among those listed.
    fn goods_listed(key: &Vec<u8>, byte_goods: &Vec<Vec<u8>>, Ghost(goods): Ghost<Seq<Goods>>, Ghost(o): Ghost<OpView>) -> (r: bool)
        requires
            key@ == key_of(o),
            byte_goods@.len() == goods.len(),
            forall|i: int| 0 <= i < goods.len() ==> (#[trigger] byte_goods@[i])@ == be_bytes(
                goods[i] as nat,
                16,
            ),
        ensures
            r == goods.contains(o.goods),
    {
        let mut i: usize = 0;
        proof {
            lemma_key_slices(parts_of(o));
            lemma_key_len(parts_of(o));
            lemma_pow256_values();
        }
        while i < byte_goods.len()
            invariant
                i <= byte_goods@.len(),
                key@ == key_of(o),
                key@.len() == 82,
                key@.subrange(25, 41) == be_bytes(o.goods as nat, 16),
                byte_goods@.len() == goods.len(),
                forall|i: int| 0 <= i < goods.len() ==>
                    (#[trigger] byte_goods@[i])@ == be_bytes(goods[i] as nat, 16),
                forall|j: int| 0 <= j < i ==> goods[j] != o.goods,
                pow256(16) == 0x1_0000_0000_0000_0000_0000_0000_0000_0000,
            decreases byte_goods@.len() - i,
        {
            proof {
                lemma_be_bytes_len(goods[i as int] as nat, 16);
                lemma_be_bytes_order(goods[i as int] as nat, o.goods as nat, 16);
            }
            if range_eq(key, 25, &byte_goods[i]) {
                assert(goods[i as int] == o.goods);
                return true;
            }
            i = i + 1;
        }
        false
    }

    /// Walks the keys in `[lo, hi)` and keeps the operations whose key holds
    /// the store and goods asked for at their fixed offsets.
    fn scan(
        &self,
        lo: &Vec<u8>,
        hi: &Vec<u8>,
        store: Option<Store>,
        goods: Option<&Vec<Goods>>,
        Ghost(f): Ghost<OpFilter>,
        Ghost(lo_parts): Ghost<KeyParts>,
        Ghost(hi_parts): Ghost<KeyParts>,
    ) -> (r: Vec<Op>)
        requires
            self.wf(),
            lo@ == key_bytes(lo_parts),
            hi@ == key_bytes(hi_parts),
            f.store == store,
            f.goods == (match goods {
                Some(g) => Some(g@),
                None => None,
            }),
            forall|o: OpView| #[trigger]
                f.admits(o) ==> !parts_lt(parts_of(o), lo_parts) && parts_lt(parts_of(o), hi_parts),
            forall|o: OpView|
                !parts_lt(#[trigger] parts_of(o), lo_parts) && parts_lt(parts_of(o), hi_parts)
                    ==> f.from <= o.date <= f.till,
        ensures
            op_views(r@) == ops_where(self@, f),
    {
        let first: usize = self.position(lo);
        let last: usize = self.position(hi);
        let mut expected_store: Vec<u8> = Vec::new();
        if let Some(s) = store {
            push_id(&mut expected_store, s);
        }
        let mut byte_goods: Vec<Vec<u8>> = Vec::new();
        if let Some(g) = goods {
            let mut k: usize = 0;
            while k < g.len()
                invariant
                    k <= g@.len(),
                    byte_goods@.len() == k,
                    forall|i: int| 0 <= i < k ==> (#[trigger] byte_goods@[i])@ == be_bytes(
                        g@[i] as nat,
                        16,
                    ),
                decreases g@.len() - k,
            {
                let mut b: Vec<u8> = Vec::new();
                push_id(&mut b, g[k]);
                assert(b@ =~= be_bytes(g@[k as int] as nat, 16));
                byte_goods.push(b);
                k = k + 1;
            }
        }
        let mut res: Vec<Op> = Vec::new();
        let mut i: usize = first;
        proof {
            assert forall|j: int| 0 <= j < first implies !f.admits(#[trigger] self@[j].op) by {
                lemma_key_order(parts_of(self@[j].op), lo_parts);
            }
            lemma_ops_where_skip(self@, f, 0, first as int);
            assert(self@.take(0) =~= Seq::<OpEntryView>::empty());
            assert(op_views(res@) =~= ops_where(self@.take(first as int), f));
            lemma_pow256_values();
        }
        while i < last
            invariant
                self.wf(),
                first <= i,
                last <= self@.len(),
                i <= self@.len(),
                last == rank(self@, hi@),
                forall|j: int| 0 <= j < last ==> lex_lt(#[trigger] self@[j].key, hi@),
                forall|j: int| first <= j < self@.len() ==> !lex_lt(#[trigger] self@[j].key, lo@),
                lo@ == key_bytes(lo_parts),
                hi@ == key_bytes(hi_parts),
                f.store == store,
                f.goods == (match goods {
                    Some(g) => Some(g@),
                    None => None,
                }),
                store is Some ==> expected_store@ == be_bytes(store.unwrap() as nat, 16),
                goods matches Some(g) ==> byte_goods@.len() == g@.len() && forall|i: int|
                    0 <= i < g@.len() ==> (#[trigger] byte_goods@[i])@ == be_bytes(
                        g@[i] as nat,
                        16,
                    ),
                forall|o: OpView|
                    !parts_lt(#[trigger] parts_of(o), lo_parts) && parts_lt(parts_of(o), hi_parts)
                        ==> f.from <= o.date <= f.till,
                op_views(res@) == ops_where(self@.take(i as int), f),
                pow256(16) == 0x1_0000_0000_0000_0000_0000_0000_0000_0000,
            decreases last - i,
        {
            let e: &OpEntry = self.entry(i);
            let ghost o = self@[i as int].op;
            proof {
                assert(self@[i as int].key == key_of(o));
                lemma_key_order(parts_of(o), lo_parts);
                lemma_key_order(parts_of(o), hi_parts);
                lemma_key_slices(parts_of(o));
                lemma_key_len(parts_of(o));
                assert(f.from <= o.date <= f.till);
            }
            let store_ok: bool = match store {
                Some(s) => {
                    proof {
                        lemma_be_bytes_len(s as nat, 16);
                        lemma_be_bytes_order(s as nat, o.store as nat, 16);
                    }
                    range_eq(&e.key, 9, &expected_store)
                },
                None => true,
            };
            let goods_ok: bool = match goods {
                Some(g) => DateTypeStoreBatchId::goods_listed(
                    &e.key,
                    &byte_goods,
                    Ghost(g@),
                    Ghost(o),
                ),
                None => true,
            };
            proof {
                assert(self@.take(i + 1).drop_last() =~= self@.take(i as int));
                assert(self@.take(i + 1).last() == self@[i as int]);
                assert((store_ok && goods_ok) == f.admits(o));
            }
            if store_ok && goods_ok {
                res.push(e.op.duplicate());
                assert(op_views(res@) =~= ops_where(self@.take(i as int), f).push(o));
            }
            i = i + 1;
        }
        proof {
            assert forall|j: int| i <= j < self@.len() implies !f.admits(#[trigger] self@[j].op) by {
                lemma_key_order(parts_of(self@[j].op), hi_parts);
                lemma_key_order(parts_of(self@[j].op), lo_parts);
                if j < last {
                    assert(i >= last);
                }
            }
            lemma_ops_where_skip(self@, f, i as int, self@.len() as int);
            assert(self@.take(self@.len() as int) =~= self@);
        }
        res
    }

    /// The operations of one store dated inside `[from_date, till_date]`, in
    /// key order.
    pub fn get_ops_for_storage(&self, storage: Store, from_date: u64, till_date: u64) -> (r: Vec<Op>)
        requires
            self.wf(),
        ensures
            op_views(r@) == ops_where(
                self@,
                OpFilter { from: from_date, till: till_date, store: Some(storage), goods: None },
            ),
    {
        let lo: Vec<u8> = build_key(
            from_date,
            0,
            UUID_NIL,
            UUID_NIL,
            Batch { id: UUID_NIL, date: 0 },
            UUID_NIL,
            0,
        );
        let hi: Vec<u8> = build_key(
            till_date,
            0xff,
            UUID_MAX,
            UUID_MAX,
            Batch { id: UUID_MAX, date: u64::MAX },
            UUID_MAX,
            0xff,
        );
        let ghost f = OpFilter { from: from_date, till: till_date, store: Some(storage), goods: None };
        self.scan(
            &lo,
            &hi,
            Some(storage),
            None,
            Ghost(f),
            Ghost(lowest(from_date, UUID_NIL, UUID_NIL)),
            Ghost(highest(till_date, UUID_MAX, UUID_MAX)),
        )
    }

    /// Every operation dated inside `[from_date, till_date]`, in key order.
    pub fn get_ops_for_all(&self, from_date: u64, till_date: u64) -> (r: Vec<Op>)
        requires
            self.wf(),
        ensures
            op_views(r@) == ops_where(
                self@,
                OpFilter { from: from_date, till: till_date, store: None, goods: None },
            ),
    {
        let lo: Vec<u8> = build_key(
            from_date,
            0,
            UUID_NIL,
            UUID_NIL,
            Batch { id: UUID_NIL, date: 0 },
            UUID_NIL,
            0,
        );
        let hi: Vec<u8> = build_key(
            till_date,
            0xff,
            UUID_MAX,
            UUID_MAX,
            Batch { id: UUID_MAX, date: u64::MAX },
            UUID_MAX,
            0xff,
        );
        let ghost f = OpFilter { from: from_date, till: till_date, store: None, goods: None };
        self.scan(
            &lo,
            &hi,
            None,
            None,
            Ghost(f),
            Ghost(lowest(from_date, UUID_NIL, UUID_NIL)),
            Ghost(highest(till_date, UUID_MAX, UUID_MAX)),
        )
    }

    /// The operations on one kind of goods in one store dated inside
    /// `[from_date, till_date]`, in key order.
    pub fn get_ops_for_one_goods(
        &self,
        store: Store,
        goods: Goods,
        from_date: u64,
        till_date: u64,
    ) -> (r: Vec<Op>)
        requires
            self.wf(),
        ensures
            op_views(r@) == ops_where(
                self@,
                OpFilter {
                    from: from_date,
                    till: till_date,
                    store: Some(store),
                    goods: Some(seq![goods]),
                },
            ),
    {
        let lo: Vec<u8> = build_key(
            from_date,
            0,
            store,
            goods,
            Batch { id: UUID_NIL, date: 0 },
            UUID_NIL,
            0,
        );
        let hi: Vec<u8> = build_key(
            till_date,
            0xff,
            store,
            goods,
            Batch { id: UUID_MAX, date: u64::MAX },
            UUID_MAX,
            0xff,
        );
        let mut listed: Vec<Goods> = Vec::new();
        listed.push(goods);
        assert(listed@ =~= seq![goods]);
        let ghost f = OpFilter {
            from: from_date,
            till: till_date,
            store: Some(store),
            goods: Some(seq![goods]),
        };
        proof {
            assert forall|o: OpView| #[trigger] f.admits(o) implies o.goods == goods by {
                let i = choose|i: int| 0 <= i < seq![goods].len() && seq![goods][i] == o.goods;
            }
        }
        self.scan(
            &lo,
            &hi,
            Some(store),
            Some(&listed),
            Ghost(f),
            Ghost(lowest(from_date, store, goods)),
            Ghost(highest(till_date, store, goods)),
        )
    }

    /// The operations on any of the listed goods dated inside
    /// `[from_date, till_date]`, in key order.
    pub fn get_ops_for_many_goods(&self, goods: &Vec<Goods>, from_date: u64, till_date: u64) -> (r:
        Vec<Op>)
        requires
            self.wf(),
        ensures
            op_views(r@) == ops_where(
                self@,
                OpFilter { from: from_date, till: till_date, store: None, goods: Some(goods@) },
            ),
    {
        let lo: Vec<u8> = build_key(
            from_date,
            0,
            UUID_NIL,
            UUID_NIL,
            Batch { id: UUID_NIL, date: 0 },
            UUID_NIL,
            0,
        );
        let hi: Vec<u8> = build_key(
            till_date,
            0xff,
            UUID_MAX,
            UUID_MAX,
            Batch { id: UUID_MAX, date: u64::MAX },
            UUID_MAX,
            0xff,
        );
        let ghost f = OpFilter { from: from_date, till: till_date, store: None, goods: Some(goods@) };
        self.scan(
            &lo,
            &hi,
            None,
            Some(goods),
            Ghost(f),
            Ghost(lowest(from_date, UUID_NIL, UUID_NIL)),
            Ghost(highest(till_date, UUID_MAX, UUID_MAX)),
        )
    }
}

} // verus!
