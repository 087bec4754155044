//! The checkpoint topology: for a store, goods and batch, the balance at a
//! month boundary, and the latest boundary that was written.

use crate::bytes::{bytes_eq, bytes_lt, copy_bytes, lemma_lex_lt_transitive, lex_lt};
use crate::checkpoints::check_key::{
    build_check_key, check_key_bytes, check_key_of, check_parts_of, key_to_data,
    lemma_check_key_order, CHECK_KEY_LEN, CheckParts,
};
use crate::elements::{Amount, Balance, BalanceDelta, BalanceForGoods, Batch, Goods, Store};
use crate::error::{ErrorKind, WHError};
use crate::ids::UUID_NIL;
use crate::time::{checkpoint_date, first_day_current_month, month_start, next_checkpoint};
use crate::ordered::{
    ascending_keys, keys_before, lemma_before_finds, lemma_before_is_position,
    lemma_insert_ascending, lemma_remove_ascending,
};
use std::collections::HashMap;
use vstd::prelude::*;

verus! {

/// One stored checkpoint.
#[derive(Debug)]
pub struct CheckEntry {
    pub key: Vec<u8>,
    pub balance: Balance,
}

/// What a [`CheckEntry`] holds, as a mathematical value.
pub struct CheckEntryView {
    pub key: Seq<u8>,
    pub balance: Balance,
}

impl View for CheckEntry {
    type V = CheckEntryView;

    open spec fn view(&self) -> CheckEntryView {
        CheckEntryView { key: self.key@, balance: self.balance }
    }
}

/// Keys strictly ascending.
pub open spec fn check_sorted(s: Seq<CheckEntryView>) -> bool {
    forall|i: int, j: int| 0 <= i < j < s.len() ==> lex_lt(#[trigger] s[i].key, #[trigger] s[j].key)
}

/// Every entry stands under the key of its fields.
pub open spec fn check_keyed(s: Seq<CheckEntryView>) -> bool {
    forall|i: int| 0 <= i < s.len() ==> (#[trigger] s[i]).key == check_key_of(s[i].balance)
}

/// How many keys of `s` come strictly before `key`.
pub open spec fn check_rank(s: Seq<CheckEntryView>, key: Seq<u8>) -> int
    decreases s.len(),
{
    if s.len() == 0 {
        0
    } else {
        check_rank(s.drop_last(), key) + if lex_lt(s.last().key, key) {
            1int
        } else {
            0int
        }
    }
}

/// Whether `key` is stored.
pub open spec fn check_has_key(s: Seq<CheckEntryView>, key: Seq<u8>) -> bool {
    exists|i: int| 0 <= i < s.len() && #[trigger] s[i].key == key
}

/// The keys of the entries.
pub open spec fn check_keys(s: Seq<CheckEntryView>) -> Seq<Seq<u8>> {
    Seq::new(s.len(), |i: int| s[i].key)
}

/// What holds of the keys holds of the entries.
pub proof fn lemma_check_keys(s: Seq<CheckEntryView>, key: Seq<u8>)
    ensures
        check_sorted(s) <==> ascending_keys(check_keys(s)),
        check_rank(s, key) == keys_before(check_keys(s), key),
        check_has_key(s, key) <==> check_keys(s).contains(key),
    decreases s.len(),
{
    let ks = check_keys(s);
    if s.len() > 0 {
        assert(check_keys(s.drop_last()) =~= ks.drop_last());
        lemma_check_keys(s.drop_last(), key);
    }
    if check_sorted(s) {
        assert forall|i: int, j: int| 0 <= i < j < ks.len() implies lex_lt(
            #[trigger] ks[i],
            #[trigger] ks[j],
        ) by {
            assert(lex_lt(s[i].key, s[j].key));
        }
    }
    if ascending_keys(ks) {
        assert forall|i: int, j: int| 0 <= i < j < s.len() implies lex_lt(
            #[trigger] s[i].key,
            #[trigger] s[j].key,
        ) by {
            assert(lex_lt(ks[i], ks[j]));
        }
    }
    if check_has_key(s, key) {
        let i = choose|i: int| 0 <= i < s.len() && #[trigger] s[i].key == key;
        assert(ks[i] == key);
    }
    if ks.contains(key) {
        let i = choose|i: int| 0 <= i < ks.len() && ks[i] == key;
        assert(s[i].key == key);
    }
}

/// In a sorted sequence the keys before `key` are exactly those in front of the
/// place that a search for `key` finds.
pub proof fn lemma_check_rank_is_position(s: Seq<CheckEntryView>, key: Seq<u8>, p: int)
    requires
        0 <= p <= s.len(),
        forall|j: int| 0 <= j < p ==> lex_lt(#[trigger] s[j].key, key),
        forall|j: int| p <= j < s.len() ==> !lex_lt(#[trigger] s[j].key, key),
    ensures
        check_rank(s, key) == p,
{
    let ks = check_keys(s);
    lemma_check_keys(s, key);
    assert forall|j: int| 0 <= j < p implies lex_lt(#[trigger] ks[j], key) by {
        assert(lex_lt(s[j].key, key));
    }
    assert forall|j: int| p <= j < ks.len() implies !lex_lt(#[trigger] ks[j], key) by {
        assert(!lex_lt(s[j].key, key));
    }
    lemma_before_is_position(ks, key, p);
}

/// In a sorted sequence, a stored key stands at its rank, and a key that is
/// not stored is not at its rank.
pub proof fn lemma_check_rank_finds(s: Seq<CheckEntryView>, key: Seq<u8>)
    requires
        check_sorted(s),
    ensures
        0 <= check_rank(s, key) <= s.len(),
        forall|j: int| 0 <= j < check_rank(s, key) ==> lex_lt(#[trigger] s[j].key, key),
        forall|j: int| check_rank(s, key) <= j < s.len() ==> !lex_lt(#[trigger] s[j].key, key),
        check_has_key(s, key) <==>
            (check_rank(s, key) < s.len() && s[check_rank(s, key)].key == key),
{
    let ks = check_keys(s);
    lemma_check_keys(s, key);
    lemma_before_finds(ks, key);
    assert forall|j: int| 0 <= j < check_rank(s, key) implies lex_lt(#[trigger] s[j].key, key) by {
        assert(lex_lt(ks[j], key));
    }
    assert forall|j: int| check_rank(s, key) <= j < s.len() implies !lex_lt(
        #[trigger] s[j].key,
        key,
    ) by {
        assert(!lex_lt(ks[j], key));
    }
}

/// Putting an entry at the place of its key keeps the order.
pub proof fn lemma_check_insert_keeps(s: Seq<CheckEntryView>, p: int, e: CheckEntryView)
    requires
        check_sorted(s),
        check_keyed(s),
        e.key == check_key_of(e.balance),
        p == check_rank(s, e.key),
        !check_has_key(s, e.key),
    ensures
        0 <= p <= s.len(),
        check_sorted(s.insert(p, e)),
        check_keyed(s.insert(p, e)),
{
    let t = s.insert(p, e);
    lemma_check_keys(s, e.key);
    lemma_insert_ascending(check_keys(s), e.key);
    assert(check_keys(t) =~= check_keys(s).insert(p, e.key));
    lemma_check_keys(t, e.key);
    assert forall|i: int| 0 <= i < t.len() implies (#[trigger] t[i]).key
        == check_key_of(t[i].balance) by {
        let i0 = if i < p {
            i
        } else {
            i - 1
        };
        if i != p {
            assert(t[i] == s[i0]);
        }
    }
}

/// Taking an entry out keeps the order, and its key is stored no more.
pub proof fn lemma_check_remove_keeps(s: Seq<CheckEntryView>, p: int)
    requires
        check_sorted(s),
        check_keyed(s),
        0 <= p < s.len(),
    ensures
        check_sorted(s.remove(p)),
        check_keyed(s.remove(p)),
        !check_has_key(s.remove(p), s[p].key),
        check_rank(s.remove(p), s[p].key) == p,
        check_rank(s, s[p].key) == p,
{
    let t = s.remove(p);
    let key = s[p].key;
    lemma_check_keys(s, key);
    lemma_remove_ascending(check_keys(s), p);
    assert(check_keys(t) =~= check_keys(s).remove(p));
    lemma_check_keys(t, key);
    assert forall|i: int| 0 <= i < t.len() implies (#[trigger] t[i]).key
        == check_key_of(t[i].balance) by {
        let i0 = if i < p {
            i
        } else {
            i + 1
        };
        assert(t[i] == s[i0]);
    }
}

/// The entries that checkpoints make under their keys.
pub open spec fn check_entries_of(balances: Seq<Balance>) -> Seq<CheckEntryView> {
    Seq::new(
        balances.len(),
        |i: int| CheckEntryView { key: check_key_of(balances[i]), balance: balances[i] },
    )
}

/// What a scan of checkpoints asks for.
pub struct CheckFilter {
    /// The latest date that a checkpoint may bear.
    pub ceiling: u64,
    pub store: Option<Store>,
    pub goods: Option<Seq<Goods>>,
    pub batch: Option<Batch>,
}

impl CheckFilter {
    /// Whether the checkpoint is dated at or before the ceiling and is on the
    /// store, goods and batch asked for.
    pub open spec fn admits(self, b: Balance) -> bool {
        &&& b.date <= self.ceiling
        &&& (self.store matches Some(s) ==> b.store == s)
        &&& (self.goods matches Some(g) ==> g.contains(b.goods))
        &&& (self.batch matches Some(x) ==> b.batch == x)
    }
}

/// Whether two checkpoints are on the same store, goods and batch.
pub open spec fn same_place(a: Balance, b: Balance) -> bool {
    a.store == b.store && a.goods == b.goods && a.batch == b.batch
}

/// Whether a later checkpoint on the same store, goods and batch is dated at
/// or before `ceiling`.
pub open spec fn superseded(s: Seq<CheckEntryView>, ceiling: u64, i: int) -> bool {
    exists|j: int|
        i < j < s.len() && same_place((#[trigger] s[j]).balance, s[i].balance) && s[j].balance.date
            <= ceiling
}

/// Whether the checkpoint at `i` is the most recent one that the filter admits
/// for its store, goods and batch.
pub open spec fn chosen(s: Seq<CheckEntryView>, f: CheckFilter, i: int) -> bool {
    f.admits(s[i].balance) && !superseded(s, f.ceiling, i)
}

/// Among the first `n` checkpoints, in key order, the most recent ones that
/// the filter admits for their store, goods and batch.
pub open spec fn picked(s: Seq<CheckEntryView>, f: CheckFilter, n: int) -> Seq<Balance>
    decreases n,
{
    if n <= 0 {
        Seq::empty()
    } else if chosen(s, f, n - 1) {
        picked(s, f, n - 1).push(s[n - 1].balance)
    } else {
        picked(s, f, n - 1)
    }
}

/// Checkpoints that are not chosen add nothing.
pub proof fn lemma_picked_skip(s: Seq<CheckEntryView>, f: CheckFilter, a: int, b: int)
    requires
        0 <= a <= b <= s.len(),
        forall|j: int| a <= j < b ==> !f.admits(#[trigger] s[j].balance),
    ensures
        picked(s, f, b) == picked(s, f, a),
    decreases b - a,
{
    if a < b {
        lemma_picked_skip(s, f, a, b - 1);
    }
}

/// The checkpoint topology.
#[derive(Debug)]
pub struct CheckDateStoreBatch {
    entries: Vec<CheckEntry>,
    latest: u64,
}

/// What a [`CheckDateStoreBatch`] holds, as a mathematical value.
pub struct CheckpointsView {
    /// The checkpoints, in key order.
    pub entries: Seq<CheckEntryView>,
    /// The latest checkpoint date that was written; 0 where none was.
    pub latest: u64,
}

impl View for CheckDateStoreBatch {
    type V = CheckpointsView;

    closed spec fn view(&self) -> CheckpointsView {
        CheckpointsView {
            entries: Seq::new(self.entries@.len(), |i: int| self.entries@[i]@),
            latest: self.latest,
        }
    }
}

impl CheckDateStoreBatch {
    /// Keys ascend strictly, and every checkpoint stands under the key of its
    /// fields.
    pub open spec fn wf(&self) -> bool {
        check_sorted(self@.entries) && check_keyed(self@.entries)
    }

    /// An empty topology.
    pub fn new() -> (t: Self)
        ensures
            t@.entries == Seq::<CheckEntryView>::empty(),
            t@.latest == 0,
            t.wf(),
    {
        let t = CheckDateStoreBatch { entries: Vec::new(), latest: 0 };
        assert(t@.entries =~= Seq::<CheckEntryView>::empty());
        t
    }

    /// The topology that holds the checkpoints, which come in key order as
    /// they are read from a column family, and the latest checkpoint date.
    /// Checkpoints out of key order, or two under one key, are refused as
    /// corrupt.
    pub fn load(balances: &Vec<Balance>, latest: u64) -> (r: Result<Self, WHError>)
        ensures
            r is Ok <==> check_sorted(check_entries_of(balances@)),
            r matches Ok(t) ==> t@.entries == check_entries_of(balances@) && t@.latest == latest
                && t.wf(),
            r matches Err(e) ==> e.kind == ErrorKind::Corrupt,
    {
        let ghost want = check_entries_of(balances@);
        let mut entries: Vec<CheckEntry> = Vec::new();
        let mut i: usize = 0;
        while i < balances.len()
            invariant
                i <= balances@.len(),
                want == check_entries_of(balances@),
                entries@.len() == i,
                forall|j: int| 0 <= j < i ==> (#[trigger] entries@[j])@ == want[j],
                forall|a: int, b: int|
                    0 <= a < b < i ==> lex_lt(#[trigger] want[a].key, #[trigger] want[b].key),
            decreases balances@.len() - i,
        {
            let b: Balance = balances[i];
            let key: Vec<u8> = build_check_key(b.date, b.store, b.goods, b.batch);
            assert(key@ == want[i as int].key);
            if i > 0 {
                assert(entries@[i - 1]@ == want[i - 1]);
                if !bytes_lt(&entries[i - 1].key, &key) {
                    assert(!lex_lt(want[i - 1].key, want[i as int].key));
                    return Err(WHError::new(ErrorKind::Corrupt, "checkpoints out of key order"));
                }
                proof {
                    assert forall|a: int| 0 <= a < i implies lex_lt(
                        #[trigger] want[a].key,
                        want[i as int].key,
                    ) by {
                        if a < i - 1 {
                            lemma_lex_lt_transitive(
                                want[a].key,
                                want[i - 1].key,
                                want[i as int].key,
                            );
                        }
                    }
                }
            }
            entries.push(CheckEntry { key, balance: b });
            i = i + 1;
        }
        let t = CheckDateStoreBatch { entries, latest };
        assert(t@.entries =~= want);
        Ok(t)
    }

    /// A copy of the topology.
    pub fn duplicate(&self) -> (t: Self)
        ensures
            t@ == self@,
    {
        let mut entries: Vec<CheckEntry> = Vec::new();
        let mut i: usize = 0;
        while i < self.entries.len()
            invariant
                i <= self.entries@.len(),
                entries@.len() == i,
                forall|j: int| 0 <= j < i ==> (#[trigger] entries@[j])@ == self.entries@[j]@,
            decreases self.entries@.len() - i,
        {
            let e: &CheckEntry = &self.entries[i];
            entries.push(CheckEntry { key: copy_bytes(&e.key), balance: e.balance });
            i = i + 1;
        }
        let t = CheckDateStoreBatch { entries, latest: self.latest };
        assert(t@.entries =~= self@.entries);
        t
    }

    /// The name of the column family.
    pub fn cf_name() -> (name: &'static str)
        ensures
            name@ == "cf_checkpoint_date_store_batch"@,
    {
        "cf_checkpoint_date_store_batch"
    }

    /// How many checkpoints are stored.
    pub fn len(&self) -> (n: usize)
        ensures
            n == self@.entries.len(),
    {
        self.entries.len()
    }

    /// The key of the checkpoint under which an operation dated `date` on the
    /// given store, goods and batch is snapshotted.
    pub fn key(&self, store: Store, goods: Goods, batch: Batch, date: u64) -> (r: Result<
        Vec<u8>,
        WHError,
    >)
        ensures
            r is Ok <==> checkpoint_date(date) is Some,
            r matches Ok(k) ==> k@ == check_key_of(
                Balance {
                    date: checkpoint_date(date).unwrap(),
                    store,
                    goods,
                    batch,
                    number: BalanceForGoods { qty: 0, cost: 0 },
                },
            ),
            r matches Err(e) ==> e.kind == ErrorKind::Invalid,
    {
        let boundary: u64 = next_checkpoint(date)?;
        Ok(build_check_key(boundary, store, goods, batch))
    }

    /// The key under which the latest checkpoint date is persisted: all zero.
    pub fn key_latest_checkpoint_date(&self) -> (k: Vec<u8>)
        ensures
            k@ == check_key_bytes(
                CheckParts {
                    date: 0,
                    store: UUID_NIL,
                    goods: UUID_NIL,
                    batch_date: 0,
                    batch_id: UUID_NIL,
                },
            ),
    {
        build_check_key(u64::MIN, UUID_NIL, UUID_NIL, Batch { id: UUID_NIL, date: u64::MIN })
    }

    /// The latest checkpoint date that was written; the start of 1970 where
    /// none was.
    pub fn get_latest_checkpoint_date(&self) -> (d: u64)
        ensures
            d == self@.latest,
    {
        self.latest
    }

    /// Records the latest checkpoint date.
    pub fn set_latest_checkpoint_date(&mut self, date: u64)
        ensures
            final(self)@.entries == old(self)@.entries,
            final(self)@.latest == date,
    {
        self.latest = date;
    }

    /// The checkpoint at a position.
    pub fn entry(&self, i: usize) -> (e: &CheckEntry)
        requires
            i < self@.entries.len(),
        ensures
            e@ == self@.entries[i as int],
    {
        &self.entries[i]
    }

    /// The place of `key` among the stored keys: the number of keys before it.
    pub fn position(&self, key: &Vec<u8>) -> (p: usize)
        requires
            self.wf(),
        ensures
            p == check_rank(self@.entries, key@),
            p <= self@.entries.len(),
            forall|j: int| 0 <= j < p ==> lex_lt(#[trigger] self@.entries[j].key, key@),
            forall|j: int| p <= j < self@.entries.len() ==> !lex_lt(
                #[trigger] self@.entries[j].key,
                key@,
            ),
            check_has_key(self@.entries, key@) <==> (p < self@.entries.len()
                && self@.entries[p as int].key == key@),
    {
        let mut lo: usize = 0;
        let mut hi: usize = self.entries.len();
        while lo < hi
            invariant
                self.wf(),
                lo <= hi <= self@.entries.len(),
                self@.entries.len() == self.entries@.len(),
                forall|j: int| 0 <= j < lo ==> lex_lt(#[trigger] self@.entries[j].key, key@),
                forall|j: int| hi <= j < self@.entries.len() ==> !lex_lt(
                    #[trigger] self@.entries[j].key,
                    key@,
                ),
            decreases hi - lo,
        {
            let mid: usize = lo + (hi - lo) / 2;
            assert(self@.entries[mid as int] == self.entries@[mid as int]@);
            if bytes_lt(&self.entries[mid].key, key) {
                proof {
                    assert forall|j: int| 0 <= j < mid + 1 implies lex_lt(
                        #[trigger] self@.entries[j].key,
                        key@,
                    ) by {
                        if j < mid {
                            lemma_lex_lt_transitive(
                                self@.entries[j].key,
                                self@.entries[mid as int].key,
                                key@,
                            );
                        }
                    }
                }
                lo = mid + 1;
            } else {
                proof {
                    assert forall|j: int| mid <= j < self@.entries.len() implies !lex_lt(
                        #[trigger] self@.entries[j].key,
                        key@,
                    ) by {
                        if j > mid && lex_lt(self@.entries[j].key, key@) {
                            lemma_lex_lt_transitive(
                                self@.entries[mid as int].key,
                                self@.entries[j].key,
                                key@,
                            );
                        }
                    }
                }
                hi = mid;
            }
        }
        proof {
            lemma_check_rank_is_position(self@.entries, key@, lo as int);
            lemma_check_rank_finds(self@.entries, key@);
        }
        lo
    }

    /// Whether a checkpoint stands at `p` under `key`.
    pub fn holds_at(&self, p: usize, key: &Vec<u8>) -> (r: bool)
        ensures
            r == (p < self@.entries.len() && self@.entries[p as int].key == key@),
    {
        if p < self.entries.len() {
            assert(self@.entries[p as int] == self.entries@[p as int]@);
            bytes_eq(&self.entries[p].key, key)
        } else {
            false
        }
    }

    /// Stores a new checkpoint at its place.
    pub fn insert_at(&mut self, p: usize, balance: Balance)
        requires
            old(self).wf(),
            p == check_rank(old(self)@.entries, check_key_of(balance)),
            !check_has_key(old(self)@.entries, check_key_of(balance)),
        ensures
            final(self).wf(),
            final(self)@.latest == old(self)@.latest,
            final(self)@.entries == old(self)@.entries.insert(
                p as int,
                CheckEntryView { key: check_key_of(balance), balance },
            ),
    {
        let key: Vec<u8> = build_check_key(
            balance.date,
            balance.store,
            balance.goods,
            balance.batch,
        );
        let ghost before = self@.entries;
        let ghost e = CheckEntryView { key: key@, balance };
        proof {
            lemma_check_insert_keeps(before, p as int, e);
        }
        self.entries.insert(p, CheckEntry { key, balance });
        assert(self@.entries =~= before.insert(p as int, e));
    }

    /// Takes the checkpoint at `p` out.
    pub fn remove_at(&mut self, p: usize) -> (e: CheckEntry)
        requires
            old(self).wf(),
            p < old(self)@.entries.len(),
        ensures
            final(self).wf(),
            final(self)@.latest == old(self)@.latest,
            final(self)@.entries == old(self)@.entries.remove(p as int),
            e@ == old(self)@.entries[p as int],
    {
        let ghost before = self@.entries;
        assert(before[p as int] == self.entries@[p as int]@);
        proof {
            lemma_check_remove_keeps(before, p as int);
        }
        let e: CheckEntry = self.entries.remove(p);
        assert(self@.entries =~= before.remove(p as int));
        e
    }

    /// Replaces the balance of the checkpoint at `p`.
    pub fn set_number_at(&mut self, p: usize, number: BalanceForGoods)
        requires
            old(self).wf(),
            p < old(self)@.entries.len(),
        ensures
            final(self).wf(),
            final(self)@.latest == old(self)@.latest,
            final(self)@.entries == old(self)@.entries.update(
                p as int,
                CheckEntryView {
                    key: old(self)@.entries[p as int].key,
                    balance: Balance { number, ..old(self)@.entries[p as int].balance },
                },
            ),
    {
        let ghost before = self@.entries;
        assert(before[p as int] == self.entries@[p as int]@);
        let was: CheckEntry = self.entries.remove(p);
        let balance: Balance = Balance { number, ..was.balance };
        self.entries.insert(p, CheckEntry { key: was.key, balance });
        proof {
            let e = CheckEntryView { key: before[p as int].key, balance };
            let t = before.update(p as int, e);
            assert(self@.entries =~= t);
            assert forall|i: int, j: int| 0 <= i < j < t.len() implies lex_lt(
                #[trigger] t[i].key,
                #[trigger] t[j].key,
            ) by {
                assert(t[i].key == before[i].key && t[j].key == before[j].key);
            }
            assert forall|i: int| 0 <= i < t.len() implies (#[trigger] t[i]).key == check_key_of(
                t[i].balance,
            ) by {
                assert(t[i].key == before[i].key);
                assert(check_parts_of(t[i].balance) == check_parts_of(before[i].balance));
            }
        }
    }

    /// The balance stored under `key`; zero where nothing is stored there.
    pub fn get_balance(&self, key: &Vec<u8>) -> (b: BalanceForGoods)
        requires
            self.wf(),
        ensures
            check_has_key(self@.entries, key@) ==> b == self@.entries[check_rank(
                self@.entries,
                key@,
            )].balance.number,
            !check_has_key(self@.entries, key@) ==> b == (BalanceForGoods { qty: 0, cost: 0 }),
    {
        let p: usize = self.position(key);
        if self.holds_at(p, key) {
            self.entry(p).balance.number
        } else {
            BalanceForGoods { qty: 0, cost: 0 }
        }
    }

    /// Stores `balance` under `key`, in place of what stood there. A key that
    /// does not decode is refused as corrupt.
    pub fn set_balance(&mut self, key: &Vec<u8>, balance: BalanceForGoods) -> (r: Result<
        (),
        WHError,
    >)
        requires
            old(self).wf(),
        ensures
            final(self).wf(),
            final(self)@.latest == old(self)@.latest,
            r is Ok <==> key@.len() == CHECK_KEY_LEN,
            r matches Err(e) ==> e.kind == ErrorKind::Corrupt && final(self)@ == old(self)@,
            r is Ok ==> {
                let p = check_rank(old(self)@.entries, key@);
                &&& final(self)@.entries.len() > p
                &&& final(self)@.entries[p].key == key@
                &&& final(self)@.entries[p].balance.number == balance
                &&& if check_has_key(old(self)@.entries, key@) {
                    final(self)@.entries == old(self)@.entries.update(p, final(self)@.entries[p])
                } else {
                    final(self)@.entries == old(self)@.entries.insert(p, final(self)@.entries[p])
                }
            },
    {
        let (date, store, goods, batch) = key_to_data(key)?;
        let p: usize = self.position(key);
        if self.holds_at(p, key) {
            proof {
                let was = self@.entries[p as int].balance;
                lemma_check_key_order(
                    check_parts_of(was),
                    CheckParts { date, store, goods, batch_date: batch.date, batch_id: batch.id },
                );
            }
            self.set_number_at(p, balance);
        } else {
            self.insert_at(p, Balance { date, store, goods, batch, number: balance });
        }
        Ok(())
    }

    /// Removes what is stored under `key`, if anything.
    pub fn del_balance(&mut self, key: &Vec<u8>)
        requires
            old(self).wf(),
        ensures
            final(self).wf(),
            final(self)@.latest == old(self)@.latest,
            check_has_key(old(self)@.entries, key@) ==>
                final(self)@.entries == old(self)@.entries.remove(check_rank(
                    old(self)@.entries,
                    key@,
                )),
            !check_has_key(old(self)@.entries, key@) ==> final(self)@ == old(self)@,
    {
        let p: usize = self.position(key);
        if self.holds_at(p, key) {
            let _ = self.remove_at(p);
        }
    }
}

/// The date from which a query for `date` replays: the first instant of the
/// month of `date`, or the latest checkpoint date where that is earlier.
pub open spec fn ceiling_for(latest: u64, date: u64) -> Option<u64> {
    match month_start(date) {
        Some(m) => {
            let c = if m <= date {
                m
            } else {
                date
            };
            Some(if c <= latest {
                c
            } else {
                latest
            })
        },
        None => None,
    }
}

/// The filter's goods, where it names any.
pub open spec fn listed(goods: Option<&Vec<Goods>>) -> Option<Seq<Goods>> {
    match goods {
        Some(g) => Some(g@),
        None => None,
    }
}

/// The sum of the balances on one kind of goods.
pub open spec fn goods_total(bs: Seq<Balance>, goods: Goods) -> Amount
    decreases bs.len(),
{
    if bs.len() == 0 {
        Amount::zero()
    } else if bs.last().goods == goods {
        goods_total(bs.drop_last(), goods).plus(bs.last().number.amount())
    } else {
        goods_total(bs.drop_last(), goods)
    }
}

/// Adds up the balances on one kind of goods.
pub fn total_for_goods(bs: &Vec<Balance>, goods: Goods) -> (d: BalanceDelta)
    ensures
        d.amount() == goods_total(bs@, goods),
{
    let mut qty: i128 = 0;
    let mut cost: i128 = 0;
    let mut i: usize = 0;
    assert(bs@.take(0) =~= Seq::<Balance>::empty());
    while i < bs.len()
        invariant
            i <= bs@.len(),
            (Amount { qty: qty as int, cost: cost as int }) == goods_total(
                bs@.take(i as int),
                goods,
            ),
            -(i as int) * 0x8000_0000_0000_0000 <= qty <= (i as int) * 0x8000_0000_0000_0000,
            -(i as int) * 0x8000_0000_0000_0000 <= cost <= (i as int) * 0x8000_0000_0000_0000,
        decreases bs@.len() - i,
    {
        proof {
            assert(bs@.take(i + 1).drop_last() =~= bs@.take(i as int));
            assert(bs@.take(i + 1).last() == bs@[i as int]);
            assert((i as int) * 0x8000_0000_0000_0000 + 0x8000_0000_0000_0000 == (i + 1)
                * 0x8000_0000_0000_0000) by (nonlinear_arith);
            assert((i + 1) * 0x8000_0000_0000_0000 <= 0xffff_ffff_ffff_ffff
                * 0x8000_0000_0000_0000) by (nonlinear_arith)
                requires
                    i + 1 <= 0xffff_ffff_ffff_ffff,
            ;
        }
        if bs[i].goods == goods {
            qty = qty + bs[i].number.qty as i128;
            cost = cost + bs[i].number.cost as i128;
        }
        i = i + 1;
    }
    assert(bs@.take(bs@.len() as int) =~= bs@);
    BalanceDelta { qty, cost }
}

impl CheckDateStoreBatch {
    /// Whether `goods` is among those listed.
    fn is_listed(list: &Vec<Goods>, goods: Goods) -> (r: bool)
        ensures
            r == list@.contains(goods),
    {
        let mut i: usize = 0;
        while i < list.len()
            invariant
                i <= list@.len(),
                forall|j: int| 0 <= j < i ==> list@[j] != goods,
            decreases list@.len() - i,
        {
            if list[i] == goods {
                return true;
            }
            i = i + 1;
        }
        false
    }

    /// Walks the checkpoints dated at or before `ceiling` and keeps, for each
    /// store, goods and batch that is asked for, the most recent one.
    fn scan(
        &self,
        ceiling: u64,
        store: Option<Store>,
        goods: Option<&Vec<Goods>>,
        batch: Option<Batch>,
    ) -> (r: Vec<Balance>)
        requires
            self.wf(),
        ensures
            r@ == picked(
                self@.entries,
                CheckFilter { ceiling, store, goods: listed(goods), batch },
                self@.entries.len() as int,
            ),
    {
        let ghost s = self@.entries;
        let ghost f = CheckFilter { ceiling, store, goods: listed(goods), batch };
        let last: usize = if ceiling == u64::MAX {
            self.entries.len()
        } else {
            let bound: Vec<u8> = build_check_key(
                ceiling + 1,
                UUID_NIL,
                UUID_NIL,
                Batch { id: UUID_NIL, date: 0 },
            );
            self.position(&bound)
        };
        proof {
            assert(s.len() == self.entries@.len());
            assert forall|j: int| 0 <= j < s.len() implies ((#[trigger] s[j]).balance.date
                <= ceiling <==> j < last) by {
                if ceiling < u64::MAX {
                    let bound = CheckParts {
                        date: (ceiling + 1) as u64,
                        store: UUID_NIL,
                        goods: UUID_NIL,
                        batch_date: 0,
                        batch_id: UUID_NIL,
                    };
                    assert(s[j].key == check_key_of(s[j].balance));
                    lemma_check_key_order(check_parts_of(s[j].balance), bound);
                }
            }
        }
        let mut res: Vec<Balance> = Vec::new();
        let mut i: usize = 0;
        while i < last
            invariant
                self.wf(),
                s == self@.entries,
                s.len() == self.entries@.len(),
                f == (CheckFilter { ceiling, store, goods: listed(goods), batch }),
                i <= last <= s.len(),
                forall|j: int| 0 <= j < s.len() ==>
                    ((#[trigger] s[j]).balance.date <= ceiling <==> j
                    < last),
                res@ == picked(s, f, i as int),
            decreases last - i,
        {
            let b: Balance = self.entry(i).balance;
            let wanted: bool = (match store {
                Some(x) => b.store == x,
                None => true,
            }) && (match goods {
                Some(g) => CheckDateStoreBatch::is_listed(g, b.goods),
                None => true,
            }) && (match batch {
                Some(x) => b.batch == x,
                None => true,
            });
            assert(wanted == f.admits(s[i as int].balance));
            if wanted {
                let mut later: bool = false;
                let mut j: usize = i + 1;
                while j < last && !later
                    invariant
                        self.wf(),
                        s == self@.entries,
                        s.len() == self.entries@.len(),
                        i < j <= last <= s.len(),
                        b == s[i as int].balance,
                        later ==> superseded(s, ceiling, i as int),
                        !later ==> forall|k: int| i < k < j ==> !same_place(
                            (#[trigger] s[k]).balance,
                            b,
                        ),
                        forall|j: int| 0 <= j < s.len() ==>
                            ((#[trigger] s[j]).balance.date <= ceiling
                            <==> j < last),
                    decreases last - j, if later { 0int } else { 1int },
                {
                    let c: Balance = self.entry(j).balance;
                    if c.store == b.store && c.goods == b.goods && c.batch == b.batch {
                        later = true;
                        assert(same_place(s[j as int].balance, s[i as int].balance));
                    } else {
                        j = j + 1;
                    }
                }
                if !later {
                    res.push(b);
                }
            }
            i = i + 1;
        }
        proof {
            lemma_picked_skip(s, f, last as int, s.len() as int);
        }
        res
    }

    /// The date from which a query for `date` replays.
    pub fn actual_date(&self, date: u64) -> (r: Result<u64, WHError>)
        ensures
            r is Ok <==> ceiling_for(self@.latest, date) is Some,
            r matches Ok(c) ==> ceiling_for(self@.latest, date) == Some(c),
            r matches Err(e) ==> e.kind == ErrorKind::Invalid,
    {
        let month: u64 = first_day_current_month(date)?;
        let c: u64 = if month <= date {
            month
        } else {
            date
        };
        if c <= self.latest {
            Ok(c)
        } else {
            Ok(self.latest)
        }
    }

    /// For each batch of one kind of goods in one store, the most recent
    /// checkpoint from which a query for `date` can replay.
    pub fn get_checkpoints_for_one_goods(&self, store: Store, goods: Goods, date: u64) -> (r: Result<
        Vec<Balance>,
        WHError,
    >)
        requires
            self.wf(),
        ensures
            r is Ok <==> ceiling_for(self@.latest, date) is Some,
            r matches Ok(v) ==> v@ == picked(
                self@.entries,
                CheckFilter {
                    ceiling: ceiling_for(self@.latest, date).unwrap(),
                    store: Some(store),
                    goods: Some(seq![goods]),
                    batch: None,
                },
                self@.entries.len() as int,
            ),
            r matches Err(e) ==> e.kind == ErrorKind::Invalid,
    {
        let ceiling: u64 = self.actual_date(date)?;
        let mut list: Vec<Goods> = Vec::new();
        list.push(goods);
        assert(list@ =~= seq![goods]);
        Ok(self.scan(ceiling, Some(store), Some(&list), None))
    }

    /// The same checkpoints as [`Self::get_checkpoints_for_one_goods`], with
    /// the date from which the query replays.
    pub fn balances_for_store_goods(&self, date: u64, store: Store, goods: Goods) -> (r: Result<
        (u64, Vec<Balance>),
        WHError,
    >)
        requires
            self.wf(),
        ensures
            r is Ok <==> ceiling_for(self@.latest, date) is Some,
            r matches Ok(v) ==> ceiling_for(self@.latest, date) == Some(v.0) && v.1@ == picked(
                self@.entries,
                CheckFilter {
                    ceiling: v.0,
                    store: Some(store),
                    goods: Some(seq![goods]),
                    batch: None,
                },
                self@.entries.len() as int,
            ),
            r matches Err(e) ==> e.kind == ErrorKind::Invalid,
    {
        let ceiling: u64 = self.actual_date(date)?;
        let mut list: Vec<Goods> = Vec::new();
        list.push(goods);
        assert(list@ =~= seq![goods]);
        Ok((ceiling, self.scan(ceiling, Some(store), Some(&list), None)))
    }

    /// The total of one kind of goods in one store over the checkpoints from
    /// which a query for `date` can replay, with the date from which it
    /// replays.
    pub fn get_checkpoints_for_one_goods_with_date(
        &self,
        store: Store,
        goods: Goods,
        date: u64,
    ) -> (r:
        Result<(u64, BalanceDelta), WHError>)
        requires
            self.wf(),
        ensures
            r is Ok <==> ceiling_for(self@.latest, date) is Some,
            r matches Ok(v) ==> ceiling_for(self@.latest, date) == Some(v.0) && v.1.amount()
                == goods_total(
                picked(
                    self@.entries,
                    CheckFilter {
                        ceiling: v.0,
                        store: Some(store),
                        goods: Some(seq![goods]),
                        batch: None,
                    },
                    self@.entries.len() as int,
                ),
                goods,
            ),
            r matches Err(e) ==> e.kind == ErrorKind::Invalid,
    {
        let (ceiling, found) = self.balances_for_store_goods(date, store, goods)?;
        Ok((ceiling, total_for_goods(&found, goods)))
    }

    /// The most recent checkpoint of one batch from which a query for `date`
    /// can replay.
    pub fn get_checkpoint_for_goods_and_batch(
        &self,
        store: Store,
        goods: Goods,
        batch: &Batch,
        date: u64,
    ) -> (r: Result<Option<Balance>, WHError>)
        requires
            self.wf(),
        ensures
            r is Ok <==> ceiling_for(self@.latest, date) is Some,
            r matches Ok(found) ==> {
                let all = picked(
                    self@.entries,
                    CheckFilter {
                        ceiling: ceiling_for(self@.latest, date).unwrap(),
                        store: Some(store),
                        goods: Some(seq![goods]),
                        batch: Some(*batch),
                    },
                    self@.entries.len() as int,
                );
                found == (if all.len() > 0 {
                    Some(all[0])
                } else {
                    None
                })
            },
            r matches Err(e) ==> e.kind == ErrorKind::Invalid,
    {
        let ceiling: u64 = self.actual_date(date)?;
        let mut list: Vec<Goods> = Vec::new();
        list.push(goods);
        assert(list@ =~= seq![goods]);
        let found: Vec<Balance> = self.scan(ceiling, Some(store), Some(&list), Some(*batch));
        if found.len() > 0 {
            Ok(Some(found[0]))
        } else {
            Ok(None)
        }
    }

    /// For each of the listed goods, the sum over every store and batch of the
    /// most recent checkpoints from which a query for `date` can replay, with
    /// the date from which it replays. Goods without a checkpoint have the sum
    /// zero.
    pub fn get_checkpoints_for_many_goods(&self, date: u64, goods: &Vec<Goods>) -> (r: Result<
        (u64, HashMap<Goods, BalanceDelta>),
        WHError,
    >)
        requires
            self.wf(),
        ensures
            r is Ok <==> ceiling_for(self@.latest, date) is Some,
            r matches Ok(v) ==> ceiling_for(self@.latest, date) == Some(v.0) && forall|g: Goods|
                (#[trigger] v.1@.contains_key(g) <==> goods@.contains(g)) && (goods@.contains(g)
                    ==> v.1@[g].amount() == goods_total(
                    picked(
                        self@.entries,
                        CheckFilter { ceiling: v.0, store: None, goods: Some(goods@), batch: None },
                        self@.entries.len() as int,
                    ),
                    g,
                )),
            r matches Err(e) ==> e.kind == ErrorKind::Invalid,
    {
        broadcast use vstd::std_specs::hash::group_hash_axioms;

        let ceiling: u64 = self.actual_date(date)?;
        let rows: Vec<Balance> = self.scan(ceiling, None, Some(goods), None);
        let mut totals: HashMap<Goods, BalanceDelta> = HashMap::new();
        let mut i: usize = 0;
        while i < goods.len()
            invariant
                i <= goods@.len(),
                forall|g: Goods|
                    (#[trigger] totals@.contains_key(g) <==> goods@.take(i as int).contains(g)) && (
                    totals@.contains_key(g) ==> totals@[g].amount() == goods_total(rows@, g)),
            decreases goods@.len() - i,
        {
            let ghost before = goods@.take(i as int);
            totals.insert(goods[i], total_for_goods(&rows, goods[i]));
            proof {
                let after = goods@.take(i + 1);
                assert(after =~= before.push(goods@[i as int]));
                assert forall|g: Goods| after.contains(g) <==> (before.contains(g) || g
                    == goods@[i as int]) by {
                    if before.contains(g) {
                        let k = choose|k: int| 0 <= k < before.len() && before[k] == g;
                        assert(after[k] == g);
                    }
                    if g == goods@[i as int] {
                        assert(after[i as int] == g);
                    }
                }
            }
            i = i + 1;
        }
        assert(goods@.take(goods@.len() as int) =~= goods@);
        Ok((ceiling, totals))
    }

    /// For every store, goods and batch, the most recent checkpoint from which
    /// a query for `date` can replay, with the date from which it replays.
    pub fn get_checkpoints_for_all(&self, date: u64) -> (r: Result<(u64, Vec<Balance>), WHError>)
        requires
            self.wf(),
        ensures
            r is Ok <==> ceiling_for(self@.latest, date) is Some,
            r matches Ok(v) ==> ceiling_for(self@.latest, date) == Some(v.0) && v.1@ == picked(
                self@.entries,
                CheckFilter { ceiling: v.0, store: None, goods: None, batch: None },
                self@.entries.len() as int,
            ),
            r matches Err(e) ==> e.kind == ErrorKind::Invalid,
    {
        let ceiling: u64 = self.actual_date(date)?;
        Ok((ceiling, self.scan(ceiling, None, None, None)))
    }

    /// For every goods and batch of one store, the most recent checkpoint from
    /// which a query for `date` can replay.
    pub fn get_checkpoints_for_one_storage_before_date(&self, store: Store, date: u64) -> (r: Result<
        Vec<Balance>,
        WHError,
    >)
        requires
            self.wf(),
        ensures
            r is Ok <==> ceiling_for(self@.latest, date) is Some,
            r matches Ok(v) ==> v@ == picked(
                self@.entries,
                CheckFilter {
                    ceiling: ceiling_for(self@.latest, date).unwrap(),
                    store: Some(store),
                    goods: None,
                    batch: None,
                },
                self@.entries.len() as int,
            ),
            r matches Err(e) ==> e.kind == ErrorKind::Invalid,
    {
        let ceiling: u64 = self.actual_date(date)?;
        Ok(self.scan(ceiling, Some(store), None, None))
    }

    /// For every store, goods and batch, the most recent checkpoint from which
    /// a query for `date` can replay.
    pub fn get_checkpoints_for_all_storages_before_date(&self, date: u64) -> (r: Result<
        Vec<Balance>,
        WHError,
    >)
        requires
            self.wf(),
        ensures
            r is Ok <==> ceiling_for(self@.latest, date) is Some,
            r matches Ok(v) ==> v@ == picked(
                self@.entries,
                CheckFilter {
                    ceiling: ceiling_for(self@.latest, date).unwrap(),
                    store: None,
                    goods: None,
                    batch: None,
                },
                self@.entries.len() as int,
            ),
            r matches Err(e) ==> e.kind == ErrorKind::Invalid,
    {
        let ceiling: u64 = self.actual_date(date)?;
        Ok(self.scan(ceiling, None, None, None))
    }

    /// The same checkpoints as
    /// [`Self::get_checkpoints_for_one_storage_before_date`].
    pub fn get_checkpoints_before_date(&self, store: Store, date: u64) -> (r: Result<
        Vec<Balance>,
        WHError,
    >)
        requires
            self.wf(),
        ensures
            r is Ok <==> ceiling_for(self@.latest, date) is Some,
            r matches Ok(v) ==> v@ == picked(
                self@.entries,
                CheckFilter {
                    ceiling: ceiling_for(self@.latest, date).unwrap(),
                    store: Some(store),
                    goods: None,
                    batch: None,
                },
                self@.entries.len() as int,
            ),
            r matches Err(e) ==> e.kind == ErrorKind::Invalid,
    {
        self.get_checkpoints_for_one_storage_before_date(store, date)
    }
}

} // verus!
