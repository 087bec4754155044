//! Operations and memos in position order: two column families, the
//! iterators over them, and the manager that writes operations and keeps the
//! memos after them in step.

use crate::animo::warehouse::{
    fits, minus, order_of, plus, position_bytes, stock_position_bytes, Balance, BalanceOperation,
    WarehouseOperation, WarehouseStockDelta,
};
use crate::time::checkpoint_date;
use crate::bytes::{
    bytes_eq, bytes_lt, copy_bytes, lemma_lex_lt_asymmetric, lemma_lex_lt_irreflexive,
    lemma_lex_lt_total, lemma_lex_lt_transitive, lex_le, lex_lt,
};
use crate::error::{ErrorKind, WHError};
use crate::ordered::{keys_before, lemma_before_is_position};
use vstd::prelude::*;

verus! {

/// What is stored under one position.
#[derive(Debug)]
pub struct Record<V> {
    pub position: Vec<u8>,
    pub value: V,
}

/// Positions strictly ascending.
pub open spec fn ascending<V>(s: Seq<(Seq<u8>, V)>) -> bool {
    forall|i: int, j: int| 0 <= i < j < s.len() ==> lex_lt(#[trigger] s[i].0, #[trigger] s[j].0)
}

/// Whether `n` parts the positions before `key` from those at or after it.
pub open spec fn parts_at<V>(s: Seq<(Seq<u8>, V)>, key: Seq<u8>, n: int) -> bool {
    &&& 0 <= n <= s.len()
    &&& forall|j: int| 0 <= j < n ==> lex_lt(#[trigger] s[j].0, key)
    &&& forall|j: int| n <= j < s.len() ==> !lex_lt(#[trigger] s[j].0, key)
}

/// The positions of the records.
pub open spec fn positions<V>(s: Seq<(Seq<u8>, V)>) -> Seq<Seq<u8>> {
    Seq::new(s.len(), |i: int| s[i].0)
}

/// How many of the positions come before `key`.
pub open spec fn count_before<V>(s: Seq<(Seq<u8>, V)>, key: Seq<u8>) -> int {
    keys_before(positions(s), key)
}

/// The index that parts the positions before `key` from the others is the
/// number of positions before `key`.
pub proof fn lemma_parts_at_count<V>(s: Seq<(Seq<u8>, V)>, key: Seq<u8>, n: int)
    requires
        parts_at(s, key, n),
    ensures
        count_before(s, key) == n,
{
    let ps = positions(s);
    assert forall|j: int| 0 <= j < n implies lex_lt(#[trigger] ps[j], key) by {
        assert(lex_lt(s[j].0, key));
    }
    assert forall|j: int| n <= j < ps.len() implies !lex_lt(#[trigger] ps[j], key) by {
        assert(!lex_lt(s[j].0, key));
    }
    lemma_before_is_position(ps, key, n);
}

/// A column family: values under positions, in position order.
#[derive(Debug)]
pub struct Column<V> {
    records: Vec<Record<V>>,
}

impl<V: Copy> Column<V> {
    /// The positions and values, in position order.
    pub closed spec fn view(&self) -> Seq<(Seq<u8>, V)> {
        Seq::new(self.records@.len(), |i: int| (self.records@[i].position@, self.records@[i].value))
    }

    pub open spec fn wf(&self) -> bool {
        ascending(self.view())
    }

    pub fn new() -> (c: Self)
        ensures
            c.view() == Seq::<(Seq<u8>, V)>::empty(),
            c.wf(),
    {
        let c = Column { records: Vec::new() };
        assert(c.view() =~= Seq::<(Seq<u8>, V)>::empty());
        c
    }

    pub fn len(&self) -> (n: usize)
        ensures
            n == self.view().len(),
    {
        self.records.len()
    }

    /// The position and value at an index.
    pub fn at(&self, i: usize) -> (r: (&Vec<u8>, V))
        requires
            i < self.view().len(),
        ensures
            (r.0@, r.1) == self.view()[i as int],
    {
        (&self.records[i].position, self.records[i].value)
    }

    /// The first index whose position is not before `key`.
    pub fn seek(&self, key: &Vec<u8>) -> (n: usize)
        requires
            self.wf(),
        ensures
            parts_at(self.view(), key@, n as int),
    {
        let mut n: usize = 0;
        while n < self.records.len()
            invariant
                self.wf(),
                n <= self.view().len(),
                self.view().len() == self.records@.len(),
                forall|j: int| 0 <= j < n ==> lex_lt(#[trigger] self.view()[j].0, key@),
            decreases self.records@.len() - n,
        {
            assert(self.view()[n as int].0 == self.records@[n as int].position@);
            if !bytes_lt(&self.records[n].position, key) {
                proof {
                    assert forall|j: int| n <= j < self.view().len() implies !lex_lt(
                        #[trigger] self.view()[j].0,
                        key@,
                    ) by {
                        if j > n && lex_lt(self.view()[j].0, key@) {
                            lemma_lex_lt_transitive(
                                self.view()[n as int].0,
                                self.view()[j].0,
                                key@,
                            );
                        }
                    }
                }
                return n;
            }
            n = n + 1;
        }
        n
    }

    /// Whether `key` is stored at index `i`.
    pub fn holds_at(&self, i: usize, key: &Vec<u8>) -> (r: bool)
        ensures
            r == (i < self.view().len() && self.view()[i as int].0 == key@),
    {
        if i < self.records.len() {
            assert(self.view()[i as int].0 == self.records@[i as int].position@);
            bytes_eq(&self.records[i].position, key)
        } else {
            false
        }
    }

    /// Puts a value under a new position.
    pub fn insert_at(&mut self, i: usize, key: &Vec<u8>, value: V)
        requires
            old(self).wf(),
            parts_at(old(self).view(), key@, i as int),
            !(i < old(self).view().len() && old(self).view()[i as int].0 == key@),
        ensures
            final(self).wf(),
            final(self).view() == old(self).view().insert(i as int, (key@, value)),
    {
        let ghost s = self.view();
        self.records.insert(i, Record { position: copy_bytes(key), value });
        proof {
            let t = s.insert(i as int, (key@, value));
            assert(self.view() =~= t);
            assert forall|x: int, y: int| 0 <= x < y < t.len() implies lex_lt(
                #[trigger] t[x].0,
                #[trigger] t[y].0,
            ) by {
                let x0 = if x < i { x } else { x - 1 };
                let y0 = if y < i { y } else { y - 1 };
                if x != i {
                    assert(t[x] == s[x0]);
                }
                if y != i {
                    assert(t[y] == s[y0]);
                }
                if x == i {
                    lemma_lex_lt_total(s[y0].0, key@);
                    if y0 > i {
                        assert(lex_lt(s[i as int].0, s[y0].0));
                    }
                }
            }
        }
    }

    /// Replaces the value at an index.
    pub fn set_at(&mut self, i: usize, value: V)
        requires
            old(self).wf(),
            i < old(self).view().len(),
        ensures
            final(self).wf(),
            final(self).view() == old(self).view().update(
                i as int,
                (old(self).view()[i as int].0, value),
            ),
    {
        let ghost s = self.view();
        let was: Record<V> = self.records.remove(i);
        assert(s[i as int].0 == was.position@);
        self.records.insert(i, Record { position: was.position, value });
        proof {
            let t = s.update(i as int, (s[i as int].0, value));
            assert(self.view() =~= t);
            assert forall|x: int, y: int| 0 <= x < y < t.len() implies lex_lt(
                #[trigger] t[x].0,
                #[trigger] t[y].0,
            ) by {
                assert(t[x].0 == s[x].0 && t[y].0 == s[y].0);
            }
        }
    }

    /// A copy of the records from index `from` up to index `to`.
    pub fn slice(&self, from: usize, to: usize) -> (r: Vec<Record<V>>)
        requires
            from <= to <= self.view().len(),
        ensures
            records_view(r@) == self.view().subrange(from as int, to as int),
    {
        let mut r: Vec<Record<V>> = Vec::new();
        let mut i: usize = from;
        while i < to
            invariant
                from <= i <= to <= self.view().len(),
                self.view().len() == self.records@.len(),
                records_view(r@) == self.view().subrange(from as int, i as int),
            decreases to - i,
        {
            let ghost before = records_view(r@);
            r.push(Record { position: copy_bytes(&self.records[i].position), value: self.records[i].value });
            proof {
                assert(records_view(r@) =~= before.push(self.view()[i as int]));
                assert(before.push(self.view()[i as int]) =~= self.view().subrange(
                    from as int,
                    i + 1,
                ));
            }
            i = i + 1;
        }
        r
    }
}

/// What records hold.
pub open spec fn records_view<V>(r: Seq<Record<V>>) -> Seq<(Seq<u8>, V)> {
    Seq::new(r.len(), |i: int| (r[i].position@, r[i].value))
}

/// An iterator over records, in the order in which they were taken.
#[derive(Debug)]
pub struct LightIterator<V> {
    items: Vec<Record<V>>,
    at: usize,
}

impl<V: Copy> LightIterator<V> {
    /// What the iterator has not yet yielded.
    pub closed spec fn rest(&self) -> Seq<(Seq<u8>, V)> {
        if self.at <= self.items@.len() {
            records_view(self.items@).skip(self.at as int)
        } else {
            Seq::empty()
        }
    }

    fn over(items: Vec<Record<V>>) -> (it: Self)
        ensures
            it.rest() == records_view(items@),
    {
        let it = LightIterator { items, at: 0 };
        assert(it.rest() =~= records_view(items@));
        it
    }

    /// The next position and value, if any.
    pub fn next(&mut self) -> (r: Option<(Vec<u8>, V)>)
        ensures
            old(self).rest().len() == 0 ==> r is None && final(self).rest() == old(self).rest(),
            old(self).rest().len() > 0 ==> (r matches Some(x) && (x.0@, x.1) == old(self).rest()[0]
                && final(self).rest() == old(self).rest().skip(1)),
    {
        if self.at >= self.items.len() {
            return None;
        }
        let ghost before = self.rest();
        let r: (Vec<u8>, V) = (
            copy_bytes(&self.items[self.at].position),
            self.items[self.at].value,
        );
        assert(before[0] == records_view(self.items@)[self.at as int]);
        self.at = self.at + 1;
        assert(self.rest() =~= before.skip(1));
        Some(r)
    }
}

/// An iterator over records that are read back from position and value.
pub type HeavyIterator<V> = LightIterator<V>;

/// An iterator that ends at the first position after `till`.
#[derive(Debug)]
pub struct BetweenLightIterator<V> {
    inner: LightIterator<V>,
    till: Vec<u8>,
}

impl<V: Copy> BetweenLightIterator<V> {
    /// What the inner iterator has not yet yielded.
    pub closed spec fn rest(&self) -> Seq<(Seq<u8>, V)> {
        self.inner.rest()
    }

    /// The last position that is yielded.
    pub closed spec fn till(&self) -> Seq<u8> {
        self.till@
    }

    /// The next position and value, if any that is at or before `till`.
    pub fn next(&mut self) -> (r: Option<(Vec<u8>, V)>)
        ensures
            final(self).till() == old(self).till(),
            old(self).rest().len() == 0 ==> r is None,
            old(self).rest().len() > 0 ==> final(self).rest() == old(self).rest().skip(1) && (
            if lex_le(old(self).rest()[0].0, old(self).till()) {
                r matches Some(x) && (x.0@, x.1) == old(self).rest()[0]
            } else {
                r is None
            }),
    {
        match self.inner.next() {
            None => None,
            Some((k, v)) => {
                proof {
                    lemma_lex_lt_total(k@, self.till@);
                    if lex_lt(self.till@, k@) {
                        lemma_lex_lt_asymmetric(self.till@, k@);
                    }
                    lemma_lex_lt_irreflexive(k@);
                }
                if !bytes_lt(&self.till, &k) {
                    Some((k, v))
                } else {
                    None
                }
            },
        }
    }
}

/// An iterator that ends at the first position after `till`, over records
/// that are read back from position and value.
pub type BetweenHeavyIterator<V> = BetweenLightIterator<V>;

/// A consistent sight of the two column families.
#[derive(Debug)]
pub struct Snapshot {
    operations: Column<BalanceOperation>,
    values: Column<Balance>,
    stock: Column<Balance>,
}

impl Snapshot {
    /// The operations, in position order.
    pub closed spec fn operations(&self) -> Seq<(Seq<u8>, BalanceOperation)> {
        self.operations.view()
    }

    /// The memos, in position order.
    pub closed spec fn values(&self) -> Seq<(Seq<u8>, Balance)> {
        self.values.view()
    }

    /// The memos of the stock of stores, in position order.
    pub closed spec fn stock(&self) -> Seq<(Seq<u8>, Balance)> {
        self.stock.view()
    }

    pub open spec fn wf(&self) -> bool {
        ascending(self.operations()) && ascending(self.values()) && ascending(self.stock())
    }

    /// The memo of stock at a position, if there is one.
    pub fn stock_memo(&self, position: &Vec<u8>) -> (r: Option<Balance>)
        requires
            self.wf(),
        ensures
            r is Some <==> exists|j: int|
                0 <= j < self.stock().len() && (#[trigger] self.stock()[j]).0 == position@,
            r matches Some(b) ==> exists|j: int|
                0 <= j < self.stock().len() && (#[trigger] self.stock()[j]) == (position@, b),
    {
        let i: usize = self.stock.seek(position);
        if self.stock.holds_at(i, position) {
            let (_, b) = self.stock.at(i);
            Some(b)
        } else {
            proof {
                if exists|j: int|
                    0 <= j < self.stock().len() && (#[trigger] self.stock()[j]).0 == position@ {
                    let j = choose|j: int|
                        0 <= j < self.stock().len() && (#[trigger] self.stock()[j]).0 == position@;
                    lemma_lex_lt_irreflexive(position@);
                    if j > i {
                        assert(lex_lt(self.stock()[i as int].0, self.stock()[j].0));
                        lemma_lex_lt_total(self.stock()[i as int].0, position@);
                        lemma_lex_lt_asymmetric(self.stock()[i as int].0, position@);
                    }
                }
            }
            None
        }
    }

    pub fn new() -> (s: Snapshot)
        ensures
            s.wf(),
            s.operations() == Seq::<(Seq<u8>, BalanceOperation)>::empty(),
            s.values() == Seq::<(Seq<u8>, Balance)>::empty(),
            s.stock() == Seq::<(Seq<u8>, Balance)>::empty(),
    {
        Snapshot { operations: Column::new(), values: Column::new(), stock: Column::new() }
    }
}

/// The memos at or before `key`, the closest one first.
pub fn preceding(s: &Snapshot, key: Vec<u8>) -> (it: LightIterator<Balance>)
    requires
        s.wf(),
    ensures
        exists|n: int|
            0 <= n <= s.values().len() && (forall|j: int|
                0 <= j < n ==> lex_le(#[trigger] s.values()[j].0, key@)) && (forall|j: int|
                n <= j < s.values().len() ==> !lex_le(#[trigger] s.values()[j].0, key@))
                && it.rest() == s.values().take(n).reverse(),
{
    let first_after: usize = s.values.seek(&key);
    // The length fits a `usize`, so the index after a stored one does.
    let _: usize = s.values.len();
    let n: usize = if s.values.holds_at(first_after, &key) {
        first_after + 1
    } else {
        first_after
    };
    proof {
        let v = s.values();
        assert forall|j: int| 0 <= j < n implies lex_le(#[trigger] v[j].0, key@) by {}
        assert forall|j: int| n <= j < v.len() implies !lex_le(#[trigger] v[j].0, key@) by {
            if v[j].0 == key@ {
                if j > first_after {
                    assert(lex_lt(v[first_after as int].0, v[j].0));
                    if first_after < n {
                        lemma_lex_lt_irreflexive(key@);
                    }
                }
            }
        }
    }
    let mut items: Vec<Record<Balance>> = Vec::new();
    let mut i: usize = n;
    while i > 0
        invariant
            i <= n <= s.values().len(),
            s.values() == s.values.view(),
            records_view(items@) == s.values().subrange(i as int, n as int).reverse(),
        decreases i,
    {
        let (p, v) = s.values.at(i - 1);
        let ghost before = records_view(items@);
        items.push(Record { position: copy_bytes(p), value: v });
        proof {
            assert(records_view(items@) =~= before.push(s.values()[i - 1]));
            assert(before.push(s.values()[i - 1]) =~= s.values().subrange(
                i - 1,
                n as int,
            ).reverse());
        }
        i = i - 1;
    }
    proof {
        assert(s.values().subrange(0, n as int) =~= s.values().take(n as int));
    }
    LightIterator::over(items)
}

/// The operations at or after `key`, in position order.
pub fn following_light(s: &Snapshot, key: &Vec<u8>) -> (it: LightIterator<BalanceOperation>)
    requires
        s.wf(),
    ensures
        exists|n: int|
            parts_at(s.operations(), key@, n) && it.rest() == s.operations().skip(n),
{
    let n: usize = s.operations.seek(key);
    let items: Vec<Record<BalanceOperation>> = s.operations.slice(n, s.operations.len());
    assert(s.operations().subrange(n as int, s.operations().len() as int) =~= s.operations().skip(
        n as int,
    ));
    LightIterator::over(items)
}

/// The operations at or after `key`, in position order, read back from
/// position and value.
pub fn following_heavy(s: &Snapshot, key: &Vec<u8>) -> (it: HeavyIterator<BalanceOperation>)
    requires
        s.wf(),
    ensures
        exists|n: int|
            parts_at(s.operations(), key@, n) && it.rest() == s.operations().skip(n),
{
    following_light(s, key)
}

/// Writing `writes` one after the other into `before` has come to `now` with
/// `writes[..k]` written, and there `writes[k]` cannot be written.
pub open spec fn halted(
    before: Seq<(Seq<u8>, BalanceOperation)>,
    now: Seq<(Seq<u8>, BalanceOperation)>,
    values: Seq<(Seq<u8>, Balance)>,
    writes: Seq<WarehouseOperation>,
    k: int,
) -> bool {
    &&& 0 <= k < writes.len()
    &&& now == Snapshot::written_all(before, writes.take(k), 0)
    &&& !Snapshot::takes(
        now,
        values,
        position_bytes(writes[k].store, writes[k].goods, writes[k].date, order_of(writes[k].op)),
        writes[k].op,
    )
}

/// The length of what positions of one store and goods have in common.
pub const PREFIX_LEN: usize = 48;

/// Whether two positions are of the same store and goods.
pub open spec fn same_prefix(p: Seq<u8>, q: Seq<u8>) -> bool {
    p.len() >= PREFIX_LEN && q.len() >= PREFIX_LEN && p.subrange(0, PREFIX_LEN as int)
        == q.subrange(0, PREFIX_LEN as int)
}

/// Whether the memo at `p` holds the operation at `q`: both are of the same
/// store and goods, and `q` is at or before `p`.
pub open spec fn covers(p: Seq<u8>, q: Seq<u8>) -> bool {
    same_prefix(p, q) && lex_le(q, p)
}

/// What an operation adds to the memo at `p`.
pub open spec fn part(p: Seq<u8>, rec: (Seq<u8>, BalanceOperation)) -> (int, int) {
    if covers(p, rec.0) {
        rec.1.value()
    } else {
        (0, 0)
    }
}

/// What the memo at `p` holds of the first `n` operations.
pub open spec fn tsum(ops: Seq<(Seq<u8>, BalanceOperation)>, p: Seq<u8>, n: int) -> (int, int)
    decreases n,
{
    if n <= 0 {
        (0, 0)
    } else {
        plus(tsum(ops, p, n - 1), part(p, ops[n - 1]))
    }
}

/// Every memo is the sum of the operations of its store and goods at or
/// before its position.
pub open spec fn memos_ok(
    ops: Seq<(Seq<u8>, BalanceOperation)>,
    values: Seq<(Seq<u8>, Balance)>,
) -> bool {
    forall|i: int|
        0 <= i < values.len() ==> (#[trigger] values[i]).1.value() == tsum(
            ops,
            values[i].0,
            ops.len() as int,
        )
}

pub proof fn lemma_tsum_insert(
    ops: Seq<(Seq<u8>, BalanceOperation)>,
    i: int,
    rec: (Seq<u8>, BalanceOperation),
    p: Seq<u8>,
    n: int,
)
    requires
        0 <= i <= ops.len(),
        0 <= n <= ops.len() + 1,
    ensures
        n <= i ==> tsum(ops.insert(i, rec), p, n) == tsum(ops, p, n),
        n > i ==> tsum(ops.insert(i, rec), p, n) == plus(tsum(ops, p, n - 1), part(p, rec)),
    decreases n,
{
    let t = ops.insert(i, rec);
    if n > 0 {
        lemma_tsum_insert(ops, i, rec, p, n - 1);
        if n - 1 < i {
            assert(t[n - 1] == ops[n - 1]);
        } else if n - 1 == i {
            assert(t[n - 1] == rec);
        } else {
            assert(t[n - 1] == ops[n - 2]);
        }
    }
}

pub proof fn lemma_tsum_update(
    ops: Seq<(Seq<u8>, BalanceOperation)>,
    i: int,
    rec: (Seq<u8>, BalanceOperation),
    p: Seq<u8>,
    n: int,
)
    requires
        0 <= i < ops.len(),
        0 <= n <= ops.len(),
    ensures
        n <= i ==> tsum(ops.update(i, rec), p, n) == tsum(ops, p, n),
        n > i ==> tsum(ops.update(i, rec), p, n) == plus(
            tsum(ops, p, n),
            minus(part(p, rec), part(p, ops[i])),
        ),
    decreases n,
{
    let t = ops.update(i, rec);
    if n > 0 {
        lemma_tsum_update(ops, i, rec, p, n - 1);
        if n - 1 != i {
            assert(t[n - 1] == ops[n - 1]);
        }
    }
}

/// What the memo at `p` holds beyond what the memo at `r` holds.
pub open spec fn tdiff(
    ops: Seq<(Seq<u8>, BalanceOperation)>,
    r: Option<Seq<u8>>,
    p: Seq<u8>,
    n: int,
) -> (
    int,
    int,
)
    decreases n,
{
    if n <= 0 {
        (0, 0)
    } else if covers(p, ops[n - 1].0) && !(r matches Some(x) && covers(x, ops[n - 1].0)) {
        plus(tdiff(ops, r, p, n - 1), ops[n - 1].1.value())
    } else {
        tdiff(ops, r, p, n - 1)
    }
}

/// A memo is an earlier memo of the same store and goods and what was moved
/// between the two.
pub proof fn lemma_tsum_from(
    ops: Seq<(Seq<u8>, BalanceOperation)>,
    r: Option<Seq<u8>>,
    p: Seq<u8>,
    n: int,
)
    requires
        0 <= n <= ops.len(),
        r matches Some(x) ==> same_prefix(x, p) && lex_le(x, p),
    ensures
        tsum(ops, p, n) == plus(
            match r {
                Some(x) => tsum(ops, x, n),
                None => (0, 0),
            },
            tdiff(ops, r, p, n),
        ),
    decreases n,
{
    if n > 0 {
        lemma_tsum_from(ops, r, p, n - 1);
        match r {
            Some(x) => {
                let q = ops[n - 1].0;
                if covers(x, q) {
                    assert(same_prefix(p, q)) by {
                        assert(p.subrange(0, PREFIX_LEN as int) == x.subrange(
                            0,
                            PREFIX_LEN as int,
                        ));
                    }
                    if q != x && x != p {
                        lemma_lex_lt_transitive(q, x, p);
                    }
                }
            },
            None => {},
        }
    }
}

/// The position, where there is one.
pub open spec fn spec_position(from: Option<Vec<u8>>) -> Option<Seq<u8>> {
    match from {
        Some(x) => Some(x@),
        None => None,
    }
}

/// Whether the first [`PREFIX_LEN`] bytes of two positions are the same.
fn prefix_eq(p: &Vec<u8>, q: &Vec<u8>) -> (r: bool)
    ensures
        r == same_prefix(p@, q@),
{
    if p.len() < PREFIX_LEN || q.len() < PREFIX_LEN {
        return false;
    }
    let mut i: usize = 0;
    while i < PREFIX_LEN
        invariant
            i <= PREFIX_LEN,
            p@.len() >= PREFIX_LEN,
            q@.len() >= PREFIX_LEN,
            forall|j: int| 0 <= j < i ==> p@[j] == q@[j],
        decreases PREFIX_LEN - i,
    {
        if p[i] != q[i] {
            assert(p@.subrange(0, PREFIX_LEN as int)[i as int] == p@[i as int]);
            assert(q@.subrange(0, PREFIX_LEN as int)[i as int] == q@[i as int]);
            return false;
        }
        i = i + 1;
    }
    assert(p@.subrange(0, PREFIX_LEN as int) =~= q@.subrange(0, PREFIX_LEN as int));
    true
}

/// Whether the memo at `p` holds the operation at `q`.
fn is_covered(p: &Vec<u8>, q: &Vec<u8>) -> (r: bool)
    ensures
        r == covers(p@, q@),
{
    proof {
        lemma_lex_lt_total(p@, q@);
        lemma_lex_lt_irreflexive(p@);
        if lex_lt(p@, q@) {
            lemma_lex_lt_asymmetric(p@, q@);
        }
    }
    prefix_eq(p, q) && !bytes_lt(p, q)
}

impl Snapshot {
    /// Every memo is the sum of the operations that it holds.
    pub open spec fn coherent(&self) -> bool {
        self.wf() && memos_ok(self.operations(), self.values())
    }

    /// The operations after `op` is written at position `q`: in place of what
    /// stood there, or at its place in the order.
    pub open spec fn written(
        ops: Seq<(Seq<u8>, BalanceOperation)>,
        q: Seq<u8>,
        op: BalanceOperation,
        i: int,
    ) -> Seq<(Seq<u8>, BalanceOperation)> {
        if i < ops.len() && ops[i].0 == q {
            ops.update(i, (q, op))
        } else {
            ops.insert(i, (q, op))
        }
    }

    /// What writing `op` at `q` adds to every memo that holds `q`.
    pub open spec fn change(
        ops: Seq<(Seq<u8>, BalanceOperation)>,
        q: Seq<u8>,
        op: BalanceOperation,
        i: int,
    ) -> (int, int) {
        if i < ops.len() && ops[i].0 == q {
            minus(op.value(), ops[i].1.value())
        } else {
            op.value()
        }
    }

    /// Whether `op` can be written at `q`: what it changes, and every memo
    /// that holds `q` with that change, stays in the range that is kept.
    pub open spec fn takes(
        ops: Seq<(Seq<u8>, BalanceOperation)>,
        values: Seq<(Seq<u8>, Balance)>,
        q: Seq<u8>,
        op: BalanceOperation,
    ) -> bool {
        let delta = Snapshot::change(ops, q, op, count_before(ops, q));
        &&& fits(delta)
        &&& forall|k: int|
            0 <= k < values.len() && covers((#[trigger] values[k]).0, q) ==> fits(
                plus(values[k].1.value(), delta),
            )
    }

    /// The operations after `writes[i..]` are written, one after the other.
    pub open spec fn written_all(
        ops: Seq<(Seq<u8>, BalanceOperation)>,
        writes: Seq<WarehouseOperation>,
        i: int,
    ) -> Seq<(Seq<u8>, BalanceOperation)>
        decreases writes.len() - i,
    {
        if i < 0 || i >= writes.len() {
            ops
        } else {
            let q = position_bytes(
                writes[i].store,
                writes[i].goods,
                writes[i].date,
                order_of(writes[i].op),
            );
            Snapshot::written_all(
                Snapshot::written(ops, q, writes[i].op, count_before(ops, q)),
                writes,
                i + 1,
            )
        }
    }

    /// Writes one operation at its position and changes every memo that holds
    /// the position by what the operation changes. Where the change or a memo
    /// would leave the range that is kept, nothing is written.
    pub fn write_op(&mut self, q: &Vec<u8>, op: BalanceOperation) -> (r: Result<(), WHError>)
        requires
            old(self).coherent(),
        ensures
            final(self).coherent(),
            final(self).stock() == old(self).stock(),
            r is Ok <==> Snapshot::takes(old(self).operations(), old(self).values(), q@, op),
            r is Ok ==> final(self).operations() == Snapshot::written(
                old(self).operations(),
                q@,
                op,
                count_before(old(self).operations(), q@),
            ),
            r is Ok ==> final(self).values().len() == old(self).values().len() && forall|j: int|
                0 <= j < old(self).values().len() ==>
                    (#[trigger] final(self).values()[j]).0 == old(self).values()[j].0,
            r matches Err(e) ==> e.kind == ErrorKind::Capacity
                && final(self).operations() == old(self).operations()
                && final(self).values() == old(self).values(),
    {
        let i: usize = self.operations.seek(q);
        let existing: bool = self.operations.holds_at(i, q);
        let ghost ops0 = self.operations();
        let ghost vals0 = self.values();
        proof {
            lemma_parts_at_count(ops0, q@, i as int);
        }
        let delta: Balance = if existing {
            let (_, was) = self.operations.at(i);
            was.delta_between_operations(&op)?
        } else {
            op.delta_after_operation()?
        };
        assert(delta.value() == Snapshot::change(ops0, q@, op, i as int));
        // nothing is written unless every memo can take the change
        let n: usize = self.values.len();
        let mut j: usize = 0;
        while j < n
            invariant
                j <= n,
                n == self.values().len(),
                self.values() == self.values.view(),
                self.values() == vals0,
                self.operations() == ops0,
                self.stock() == old(self).stock(),
                self.coherent(),
                delta.value() == Snapshot::change(ops0, q@, op, count_before(ops0, q@)),
                forall|k: int|
                    0 <= k < j && covers((#[trigger] vals0[k]).0, q@) ==> fits(
                        plus(vals0[k].1.value(), delta.value()),
                    ),
            decreases n - j,
        {
            let (p, memo) = self.values.at(j);
            if is_covered(p, q) {
                match memo.apply_delta(&delta) {
                    Ok(_) => {},
                    Err(e) => {
                        proof {
                            assert(covers(vals0[j as int].0, q@) && !fits(
                                plus(vals0[j as int].1.value(), delta.value()),
                            ));
                        }
                        return Err(e);
                    },
                }
            }
            j = j + 1;
        }
        if existing {
            self.operations.set_at(i, op);
        } else {
            self.operations.insert_at(i, q, op);
        }
        let ghost ops1 = self.operations();
        assert(ops1 == Snapshot::written(ops0, q@, op, i as int));
        let mut j: usize = 0;
        while j < n
            invariant
                j <= n,
                n == vals0.len(),
                self.values() == self.values.view(),
                self.operations() == ops1,
                self.stock() == old(self).stock(),
                ascending(self.stock()),
                ascending(self.values()),
                self.values().len() == n,
                forall|k: int| 0 <= k < n ==> (#[trigger] self.values()[k]).0 == vals0[k].0,
                forall|k: int|
                    0 <= k < n && covers((#[trigger] vals0[k]).0, q@) ==> fits(
                        plus(vals0[k].1.value(), delta.value()),
                    ),
                forall|k: int|
                    0 <= k < j ==> (#[trigger] self.values()[k]).1.value() == (if covers(
                        vals0[k].0,
                        q@,
                    ) {
                        plus(vals0[k].1.value(), delta.value())
                    } else {
                        vals0[k].1.value()
                    }),
                forall|k: int| j <= k < n ==> (#[trigger] self.values()[k]) == vals0[k],
            decreases n - j,
        {
            let (p, memo) = self.values.at(j);
            if is_covered(p, q) {
                match memo.apply_delta(&delta) {
                    Ok(changed) => {
                        self.values.set_at(j, changed);
                    },
                    Err(_) => {
                        assert(false);
                    },
                }
            }
            j = j + 1;
        }
        proof {
            let vals1 = self.values();
            assert forall|k: int| 0 <= k < vals1.len() implies (#[trigger] vals1[k]).1.value()
                == tsum(
                ops1,
                vals1[k].0,
                ops1.len() as int,
            ) by {
                let p = vals1[k].0;
                assert(vals0[k].1.value() == tsum(ops0, vals0[k].0, ops0.len() as int));
                if existing {
                    lemma_tsum_update(ops0, i as int, (q@, op), p, ops0.len() as int);
                } else {
                    lemma_tsum_insert(ops0, i as int, (q@, op), p, ops1.len() as int);
                }
            }
        }
        Ok(())
    }

    /// The balance of a store and goods at the position `p` of a memo: the
    /// closest earlier memo of the same store and goods and what was moved
    /// after it, or everything that was moved where there is none. The balance
    /// is kept as the memo at `p`.
    pub fn memo_at(&mut self, p: &Vec<u8>) -> (r: Result<Balance, WHError>)
        requires
            old(self).coherent(),
        ensures
            final(self).coherent(),
            final(self).operations() == old(self).operations(),
            final(self).stock() == old(self).stock(),
            r is Ok <==> fits(
                tsum(old(self).operations(), p@, old(self).operations().len() as int),
            ),
            r matches Ok(b) ==> b.value() == tsum(
                old(self).operations(),
                p@,
                old(self).operations().len() as int,
            ),
            r matches Err(e) ==> e.kind == ErrorKind::Capacity
                && final(self).values() == old(self).values(),
    {
        let ghost ops = self.operations();
        let ghost m = ops.len() as int;
        let j: usize = self.values.seek(p);
        if self.values.holds_at(j, p) {
            let (_, found) = self.values.at(j);
            assert(self.values()[j as int].1.value() == tsum(ops, self.values()[j as int].0, m));
            return Ok(found);
        }
        let mut base: Balance = Balance(0, 0);
        let mut from: Option<Vec<u8>> = None;
        if j > 0 {
            let (r_position, memo) = self.values.at(j - 1);
            if prefix_eq(r_position, p) {
                assert(self.values()[j - 1].1.value() == tsum(ops, self.values()[j - 1].0, m));
                base = memo;
                from = Some(copy_bytes(r_position));
            }
        }
        let ghost r: Option<Seq<u8>> = spec_position(from);
        proof {
            lemma_tsum_from(ops, r, p@, m);
        }
        let mut qty: i128 = base.0 as i128;
        let mut cost: i128 = base.1 as i128;
        let n: usize = self.operations.len();
        let mut k: usize = 0;
        while k < n
            invariant
                k <= n,
                n == ops.len(),
                ops == self.operations.view(),
                r == spec_position(from),
                (qty as int, cost as int) == plus(base.value(), tdiff(ops, r, p@, k as int)),
                -(k + 1) * 0x8000_0000_0000_0000 <= qty < (k + 1) * 0x8000_0000_0000_0000,
                -(k + 1) * 0x8000_0000_0000_0000 <= cost < (k + 1) * 0x8000_0000_0000_0000,
            decreases n - k,
        {
            let (q, op) = self.operations.at(k);
            let before: bool = match &from {
                Some(x) => is_covered(x, q),
                None => false,
            };
            proof {
                assert((k + 1) * 0x8000_0000_0000_0000 + 0x8000_0000_0000_0000 == (k + 2)
                    * 0x8000_0000_0000_0000) by (nonlinear_arith);
                assert((k + 2) * 0x8000_0000_0000_0000 <= 0x1_0000_0000_0000_0000
                    * 0x8000_0000_0000_0000) by (nonlinear_arith)
                    requires
                        k + 2 <= 0x1_0000_0000_0000_0000,
                ;
            }
            if is_covered(p, q) && !before {
                match op {
                    BalanceOperation::In(a, b) => {
                        qty = qty + a as i128;
                        cost = cost + b as i128;
                    },
                    BalanceOperation::Out(a, b) => {
                        qty = qty - a as i128;
                        cost = cost - b as i128;
                    },
                }
            }
            k = k + 1;
        }
        if qty < i64::MIN as i128 || qty > i64::MAX as i128 || cost < i64::MIN as i128 || cost
            > i64::MAX as i128 {
            return Err(WHError::new(ErrorKind::Capacity, "balance out of range"));
        }
        let balance: Balance = Balance(qty as i64, cost as i64);
        let ghost vals0 = self.values();
        self.values.insert_at(j, p, balance);
        proof {
            let vals1 = self.values();
            assert forall|x: int| 0 <= x < vals1.len() implies (#[trigger] vals1[x]).1.value()
                == tsum(
                ops,
                vals1[x].0,
                m,
            ) by {
                if x < j {
                    assert(vals1[x] == vals0[x]);
                } else if x > j {
                    assert(vals1[x] == vals0[x - 1]);
                }
            }
        }
        Ok(balance)
    }
}

/// Writing one more operation after the others.
pub proof fn lemma_written_all_push(
    ops: Seq<(Seq<u8>, BalanceOperation)>,
    writes: Seq<WarehouseOperation>,
    w: WarehouseOperation,
    i: int,
)
    requires
        0 <= i <= writes.len(),
    ensures
        Snapshot::written_all(ops, writes.push(w), i) == Snapshot::written(
            Snapshot::written_all(ops, writes, i),
            position_bytes(w.store, w.goods, w.date, order_of(w.op)),
            w.op,
            count_before(
                Snapshot::written_all(ops, writes, i),
                position_bytes(w.store, w.goods, w.date, order_of(w.op)),
            ),
        ),
    decreases writes.len() - i,
{
    let all = writes.push(w);
    if i < writes.len() {
        assert(all[i] == writes[i]);
        let q = position_bytes(
            writes[i].store,
            writes[i].goods,
            writes[i].date,
            order_of(writes[i].op),
        );
        lemma_written_all_push(
            Snapshot::written(ops, q, writes[i].op, count_before(ops, q)),
            writes,
            w,
            i + 1,
        );
    } else {
        assert(all[i] == w);
        let q = position_bytes(w.store, w.goods, w.date, order_of(w.op));
        let next = Snapshot::written(ops, q, w.op, count_before(ops, q));
        assert(Snapshot::written_all(next, all, i + 1) == next);
        assert(Snapshot::written_all(ops, writes, i) == ops);
    }
}

/// The manager of operations and memos.
#[derive(Clone, Copy, Debug)]
pub struct OpsManager();

impl OpsManager {
    /// The operations at or after a position, in position order.
    pub fn ops_following(&self, s: &Snapshot, position: &Vec<u8>) -> (it: LightIterator<
        BalanceOperation,
    >)
        requires
            s.wf(),
        ensures
            exists|n: int|
                parts_at(s.operations(), position@, n) && it.rest() == s.operations().skip(n),
    {
        following_light(s, position)
    }

    /// The closest memo at or before a position, with its position.
    pub fn get_closest_light_value(&self, s: &Snapshot, position: Vec<u8>) -> (r: Option<
        (Vec<u8>, Balance),
    >)
        requires
            s.wf(),
        ensures
            r is Some <==> exists|j: int|
                0 <= j < s.values().len() && lex_le(#[trigger] s.values()[j].0, position@),
            r matches Some(x) ==> exists|j: int|
                0 <= j < s.values().len() && (#[trigger] s.values()[j]) == (x.0@, x.1) && lex_le(
                    x.0@,
                    position@,
                ) && forall|k: int|
                    j < k < s.values().len() ==> !lex_le(#[trigger] s.values()[k].0, position@),
    {
        let mut it: LightIterator<Balance> = preceding(s, position);
        let ghost all = it.rest();
        let r = it.next();
        proof {
            let n = choose|n: int|
                0 <= n <= s.values().len() && (forall|j: int|
                    0 <= j < n ==> lex_le(#[trigger] s.values()[j].0, position@)) && (forall|j: int|
                    n <= j < s.values().len() ==> !lex_le(#[trigger] s.values()[j].0, position@))
                    && all == s.values().take(n).reverse();
            if n > 0 {
                assert(all[0] == s.values()[n - 1]);
                assert(lex_le(s.values()[n - 1].0, position@));
            }
        }
        r
    }

    /// The closest memo at or before a position.
    pub fn get_closest_memo(&self, s: &Snapshot, position: Vec<u8>) -> (r: Option<Balance>)
        requires
            s.wf(),
        ensures
            r is Some <==> exists|j: int|
                0 <= j < s.values().len() && lex_le(#[trigger] s.values()[j].0, position@),
            r matches Some(b) ==> exists|j: int|
                0 <= j < s.values().len() && (#[trigger] s.values()[j]).1 == b && lex_le(
                    s.values()[j].0,
                    position@,
                ) && forall|k: int|
                    j < k < s.values().len() ==> !lex_le(#[trigger] s.values()[k].0, position@),
    {
        match self.get_closest_light_value(s, position) {
            Some((_, value)) => Some(value),
            None => None,
        }
    }

    /// The memos at or after a position, in position order.
    pub fn memos_after(&self, s: &Snapshot, position: &Vec<u8>) -> (it: LightIterator<Balance>)
        requires
            s.wf(),
        ensures
            exists|n: int| parts_at(s.values(), position@, n) && it.rest() == s.values().skip(n),
    {
        let n: usize = s.values.seek(position);
        let items: Vec<Record<Balance>> = s.values.slice(n, s.values.len());
        assert(s.values().subrange(n as int, s.values().len() as int) =~= s.values().skip(n as int));
        LightIterator::over(items)
    }

    /// The operations from `from` up to and including `till`, in position
    /// order.
    pub fn ops_between_light(&self, s: &Snapshot, from: Vec<u8>, till: Vec<u8>) -> (it:
        BetweenLightIterator<BalanceOperation>)
        requires
            s.wf(),
        ensures
            it.till() == till@,
            exists|n: int| parts_at(s.operations(), from@, n)
                && it.rest() == s.operations().skip(n),
    {
        let inner: LightIterator<BalanceOperation> = following_light(s, &from);
        BetweenLightIterator { inner, till }
    }

    /// The operations from `from` up to and including `till`, in position
    /// order, read back from position and value.
    pub fn ops_between_heavy(&self, s: &Snapshot, from: Vec<u8>, till: Vec<u8>) -> (it:
        BetweenHeavyIterator<BalanceOperation>)
        requires
            s.wf(),
        ensures
            it.till() == till@,
            exists|n: int| parts_at(s.operations(), from@, n)
                && it.rest() == s.operations().skip(n),
    {
        self.ops_between_light(s, from, till)
    }

    /// Writes the operations, one after the other, and keeps the memos in
    /// step. The first operation that cannot be written ends the writing;
    /// those before it stay written.
    pub fn write_ops(&self, s: &mut Snapshot, ops: &Vec<WarehouseOperation>) -> (r: Result<
        (),
        WHError,
    >)
        requires
            old(s).coherent(),
        ensures
            final(s).coherent(),
            final(s).stock() == old(s).stock(),
            r is Ok ==> final(s).operations() == Snapshot::written_all(
                old(s).operations(),
                ops@,
                0,
            ),
            r matches Err(e) ==> e.kind == ErrorKind::Capacity && exists|k: int| #[trigger]
                halted(old(s).operations(), final(s).operations(), final(s).values(), ops@, k),
            ops@.len() == 0 ==> final(s).values() == old(s).values(),
    {
        let mut i: usize = 0;
        proof {
            assert(ops@.take(0) =~= Seq::<WarehouseOperation>::empty());
        }
        while i < ops.len()
            invariant
                i <= ops@.len(),
                s.coherent(),
                s.stock() == old(s).stock(),
                s.operations() == Snapshot::written_all(
                    old(s).operations(),
                    ops@.take(i as int),
                    0,
                ),
                ops@.len() == 0 ==> s.values() == old(s).values(),
            decreases ops@.len() - i,
        {
            let q: Vec<u8> = ops[i].position();
            match s.write_op(&q, ops[i].op) {
                Ok(()) => {},
                Err(e) => {
                    assert(halted(old(s).operations(), s.operations(), s.values(), ops@, i as int));
                    return Err(e);
                },
            }
            proof {
                lemma_written_all_push(old(s).operations(), ops@.take(i as int), ops@[i as int], 0);
                assert(ops@.take(i as int).push(ops@[i as int]) =~= ops@.take(i + 1));
            }
            i = i + 1;
        }
        proof {
            assert(ops@.take(ops@.len() as int) =~= ops@);
        }
        Ok(())
    }
}

/// The length of a position in the topology of stock.
pub const STOCK_POSITION_LEN: usize = 56;

/// Whether the memo of stock at `p` is of the store and goods of the change at
/// `q` and stands at or after it.
pub open spec fn stock_follows(p: Seq<u8>, q: Seq<u8>) -> bool {
    &&& p.len() == STOCK_POSITION_LEN
    &&& q.len() == STOCK_POSITION_LEN
    &&& p.subrange(0, 32) == q.subrange(0, 32)
    &&& p.subrange(40, 56) == q.subrange(40, 56)
    &&& !lex_lt(p, q)
}

/// The memos of stock after those that follow the change at `q` take the
/// change.
pub open spec fn stock_changed(
    stock: Seq<(Seq<u8>, Balance)>,
    q: Seq<u8>,
    delta: (int, int),
) -> Seq<(Seq<u8>, Balance)> {
    Seq::new(
        stock.len(),
        |i: int|
            if stock_follows(stock[i].0, q) {
                (
                    stock[i].0,
                    Balance(
                        (stock[i].1.value().0 + delta.0) as i64,
                        (stock[i].1.value().1 + delta.1) as i64,
                    ),
                )
            } else {
                stock[i]
            },
    )
}

/// The memos of stock with the checkpoint at `c`: as they are where a memo
/// stands at `c`, else with the change as the memo at `c`.
pub open spec fn stock_checkpointed(
    stock: Seq<(Seq<u8>, Balance)>,
    c: Seq<u8>,
    delta: Balance,
) -> Seq<
    (Seq<u8>, Balance),
> {
    let i = count_before(stock, c);
    if i < stock.len() && stock[i].0 == c {
        stock
    } else {
        stock.insert(i, (c, delta))
    }
}

/// Whether every memo of stock that follows the change at `q` can take it.
pub open spec fn stock_takes(
    stock: Seq<(Seq<u8>, Balance)>,
    q: Seq<u8>,
    delta: (int, int),
) -> bool {
    forall|k: int|
        0 <= k < stock.len() && stock_follows((#[trigger] stock[k]).0, q) ==> fits(
            plus(stock[k].1.value(), delta),
        )
}

/// Whether the memo of stock at `p` follows the change at `q`.
fn follows_in_stock(p: &Vec<u8>, q: &Vec<u8>) -> (r: bool)
    ensures
        r == stock_follows(p@, q@),
{
    if p.len() != STOCK_POSITION_LEN || q.len() != STOCK_POSITION_LEN {
        return false;
    }
    let mut i: usize = 0;
    while i < STOCK_POSITION_LEN
        invariant
            i <= STOCK_POSITION_LEN,
            p@.len() == STOCK_POSITION_LEN,
            q@.len() == STOCK_POSITION_LEN,
            forall|j: int| 0 <= j < i && (j < 32 || j >= 40) ==> p@[j] == q@[j],
        decreases STOCK_POSITION_LEN - i,
    {
        if (i < 32 || i >= 40) && p[i] != q[i] {
            proof {
                if i < 32 {
                    assert(p@.subrange(0, 32)[i as int] == p@[i as int]);
                    assert(q@.subrange(0, 32)[i as int] == q@[i as int]);
                } else {
                    assert(p@.subrange(40, 56)[i - 40] == p@[i as int]);
                    assert(q@.subrange(40, 56)[i - 40] == q@[i as int]);
                }
            }
            return false;
        }
        i = i + 1;
    }
    assert(p@.subrange(0, 32) =~= q@.subrange(0, 32));
    assert(p@.subrange(40, 56) =~= q@.subrange(40, 56));
    !bytes_lt(p, q)
}

impl OpsManager {
    /// Takes a change of the stock of a store into the memos of stock: every
    /// memo of the store and goods at or after the change takes it, and the
    /// checkpoint of the month of the change is made, from the change alone,
    /// where there is none. Where the date is outside the calendar or a memo
    /// would leave the range that is kept, nothing is written.
    pub fn write_aggregation_delta(&self, s: &mut Snapshot, op: &WarehouseStockDelta) -> (r: Result<
        (),
        WHError,
    >)
        requires
            old(s).wf(),
        ensures
            final(s).wf(),
            final(s).operations() == old(s).operations(),
            final(s).values() == old(s).values(),
            r is Ok <==> checkpoint_date(op.date) is Some && stock_takes(
                old(s).stock(),
                stock_position_bytes(op.stock, op.goods, op.date),
                op.delta.value(),
            ),
            r is Ok ==> final(s).stock() == stock_checkpointed(
                stock_changed(
                    old(s).stock(),
                    stock_position_bytes(op.stock, op.goods, op.date),
                    op.delta.value(),
                ),
                stock_position_bytes(op.stock, op.goods, checkpoint_date(op.date).unwrap()),
                op.delta,
            ),
            r matches Err(e) ==> final(s).stock() == old(s).stock()
                && e.kind == (if checkpoint_date(
                op.date,
            ) is None {
                ErrorKind::Invalid
            } else {
                ErrorKind::Capacity
            }),
    {
        let q: Vec<u8> = op.position();
        let checkpoint: Vec<u8> = op.position_of_aggregation()?;
        let ghost stock0 = s.stock();
        let delta: Balance = op.delta();
        let n: usize = s.stock.len();
        let mut j: usize = 0;
        while j < n
            invariant
                j <= n,
                n == stock0.len(),
                s.stock() == s.stock.view(),
                s.stock() == stock0,
                stock0 == old(s).stock(),
                q@ == stock_position_bytes(op.stock, op.goods, op.date),
                checkpoint_date(op.date) is Some,
                delta == op.delta,
                s.operations() == old(s).operations(),
                s.values() == old(s).values(),
                s.wf(),
                forall|k: int|
                    0 <= k < j && stock_follows((#[trigger] stock0[k]).0, q@) ==> fits(
                        plus(stock0[k].1.value(), delta.value()),
                    ),
            decreases n - j,
        {
            let (p, memo) = s.stock.at(j);
            if follows_in_stock(p, &q) {
                match memo.apply_delta(&delta) {
                    Ok(_) => {},
                    Err(e) => {
                        proof {
                            assert(stock_follows(stock0[j as int].0, q@) && !fits(
                                plus(stock0[j as int].1.value(), delta.value()),
                            ));
                        }
                        return Err(e);
                    },
                }
            }
            j = j + 1;
        }
        let mut j: usize = 0;
        while j < n
            invariant
                j <= n,
                n == stock0.len(),
                s.stock() == s.stock.view(),
                s.operations() == old(s).operations(),
                s.values() == old(s).values(),
                s.wf(),
                s.stock().len() == n,
                stock_takes(stock0, q@, delta.value()),
                forall|k: int| 0 <= k < j ==> (#[trigger] s.stock()[k]) == stock_changed(
                    stock0,
                    q@,
                    delta.value(),
                )[k],
                forall|k: int| j <= k < n ==> (#[trigger] s.stock()[k]) == stock0[k],
            decreases n - j,
        {
            let (p, memo) = s.stock.at(j);
            if follows_in_stock(p, &q) {
                match memo.apply_delta(&delta) {
                    Ok(changed) => {
                        s.stock.set_at(j, changed);
                    },
                    Err(_) => {
                        assert(false);
                    },
                }
            }
            j = j + 1;
        }
        assert(s.stock() =~= stock_changed(stock0, q@, delta.value()));
        let i: usize = s.stock.seek(&checkpoint);
        proof {
            lemma_parts_at_count(s.stock(), checkpoint@, i as int);
        }
        if !s.stock.holds_at(i, &checkpoint) {
            s.stock.insert_at(i, &checkpoint, delta);
        }
        Ok(())
    }
}

} // verus!
