//! Stock of goods in stores as a topology of positions: what an operation
//! is, what a balance is, and where both stand.

use crate::animo::ops_manager::{
    halted, stock_changed, stock_checkpointed, stock_takes, tsum, OpsManager, PREFIX_LEN,
    Snapshot,
};
use crate::bytes::{
    be_bytes, first_diff, lemma_be_bytes_len, lemma_lex_lt_concat, lex_le, lex_lt, push_be,
    ts_to_bytes,
};
use crate::elements::{Cost, Qty};
use crate::error::{ErrorKind, WHError};
use crate::ids::push_id;
use crate::time::{checkpoint_date, next_checkpoint};
use vstd::prelude::*;

verus! {

/// An identity.
pub type ID = u128;

/// An instant, as whole seconds since 1970-01-01T00:00:00Z.
pub type Time = u64;

/// Money.
pub type Money = Cost;

/// The kind of document that receives goods.
pub const GOODS_RECEIVE: ID = 0x676f_6f64_735f_7265_6365_6976_6500_0000;

/// The kind of document that issues goods.
pub const GOODS_ISSUE: ID = 0x676f_6f64_735f_6973_7375_6500_0000_0000;

/// A movement of stock: in or out.
#[derive(Clone, Copy, Debug, PartialEq, Eq, Structural)]
pub enum BalanceOperation {
    In(Qty, Money),
    Out(Qty, Money),
}

/// Stock: how much, and what it cost.
#[derive(Clone, Copy, Debug, PartialEq, Eq, Structural)]
pub struct Balance(pub Qty, pub Money);

impl BalanceOperation {
    /// The change of balance that the movement makes.
    pub open spec fn value(self) -> (int, int) {
        match self {
            BalanceOperation::In(q, c) => (q as int, c as int),
            BalanceOperation::Out(q, c) => (-(q as int), -(c as int)),
        }
    }

    /// The movement of a document of the given kind.
    pub fn new(instance_of: ID, qty: Qty, cost: Money) -> (r: Result<BalanceOperation, WHError>)
        ensures
            instance_of == GOODS_RECEIVE ==> r == Ok::<BalanceOperation, WHError>(
                BalanceOperation::In(qty, cost),
            ),
            instance_of == GOODS_ISSUE ==> r == Ok::<BalanceOperation, WHError>(
                BalanceOperation::Out(qty, cost),
            ),
            instance_of != GOODS_RECEIVE && instance_of != GOODS_ISSUE ==> (r matches Err(e)
                && e.kind == ErrorKind::Invalid),
    {
        if instance_of == GOODS_RECEIVE {
            Ok(BalanceOperation::In(qty, cost))
        } else if instance_of == GOODS_ISSUE {
            Ok(BalanceOperation::Out(qty, cost))
        } else {
            Err(WHError::new(ErrorKind::Invalid, "unknown type"))
        }
    }

    /// The balance after the movement, from nothing.
    pub fn delta_after_operation(&self) -> (r: Result<Balance, WHError>)
        ensures
            r is Ok <==> fits(self.value()),
            r matches Ok(b) ==> b.value() == self.value(),
            r matches Err(e) ==> e.kind == ErrorKind::Capacity,
    {
        Balance(0, 0).apply(self)
    }

    /// What has to be added to a balance that holds this movement so that it
    /// holds `other` in its place.
    pub fn delta_between_operations(&self, other: &BalanceOperation) -> (r: Result<
        Balance,
        WHError,
    >)
        ensures
            r is Ok <==> fits(minus(other.value(), self.value())),
            r matches Ok(b) ==> b.value() == minus(other.value(), self.value()),
            r matches Err(e) ==> e.kind == ErrorKind::Capacity,
    {
        let (lq, lc) = signed(self);
        let (rq, rc) = signed(other);
        narrow(rq - lq, rc - lc)
    }
}

/// The signed numbers of a movement.
fn signed(op: &BalanceOperation) -> (r: (i128, i128))
    ensures
        (r.0 as int, r.1 as int) == op.value(),
        -0x8000_0000_0000_0000 <= r.0 <= 0x8000_0000_0000_0000,
        -0x8000_0000_0000_0000 <= r.1 <= 0x8000_0000_0000_0000,
{
    match op {
        BalanceOperation::In(q, c) => (*q as i128, *c as i128),
        BalanceOperation::Out(q, c) => (-(*q as i128), -(*c as i128)),
    }
}

/// The balance with the given numbers, where they can be kept.
fn narrow(qty: i128, cost: i128) -> (r: Result<Balance, WHError>)
    ensures
        r is Ok <==> fits((qty as int, cost as int)),
        r matches Ok(b) ==> b.value() == (qty as int, cost as int),
        r matches Err(e) ==> e.kind == ErrorKind::Capacity,
{
    if qty < i64::MIN as i128 || qty > i64::MAX as i128 || cost < i64::MIN as i128 || cost
        > i64::MAX as i128 {
        Err(WHError::new(ErrorKind::Capacity, "balance out of range"))
    } else {
        Ok(Balance(qty as i64, cost as i64))
    }
}

/// Whether both numbers can be kept in a balance.
pub open spec fn fits(v: (int, int)) -> bool {
    i64::MIN <= v.0 <= i64::MAX && i64::MIN <= v.1 <= i64::MAX
}

pub open spec fn plus(a: (int, int), b: (int, int)) -> (int, int) {
    (a.0 + b.0, a.1 + b.1)
}

pub open spec fn minus(a: (int, int), b: (int, int)) -> (int, int) {
    (a.0 - b.0, a.1 - b.1)
}

impl Balance {
    pub open spec fn value(self) -> (int, int) {
        (self.0 as int, self.1 as int)
    }

    /// The balance changed by a delta.
    pub fn apply_delta(&self, other: &Balance) -> (r: Result<Balance, WHError>)
        ensures
            r is Ok <==> fits(plus(self.value(), other.value())),
            r matches Ok(b) ==> b.value() == plus(self.value(), other.value()),
            r matches Err(e) ==> e.kind == ErrorKind::Capacity,
    {
        narrow(self.0 as i128 + other.0 as i128, self.1 as i128 + other.1 as i128)
    }

    /// The balance after a movement.
    pub fn apply(&self, op: &BalanceOperation) -> (r: Result<Balance, WHError>)
        ensures
            r is Ok <==> fits(plus(self.value(), op.value())),
            r matches Ok(b) ==> b.value() == plus(self.value(), op.value()),
            r matches Err(e) ==> e.kind == ErrorKind::Capacity,
    {
        let (q, c) = signed(op);
        narrow(self.0 as i128 + q, self.1 as i128 + c)
    }

    /// The sum of two balances.
    pub fn add(&self, other: &Balance) -> (r: Result<Balance, WHError>)
        ensures
            r is Ok <==> fits(plus(self.value(), other.value())),
            r matches Ok(b) ==> b.value() == plus(self.value(), other.value()),
            r matches Err(e) ==> e.kind == ErrorKind::Capacity,
    {
        self.apply_delta(other)
    }
}

/// A movement of the stock of one kind of goods in one store at an instant.
#[derive(Clone, Copy, Debug, PartialEq, Eq, Structural)]
pub struct WarehouseOperation {
    pub store: ID,
    pub goods: ID,
    pub date: Time,
    pub op: BalanceOperation,
}

impl WarehouseOperation {
    /// The movement that a document describes: of the given kind, on a store
    /// and goods, dated, with a quantity and a cost.
    pub fn resolve(instance_of: ID, store: ID, goods: ID, date: Time, qty: Qty, cost: Money) -> (r:
        Result<WarehouseOperation, WHError>)
        ensures
            r is Ok <==> (instance_of == GOODS_RECEIVE || instance_of == GOODS_ISSUE),
            r matches Ok(w) ==> w.store == store && w.goods == goods && w.date == date && w.op == (
            if instance_of == GOODS_RECEIVE {
                BalanceOperation::In(qty, cost)
            } else {
                BalanceOperation::Out(qty, cost)
            }),
            r matches Err(e) ==> e.kind == ErrorKind::Invalid,
    {
        let op: BalanceOperation = BalanceOperation::new(instance_of, qty, cost)?;
        Ok(WarehouseOperation { store, goods, date, op })
    }

    /// Where the movement stands among the operations.
    pub fn position(&self) -> (r: Vec<u8>)
        ensures
            r@ == position_bytes(self.store, self.goods, self.date, order_of(self.op)),
    {
        WarehouseTopology::position_of_operation(self.store, self.goods, self.date, self.op)
    }
}

/// What a movement changes in the stock of a store.
#[derive(Clone, Copy, Debug, PartialEq, Eq, Structural)]
pub struct WarehouseStockDelta {
    pub stock: ID,
    pub goods: ID,
    pub date: Time,
    pub delta: Balance,
}

impl WarehouseStockDelta {
    /// The change that a movement makes.
    pub fn from(op: WarehouseOperation) -> (r: Result<WarehouseStockDelta, WHError>)
        ensures
            r is Ok <==> fits(op.op.value()),
            r matches Ok(d) ==> d.stock == op.store && d.goods == op.goods && d.date == op.date
                && d.delta.value() == op.op.value(),
            r matches Err(e) ==> e.kind == ErrorKind::Capacity,
    {
        let delta: Balance = op.op.delta_after_operation()?;
        Ok(WarehouseStockDelta { stock: op.store, goods: op.goods, date: op.date, delta })
    }

    /// Where the change stands in the topology of stock.
    pub fn position(&self) -> (r: Vec<u8>)
        ensures
            r@ == stock_position_bytes(self.stock, self.goods, self.date),
    {
        WarehouseStock::local_topology_position(self.stock, self.goods, self.date)
    }

    /// Where the checkpoint of the change stands in the topology of stock.
    pub fn position_of_aggregation(&self) -> (r: Result<Vec<u8>, WHError>)
        ensures
            r is Ok <==> checkpoint_date(self.date) is Some,
            r matches Ok(p) ==> p@ == stock_position_bytes(
                self.stock,
                self.goods,
                checkpoint_date(self.date).unwrap(),
            ),
            r matches Err(e) ==> e.kind == ErrorKind::Invalid,
    {
        WarehouseStock::local_topology_position_of_aggregation(self.stock, self.goods, self.date)
    }

    pub fn delta(&self) -> (b: Balance)
        ensures
            b == self.delta,
    {
        self.delta
    }
}

/// The stock of one kind of goods in one store at an instant.
#[derive(Clone, Copy, Debug, PartialEq, Eq, Structural)]
pub struct WarehouseStock {
    pub stock: ID,
    pub goods: ID,
    pub time: Time,
    pub balance: Balance,
}

/// The prefix of the positions of the topology of stock.
pub const STOCK_TOPOLOGY: ID = 0x5761_7265_686f_7573_6553_746f_636b_0000;

/// A position in the topology of stock: `prefix | store | time | goods`.
pub open spec fn stock_position_bytes(store: ID, goods: ID, time: Time) -> Seq<u8> {
    be_bytes(STOCK_TOPOLOGY as nat, 16) + be_bytes(store as nat, 16) + be_bytes(time as nat, 8)
        + be_bytes(goods as nat, 16)
}

/// The prefix of the positions of the topology of operations.
pub const WH_TOPOLOGY: ID = 0x5761_7265_686f_7573_654f_7073_0000_0000;

/// A position in the topology of operations:
/// `prefix | store | goods | time | order`.
pub open spec fn position_bytes(store: ID, goods: ID, time: Time, order: u8) -> Seq<u8> {
    be_bytes(WH_TOPOLOGY as nat, 16) + be_bytes(store as nat, 16) + be_bytes(goods as nat, 16)
        + be_bytes(time as nat, 8) + seq![order]
}

/// The byte that orders the movements of one instant: what comes in stands
/// before what goes out.
pub open spec fn order_of(op: BalanceOperation) -> u8 {
    match op {
        BalanceOperation::In(_, _) => u8::MIN,
        BalanceOperation::Out(_, _) => u8::MAX,
    }
}

/// At one instant of one store and goods, what comes in stands before what
/// goes out, and neither stands after the position of the balance.
pub proof fn lemma_in_before_out(
    store: ID,
    goods: ID,
    time: Time,
    a: BalanceOperation,
    b: BalanceOperation,
)
    requires
        a is In,
        b is Out,
    ensures
        lex_lt(
            position_bytes(store, goods, time, order_of(a)),
            position_bytes(store, goods, time, order_of(b)),
        ),
        lex_le(
            position_bytes(store, goods, time, order_of(a)),
            position_bytes(store, goods, time, 0xff),
        ),
        lex_le(
            position_bytes(store, goods, time, order_of(b)),
            position_bytes(store, goods, time, 0xff),
        ),
{
    let h = be_bytes(WH_TOPOLOGY as nat, 16) + be_bytes(store as nat, 16) + be_bytes(
        goods as nat,
        16,
    ) + be_bytes(time as nat, 8);
    let lo = seq![0u8];
    let hi = seq![0xffu8];
    assert(first_diff(lo, hi, 0));
    assert(lex_lt(lo, hi)) by {
        reveal(lex_lt);
    }
    lemma_lex_lt_concat(h, lo, h, hi);
}

impl WarehouseStock {
    /// The stock that is stored under a position.
    pub fn load(stock: ID, goods: ID, time: Time, balance: Balance) -> (r: WarehouseStock)
        ensures
            r == (WarehouseStock { stock, goods, time, balance }),
    {
        WarehouseStock { stock, goods, time, balance }
    }

    /// The instant of the checkpoint that holds `time`: `time` itself where it
    /// is the first instant of a month, else the first instant of the next
    /// month.
    pub fn next_checkpoint(time: Time) -> (r: Result<Time, WHError>)
        ensures
            r is Ok <==> checkpoint_date(time) is Some,
            r matches Ok(v) ==> checkpoint_date(time) == Some(v),
            r matches Err(e) ==> e.kind == ErrorKind::Invalid,
    {
        next_checkpoint(time)
    }

    /// Where the checkpoint that holds `time` stands.
    pub fn local_topology_position_of_aggregation(store: ID, goods: ID, time: Time) -> (r: Result<
        Vec<u8>,
        WHError,
    >)
        ensures
            r is Ok <==> checkpoint_date(time) is Some,
            r matches Ok(p) ==> p@ == stock_position_bytes(
                store,
                goods,
                checkpoint_date(time).unwrap(),
            ),
            r matches Err(e) ==> e.kind == ErrorKind::Invalid,
    {
        let checkpoint: Time = WarehouseStock::next_checkpoint(time)?;
        Ok(WarehouseStock::local_topology_position(store, goods, checkpoint))
    }

    /// Where the stock of a store and goods at an instant stands.
    pub fn local_topology_position(store: ID, goods: ID, time: Time) -> (r: Vec<u8>)
        ensures
            r@ == stock_position_bytes(store, goods, time),
    {
        let mut bs: Vec<u8> = Vec::new();
        push_id(&mut bs, STOCK_TOPOLOGY);
        push_id(&mut bs, store);
        push_be(&mut bs, time as u128, 8);
        push_id(&mut bs, goods);
        assert(bs@ =~= stock_position_bytes(store, goods, time));
        bs
    }
}

/// The topology of the operations on stores.
#[derive(Clone, Copy, Debug, PartialEq, Eq, Structural, Hash)]
pub struct WarehouseTopology();

impl WarehouseTopology {
    /// Where a movement stands: inside one instant, what comes in stands
    /// before what goes out.
    pub fn position_of_operation(store: ID, goods: ID, time: Time, op: BalanceOperation) -> (r:
        Vec<u8>)
        ensures
            r@ == position_bytes(store, goods, time, order_of(op)),
    {
        let b: u8 = match op {
            BalanceOperation::In(_, _) => u8::MIN,
            BalanceOperation::Out(_, _) => u8::MAX,
        };
        WarehouseTopology::position(store, goods, time, b)
    }

    /// The lowest position of a store and goods: no movement stands before it.
    pub fn topology_position_of_zero(store: ID, goods: ID) -> (r: Vec<u8>)
        ensures
            r@ == position_bytes(store, goods, 0, 0),
    {
        WarehouseTopology::position(store, goods, u64::MIN, u8::MIN)
    }

    /// The position of the balance of a store and goods at an instant: no
    /// movement of that instant stands after it.
    pub fn local_topology_position_of_memo(store: ID, goods: ID, time: Time) -> (r: Vec<u8>)
        ensures
            r@ == position_bytes(store, goods, time, 0xff),
    {
        WarehouseTopology::position(store, goods, time, u8::MAX)
    }

    fn position(store: ID, goods: ID, time: Time, order: u8) -> (r: Vec<u8>)
        ensures
            r@ == position_bytes(store, goods, time, order),
    {
        let mut bs: Vec<u8> = Vec::new();
        push_id(&mut bs, WH_TOPOLOGY);
        push_id(&mut bs, store);
        push_id(&mut bs, goods);
        let t: [u8; 8] = ts_to_bytes(time);
        let mut i: usize = 0;
        proof {
            lemma_be_bytes_len(time as nat, 8);
        }
        while i < 8
            invariant
                i <= 8,
                t@ == be_bytes(time as nat, 8),
                t@.len() == 8,
                bs@ == be_bytes(WH_TOPOLOGY as nat, 16) + be_bytes(store as nat, 16) + be_bytes(
                    goods as nat,
                    16,
                ) + t@.subrange(0, i as int),
            decreases 8 - i,
        {
            bs.push(t[i]);
            assert(bs@ =~= be_bytes(WH_TOPOLOGY as nat, 16) + be_bytes(store as nat, 16)
                + be_bytes(goods as nat, 16) + t@.subrange(0, i + 1));
            i = i + 1;
        }
        assert(t@.subrange(0, 8) =~= t@);
        bs.push(order);
        assert(bs@ =~= position_bytes(store, goods, time, order));
        bs
    }
}

/// What a document says of a movement of goods.
#[derive(Clone, Copy, Debug, PartialEq, Eq, Structural)]
pub struct WarehouseContext {
    pub instance_of: ID,
    pub store: ID,
    pub goods: ID,
    pub date: Time,
    pub qty: Qty,
    pub cost: Money,
}

/// The property that names the kind of a document.
pub const SPECIFIC_OF: ID = 0x7370_6563_6966_6963_2d6f_6600_0000_0000;

/// The property that names the store.
pub const STORE: ID = 0x7374_6f72_6500_0000_0000_0000_0000_0000;

/// The property that names the goods.
pub const GOODS: ID = 0x676f_6f64_7300_0000_0000_0000_0000_0000;

/// The property that holds the date.
pub const DATE: ID = 0x6461_7465_0000_0000_0000_0000_0000_0000;

/// The property that holds the quantity.
pub const QTY: ID = 0x7174_7900_0000_0000_0000_0000_0000_0000;

/// The property that holds the cost.
pub const COST: ID = 0x636f_7374_0000_0000_0000_0000_0000_0000;

/// The movements among the first `n` documents: those that receive or issue
/// goods, in their order.
pub open spec fn movements(contexts: Seq<WarehouseContext>, n: int) -> Seq<WarehouseOperation>
    decreases n,
{
    if n <= 0 {
        Seq::empty()
    } else {
        let c = contexts[n - 1];
        if c.instance_of == GOODS_RECEIVE {
            movements(contexts, n - 1).push(
                WarehouseOperation {
                    store: c.store,
                    goods: c.goods,
                    date: c.date,
                    op: BalanceOperation::In(c.qty, c.cost),
                },
            )
        } else if c.instance_of == GOODS_ISSUE {
            movements(contexts, n - 1).push(
                WarehouseOperation {
                    store: c.store,
                    goods: c.goods,
                    date: c.date,
                    op: BalanceOperation::Out(c.qty, c.cost),
                },
            )
        } else {
            movements(contexts, n - 1)
        }
    }
}

impl WarehouseTopology {
    /// The properties on which the operations of the topology depend.
    pub fn depends_on(&self) -> (r: Vec<ID>)
        ensures
            r@ == seq![SPECIFIC_OF, STORE, DATE, GOODS, QTY, COST],
    {
        let mut r: Vec<ID> = Vec::new();
        r.push(SPECIFIC_OF);
        r.push(STORE);
        r.push(DATE);
        r.push(GOODS);
        r.push(QTY);
        r.push(COST);
        assert(r@ =~= seq![SPECIFIC_OF, STORE, DATE, GOODS, QTY, COST]);
        r
    }

    /// The movements that changed documents describe: only documents that
    /// receive or issue goods count.
    pub fn resolve_all(contexts: &Vec<WarehouseContext>) -> (r: Vec<WarehouseOperation>)
        ensures
            r@ == movements(contexts@, contexts@.len() as int),
    {
        let mut r: Vec<WarehouseOperation> = Vec::new();
        let mut i: usize = 0;
        while i < contexts.len()
            invariant
                i <= contexts@.len(),
                r@ == movements(contexts@, i as int),
            decreases contexts@.len() - i,
        {
            let c: WarehouseContext = contexts[i];
            match WarehouseOperation::resolve(
                c.instance_of,
                c.store,
                c.goods,
                c.date,
                c.qty,
                c.cost,
            ) {
                Ok(w) => {
                    r.push(w);
                },
                Err(_) => {},
            }
            i = i + 1;
        }
        r
    }

    /// Writes the movements that changed documents describe, and keeps the
    /// memos in step.
    pub fn on_mutation(&self, s: &mut Snapshot, contexts: &Vec<WarehouseContext>) -> (r: Result<
        (),
        WHError,
    >)
        requires
            old(s).coherent(),
        ensures
            final(s).coherent(),
            r is Ok ==> final(s).operations() == Snapshot::written_all(
                old(s).operations(),
                movements(contexts@, contexts@.len() as int),
                0,
            ),
            r matches Err(e) ==> e.kind == ErrorKind::Capacity && exists|k: int| #[trigger]
                halted(
                    old(s).operations(),
                    final(s).operations(),
                    final(s).values(),
                    movements(contexts@, contexts@.len() as int),
                    k,
                ),
            final(s).stock() == old(s).stock(),
            movements(contexts@, contexts@.len() as int).len() == 0 ==> r is Ok && final(s).values()
                == old(s).values(),
    {
        let ops: Vec<WarehouseOperation> = WarehouseTopology::resolve_all(contexts);
        OpsManager().write_ops(s, &ops)
    }
}

/// The balance of one kind of goods in one store at an instant.
#[derive(Clone, Copy, Debug, PartialEq, Eq, Structural)]
pub struct WarehouseBalance {
    pub store: ID,
    pub goods: ID,
    pub date: Time,
    pub balance: Balance,
}

impl WarehouseBalance {
    pub fn value(&self) -> (b: Balance)
        ensures
            b == self.balance,
    {
        self.balance
    }

    /// Where the balance stands.
    pub fn position(&self) -> (r: Vec<u8>)
        ensures
            r@ == position_bytes(self.store, self.goods, self.date, 0xff),
    {
        WarehouseTopology::local_topology_position_of_memo(self.store, self.goods, self.date)
    }

    /// The balance of a store and goods at an instant: the sum of the
    /// operations of the store and goods at or before the position of the
    /// memo of that instant. The balance is kept as that memo.
    pub fn get_memo(s: &mut Snapshot, store: ID, goods: ID, time: Time) -> (r: Result<
        Balance,
        WHError,
    >)
        requires
            old(s).coherent(),
        ensures
            final(s).coherent(),
            final(s).operations() == old(s).operations(),
            r is Ok <==> fits(
                tsum(
                    old(s).operations(),
                    position_bytes(store, goods, time, 0xff),
                    old(s).operations().len() as int,
                ),
            ),
            r matches Ok(b) ==> b.value() == tsum(
                old(s).operations(),
                position_bytes(store, goods, time, 0xff),
                old(s).operations().len() as int,
            ),
            r matches Err(e) ==> e.kind == ErrorKind::Capacity
                && final(s).values() == old(s).values(),
    {
        let position: Vec<u8> = WarehouseTopology::local_topology_position_of_memo(
            store,
            goods,
            time,
        );
        s.memo_at(&position)
    }
}

impl WarehouseStock {
    /// The stock of a store and goods at an instant: the balance at that
    /// instant.
    pub fn get_memo(s: &mut Snapshot, store: ID, goods: ID, time: Time) -> (r: Result<
        Balance,
        WHError,
    >)
        requires
            old(s).coherent(),
        ensures
            final(s).coherent(),
            final(s).operations() == old(s).operations(),
            r is Ok <==> fits(
                tsum(
                    old(s).operations(),
                    position_bytes(store, goods, time, 0xff),
                    old(s).operations().len() as int,
                ),
            ),
            r matches Ok(b) ==> b.value() == tsum(
                old(s).operations(),
                position_bytes(store, goods, time, 0xff),
                old(s).operations().len() as int,
            ),
            r matches Err(e) ==> e.kind == ErrorKind::Capacity
                && final(s).values() == old(s).values(),
    {
        WarehouseBalance::get_memo(s, store, goods, time)
    }
}

/// The opening balance, the net movement and the closing balance of a
/// period.
#[derive(Clone, Copy, Debug, PartialEq, Eq, Structural)]
pub struct Movements {
    pub open: Balance,
    pub ops: BalanceOperation,
    pub close: Balance,
}

/// The movements of a store over a period.
#[derive(Debug)]
pub struct WarehouseMovements {
    pub position: Vec<u8>,
    pub movements: Movements,
}

/// The movements of one kind of goods in a store over a period.
#[derive(Debug)]
pub struct WarehouseItemsMovements {
    pub position: Vec<u8>,
    pub movements: Movements,
}

/// A change of one operation: what it was before and what it is after.
#[derive(Clone, Copy, Debug, PartialEq, Eq, Structural)]
pub struct DeltaOp {
    pub before: Option<WarehouseOperation>,
    pub after: Option<WarehouseOperation>,
}

impl DeltaOp {
    pub fn new(before: Option<WarehouseOperation>, after: Option<WarehouseOperation>) -> (d: DeltaOp)
        ensures
            d == (DeltaOp { before, after }),
    {
        DeltaOp { before, after }
    }

    /// What the change adds to a balance: what stands after less what stood
    /// before.
    pub open spec fn value(self) -> (int, int) {
        minus(
            match self.after {
                Some(a) => a.op.value(),
                None => (0, 0),
            },
            match self.before {
                Some(b) => b.op.value(),
                None => (0, 0),
            },
        )
    }

    /// What the change adds to a balance.
    pub fn delta(&self) -> (r: Result<Balance, WHError>)
        requires
            self.before is Some || self.after is Some,
        ensures
            r is Ok <==> fits(self.value()),
            r matches Ok(b) ==> b.value() == self.value(),
            r matches Err(e) ==> e.kind == ErrorKind::Capacity,
    {
        let (bq, bc) = match self.before {
            Some(b) => signed(&b.op),
            None => (0, 0),
        };
        let (aq, ac) = match self.after {
            Some(a) => signed(&a.op),
            None => (0, 0),
        };
        narrow(aq - bq, ac - bc)
    }

    /// How many bytes of the position name the store and goods of the change.
    pub fn prefix(&self) -> (r: usize)
        requires
            self.before is Some || self.after is Some,
        ensures
            r == PREFIX_LEN,
    {
        PREFIX_LEN
    }

    /// Where the change stands: where what stands after it stands, else where
    /// what stood before it stood.
    pub fn position(&self) -> (r: Vec<u8>)
        requires
            self.before is Some || self.after is Some,
        ensures
            r@ == (match self.after {
                Some(a) => position_bytes(a.store, a.goods, a.date, order_of(a.op)),
                None => position_bytes(
                    self.before.unwrap().store,
                    self.before.unwrap().goods,
                    self.before.unwrap().date,
                    order_of(self.before.unwrap().op),
                ),
            }),
    {
        match self.after {
            Some(a) => a.position(),
            None => match self.before {
                Some(b) => b.position(),
                None => Vec::new(),
            },
        }
    }
}

/// The balance with the given numbers.
pub open spec fn as_balance(v: (int, int)) -> Balance {
    Balance(v.0 as i64, v.1 as i64)
}

/// Whether the memos of stock can take a movement: what it changes is in
/// the range that is kept, its date has a checkpoint, and every memo that
/// follows it stays in the range with the change.
pub open spec fn stock_accepts(stock: Seq<(Seq<u8>, Balance)>, op: WarehouseOperation) -> bool {
    &&& fits(op.op.value())
    &&& checkpoint_date(op.date) is Some
    &&& stock_takes(stock, stock_position_bytes(op.store, op.goods, op.date), op.op.value())
}

/// Taking `writes` one after the other into the memos of stock `before` has
/// come to `now` with `writes[..k]` taken, and `now` cannot take `writes[k]`.
pub open spec fn stock_halted(
    before: Seq<(Seq<u8>, Balance)>,
    now: Seq<(Seq<u8>, Balance)>,
    writes: Seq<WarehouseOperation>,
    k: int,
) -> bool {
    &&& 0 <= k < writes.len()
    &&& now == stock_after_all(before, writes.take(k), 0)
    &&& !stock_accepts(now, writes[k])
}

/// The memos of stock after a movement is taken into them.
pub open spec fn stock_after(stock: Seq<(Seq<u8>, Balance)>, op: WarehouseOperation) -> Seq<
    (Seq<u8>, Balance),
> {
    stock_checkpointed(
        stock_changed(stock, stock_position_bytes(op.store, op.goods, op.date), op.op.value()),
        stock_position_bytes(op.store, op.goods, checkpoint_date(op.date).unwrap()),
        as_balance(op.op.value()),
    )
}

/// The memos of stock after the movements `ops[i..]` are taken into them, one
/// after the other.
pub open spec fn stock_after_all(
    stock: Seq<(Seq<u8>, Balance)>,
    ops: Seq<WarehouseOperation>,
    i: int,
) -> Seq<(Seq<u8>, Balance)>
    decreases ops.len() - i,
{
    if i < 0 || i >= ops.len() {
        stock
    } else {
        stock_after_all(stock_after(stock, ops[i]), ops, i + 1)
    }
}

/// The topology of the stock of stores: memos of stock that follow the
/// operations of the topology of operations.
#[derive(Clone, Copy, Debug, PartialEq, Eq, Structural, Hash)]
pub struct WarehouseStockTopology();

impl WarehouseStockTopology {
    /// Takes what a movement changes into the memos of stock.
    pub fn on_operation(&self, s: &mut Snapshot, op: WarehouseOperation) -> (r: Result<(), WHError>)
        requires
            old(s).wf(),
        ensures
            final(s).wf(),
            final(s).operations() == old(s).operations(),
            final(s).values() == old(s).values(),
            r is Ok <==> stock_accepts(old(s).stock(), op),
            r is Ok ==> final(s).stock() == stock_after(old(s).stock(), op),
            r matches Err(e) ==> final(s).stock() == old(s).stock() && e.kind == (if fits(
                op.op.value(),
            ) && checkpoint_date(op.date) is None {
                ErrorKind::Invalid
            } else {
                ErrorKind::Capacity
            }),
    {
        let delta: WarehouseStockDelta = WarehouseStockDelta::from(op)?;
        assert(delta.delta == as_balance(op.op.value()));
        OpsManager().write_aggregation_delta(s, &delta)
    }
}

} // verus!
