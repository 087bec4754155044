//! The data model: goods, stores, batches, operations and balances.

use vstd::prelude::*;

verus! {

/// A physical location, by its 128-bit identity.
pub type Store = u128;

/// A kind of goods, by its 128-bit identity.
pub type Goods = u128;

/// A quantity, as a whole number of the smallest unit that is kept.
pub type Qty = i64;

/// An amount of money, as a whole number of the smallest unit that is kept.
pub type Cost = i64;

/// A pair of quantity and cost as unbounded numbers: what balances and deltas
/// denote.
pub struct Amount {
    pub qty: int,
    pub cost: int,
}

impl Amount {
    pub open spec fn zero() -> Amount {
        Amount { qty: 0, cost: 0 }
    }

    pub open spec fn plus(self, other: Amount) -> Amount {
        Amount { qty: self.qty + other.qty, cost: self.cost + other.cost }
    }

    pub open spec fn minus(self, other: Amount) -> Amount {
        Amount { qty: self.qty - other.qty, cost: self.cost - other.cost }
    }

    pub open spec fn neg(self) -> Amount {
        Amount { qty: -self.qty, cost: -self.cost }
    }

    /// Both components can be kept in a stored balance.
    pub open spec fn fits(self) -> bool {
        &&& i64::MIN <= self.qty <= i64::MAX
        &&& i64::MIN <= self.cost <= i64::MAX
    }
}

/// A receipt-scoped lot of goods: the identity of the receipt and the instant
/// at which it was received.
#[derive(Clone, Copy, Debug, PartialEq, Eq, Structural, Hash)]
pub struct Batch {
    pub id: u128,
    pub date: u64,
}

impl Batch {
    /// The unspecified batch: both components zero.
    pub fn no() -> (b: Batch)
        ensures
            b == (Batch { id: 0, date: 0 }),
            b.is_empty_spec(),
    {
        Batch { id: 0, date: 0 }
    }

    pub open spec fn is_empty_spec(self) -> bool {
        self.id == 0 && self.date == 0
    }

    /// Whether this is the unspecified batch.
    pub fn is_empty(&self) -> (r: bool)
        ensures
            r == self.is_empty_spec(),
    {
        self.id == 0 && self.date == 0
    }
}

/// The policy of an issue: `Auto` must find a batch, `Manual` may drive the
/// balance negative.
#[derive(Clone, Copy, Debug, PartialEq, Eq, Structural)]
pub enum Mode {
    Auto,
    Manual,
}

/// One stock movement.
#[derive(Clone, Copy, Debug, PartialEq, Eq, Structural)]
pub enum InternalOperation {
    Receive(Qty, Cost),
    Issue(Qty, Cost, Mode),
    Transfer(Qty, Cost),
}

impl InternalOperation {
    pub open spec fn qty_spec(self) -> Qty {
        match self {
            InternalOperation::Receive(q, _) => q,
            InternalOperation::Issue(q, _, _) => q,
            InternalOperation::Transfer(q, _) => q,
        }
    }

    pub open spec fn cost_spec(self) -> Cost {
        match self {
            InternalOperation::Receive(_, c) => c,
            InternalOperation::Issue(_, c, _) => c,
            InternalOperation::Transfer(_, c) => c,
        }
    }

    /// Whether the movement adds to the balance of the place it is written
    /// under. A transfer takes from the store of its own record and adds to the
    /// store of its dependent record.
    pub open spec fn incoming(self, is_dependent: bool) -> bool {
        match self {
            InternalOperation::Receive(_, _) => true,
            InternalOperation::Issue(_, _, _) => false,
            InternalOperation::Transfer(_, _) => is_dependent,
        }
    }

    /// The signed change of balance that the movement makes.
    pub open spec fn delta(self, is_dependent: bool) -> Amount {
        if self.incoming(is_dependent) {
            Amount { qty: self.qty_spec() as int, cost: self.cost_spec() as int }
        } else {
            Amount { qty: -(self.qty_spec() as int), cost: -(self.cost_spec() as int) }
        }
    }

    /// The tiebreaker inside one instant: what comes in sorts before what goes
    /// out.
    pub open spec fn order(self, is_dependent: bool) -> u8 {
        if self.incoming(is_dependent) {
            0
        } else {
            0xff
        }
    }

    pub fn qty(&self) -> (q: Qty)
        ensures
            q == self.qty_spec(),
    {
        match self {
            InternalOperation::Receive(q, _) => *q,
            InternalOperation::Issue(q, _, _) => *q,
            InternalOperation::Transfer(q, _) => *q,
        }
    }

    pub fn cost(&self) -> (c: Cost)
        ensures
            c == self.cost_spec(),
    {
        match self {
            InternalOperation::Receive(_, c) => *c,
            InternalOperation::Issue(_, c, _) => *c,
            InternalOperation::Transfer(_, c) => *c,
        }
    }

    /// Whether the movement carries no quantity.
    pub fn is_zero(&self) -> (r: bool)
        ensures
            r == (self.qty_spec() == 0),
    {
        self.qty() == 0
    }

    pub fn is_receive(&self) -> (r: bool)
        ensures
            r == (self is Receive),
    {
        match self {
            InternalOperation::Receive(_, _) => true,
            _ => false,
        }
    }

    pub fn is_issue(&self) -> (r: bool)
        ensures
            r == (self is Issue),
    {
        match self {
            InternalOperation::Issue(_, _, _) => true,
            _ => false,
        }
    }

    pub fn is_transfer(&self) -> (r: bool)
        ensures
            r == (self is Transfer),
    {
        match self {
            InternalOperation::Transfer(_, _) => true,
            _ => false,
        }
    }
}

/// A signed change of balance. Wide enough for the negation of any quantity
/// and for the sum of as many operations as a vector can hold.
#[derive(Clone, Copy, Debug, PartialEq, Eq, Structural)]
pub struct BalanceDelta {
    pub qty: i128,
    pub cost: i128,
}

impl BalanceDelta {
    pub open spec fn amount(self) -> Amount {
        Amount { qty: self.qty as int, cost: self.cost as int }
    }

    pub fn zero() -> (d: BalanceDelta)
        ensures
            d.amount() == Amount::zero(),
    {
        BalanceDelta { qty: 0, cost: 0 }
    }

    pub fn is_zero(&self) -> (r: bool)
        ensures
            r == (self.amount() == Amount::zero()),
    {
        self.qty == 0 && self.cost == 0
    }
}

/// Stock of one kind of goods: how much, and what it cost.
#[derive(Clone, Copy, Debug, PartialEq, Eq, Structural)]
pub struct BalanceForGoods {
    pub qty: Qty,
    pub cost: Cost,
}

impl BalanceForGoods {
    pub open spec fn amount(self) -> Amount {
        Amount { qty: self.qty as int, cost: self.cost as int }
    }

    pub fn zero() -> (b: BalanceForGoods)
        ensures
            b.amount() == Amount::zero(),
    {
        BalanceForGoods { qty: 0, cost: 0 }
    }

    pub fn is_zero(&self) -> (r: bool)
        ensures
            r == (self.amount() == Amount::zero()),
    {
        self.qty == 0 && self.cost == 0
    }

    /// The balance after the movement, where it can be kept.
    pub fn apply(&self, op: &InternalOperation, is_dependent: bool) -> (r: Option<BalanceForGoods>)
        ensures
            r is Some <==> self.amount().plus(op.delta(is_dependent)).fits(),
            r matches Some(b) ==> b.amount() == self.amount().plus(op.delta(is_dependent)),
    {
        let d: BalanceDelta = delta_of(op, is_dependent);
        self.add_delta(&d)
    }

    /// The balance after the movement is taken back, where it can be kept.
    pub fn unapply(&self, op: &InternalOperation, is_dependent: bool) -> (r: Option<
        BalanceForGoods,
    >)
        ensures
            r is Some <==> self.amount().minus(op.delta(is_dependent)).fits(),
            r matches Some(b) ==> b.amount() == self.amount().minus(op.delta(is_dependent)),
    {
        let d: BalanceDelta = delta_of(op, is_dependent);
        let back: BalanceDelta = BalanceDelta { qty: -d.qty, cost: -d.cost };
        self.add_delta(&back)
    }

    /// The balance changed by `d`, where it can be kept.
    pub fn add_delta(&self, d: &BalanceDelta) -> (r: Option<BalanceForGoods>)
        requires
            -0x1_0000_0000_0000_0000 <= d.qty <= 0x1_0000_0000_0000_0000,
            -0x1_0000_0000_0000_0000 <= d.cost <= 0x1_0000_0000_0000_0000,
        ensures
            r is Some <==> self.amount().plus(d.amount()).fits(),
            r matches Some(b) ==> b.amount() == self.amount().plus(d.amount()),
    {
        let q: i128 = self.qty as i128 + d.qty;
        let c: i128 = self.cost as i128 + d.cost;
        if q < i64::MIN as i128 || q > i64::MAX as i128 || c < i64::MIN as i128 || c
            > i64::MAX as i128 {
            None
        } else {
            Some(BalanceForGoods { qty: q as i64, cost: c as i64 })
        }
    }
}

/// The signed change of balance that a movement makes.
pub fn delta_of(op: &InternalOperation, is_dependent: bool) -> (d: BalanceDelta)
    ensures
        d.amount() == op.delta(is_dependent),
        -0x8000_0000_0000_0000 <= d.qty <= 0x8000_0000_0000_0000,
        -0x8000_0000_0000_0000 <= d.cost <= 0x8000_0000_0000_0000,
{
    let incoming: bool = match op {
        InternalOperation::Receive(_, _) => true,
        InternalOperation::Issue(_, _, _) => false,
        InternalOperation::Transfer(_, _) => is_dependent,
    };
    if incoming {
        BalanceDelta { qty: op.qty() as i128, cost: op.cost() as i128 }
    } else {
        BalanceDelta { qty: -(op.qty() as i128), cost: -(op.cost() as i128) }
    }
}

/// Where a generated operation was written: the coordinates by which it is
/// found again from its parent.
#[derive(Clone, Copy, Debug, PartialEq, Eq, Structural)]
pub struct Dependant {
    pub store: Store,
    pub batch: Batch,
    pub op_order: u8,
}

impl Dependant {
    pub fn tuple(&self) -> (r: (Store, Batch, u8))
        ensures
            r == (self.store, self.batch, self.op_order),
    {
        (self.store, self.batch, self.op_order)
    }
}

/// A stock operation as it is stored.
#[derive(Debug)]
pub struct Op {
    pub id: u128,
    pub date: u64,
    pub store: Store,
    pub goods: Goods,
    pub batch: Batch,
    pub op: InternalOperation,
    /// Set on operations that the processor generated from a parent.
    pub is_dependent: bool,
    /// The operations generated from this one.
    pub dependant: Vec<Dependant>,
}

/// What an [`Op`] holds, as a mathematical value.
pub struct OpView {
    pub id: u128,
    pub date: u64,
    pub store: Store,
    pub goods: Goods,
    pub batch: Batch,
    pub op: InternalOperation,
    pub is_dependent: bool,
    pub dependant: Seq<Dependant>,
}

impl OpView {
    pub open spec fn delta(self) -> Amount {
        self.op.delta(self.is_dependent)
    }

    pub open spec fn order(self) -> u8 {
        self.op.order(self.is_dependent)
    }

    /// Whether the operation is on the given store, goods and batch.
    pub open spec fn on(self, store: Store, goods: Goods, batch: Batch) -> bool {
        self.store == store && self.goods == goods && self.batch == batch
    }
}

impl View for Op {
    type V = OpView;

    open spec fn view(&self) -> OpView {
        OpView {
            id: self.id,
            date: self.date,
            store: self.store,
            goods: self.goods,
            batch: self.batch,
            op: self.op,
            is_dependent: self.is_dependent,
            dependant: self.dependant@,
        }
    }
}

impl Op {
    /// The tiebreaker inside one instant: receipts sort before issues.
    pub fn op_order(&self) -> (r: u8)
        ensures
            r == self@.order(),
    {
        let incoming: bool = match self.op {
            InternalOperation::Receive(_, _) => true,
            InternalOperation::Issue(_, _, _) => false,
            InternalOperation::Transfer(_, _) => self.is_dependent,
        };
        if incoming {
            0
        } else {
            0xff
        }
    }

    pub fn is_receive(&self) -> (r: bool)
        ensures
            r == (self.op is Receive),
    {
        self.op.is_receive()
    }

    pub fn is_issue(&self) -> (r: bool)
        ensures
            r == (self.op is Issue),
    {
        self.op.is_issue()
    }

    /// The signed change of balance that the operation makes.
    pub fn to_delta(&self) -> (d: BalanceDelta)
        ensures
            d.amount() == self@.delta(),
            -0x8000_0000_0000_0000 <= d.qty <= 0x8000_0000_0000_0000,
            -0x8000_0000_0000_0000 <= d.cost <= 0x8000_0000_0000_0000,
    {
        delta_of(&self.op, self.is_dependent)
    }

    /// A copy of the operation.
    pub fn duplicate(&self) -> (r: Op)
        ensures
            r@ == self@,
    {
        let mut dependant: Vec<Dependant> = Vec::new();
        let mut i: usize = 0;
        while i < self.dependant.len()
            invariant
                i <= self.dependant@.len(),
                dependant@ == self.dependant@.subrange(0, i as int),
            decreases self.dependant@.len() - i,
        {
            dependant.push(self.dependant[i]);
            assert(dependant@ =~= self.dependant@.subrange(0, i + 1));
            i = i + 1;
        }
        assert(self.dependant@.subrange(0, self.dependant@.len() as int) =~= self.dependant@);
        Op {
            id: self.id,
            date: self.date,
            store: self.store,
            goods: self.goods,
            batch: self.batch,
            op: self.op,
            is_dependent: self.is_dependent,
            dependant,
        }
    }

    /// Whether two operations hold the same values.
    pub fn same(&self, other: &Op) -> (r: bool)
        ensures
            r == (self@ == other@),
    {
        if !(self.id == other.id && self.date == other.date && self.store == other.store
            && self.goods == other.goods && self.batch == other.batch && self.op == other.op
            && self.is_dependent == other.is_dependent && self.dependant.len()
            == other.dependant.len()) {
            return false;
        }
        let mut i: usize = 0;
        while i < self.dependant.len()
            invariant
                i <= self.dependant@.len(),
                self.dependant@.len() == other.dependant@.len(),
                forall|j: int| 0 <= j < i ==> self.dependant@[j] == other.dependant@[j],
            decreases self.dependant@.len() - i,
        {
            if self.dependant[i] != other.dependant[i] {
                return false;
            }
            i = i + 1;
        }
        assert(self.dependant@ =~= other.dependant@);
        true
    }
}

/// A change to one operation: what it was before and what it is after.
#[derive(Clone, Copy, Debug, PartialEq, Eq, Structural)]
pub struct OpMutation {
    pub id: u128,
    pub date: u64,
    pub store: Store,
    /// The receiving store of a transfer.
    pub transfer: Option<Store>,
    pub goods: Goods,
    pub batch: Batch,
    pub before: Option<InternalOperation>,
    pub after: Option<InternalOperation>,
}

impl OpMutation {
    pub fn new(
        id: u128,
        date: u64,
        store: Store,
        transfer: Option<Store>,
        goods: Goods,
        batch: Batch,
        before: Option<InternalOperation>,
        after: Option<InternalOperation>,
    ) -> (m: OpMutation)
        ensures
            m == (OpMutation { id, date, store, transfer, goods, batch, before, after }),
    {
        OpMutation { id, date, store, transfer, goods, batch, before, after }
    }

    /// The operation that the mutation writes under its own store: none of its
    /// generated operations.
    pub open spec fn op_of(self, op: InternalOperation) -> OpView {
        OpView {
            id: self.id,
            date: self.date,
            store: self.store,
            goods: self.goods,
            batch: self.batch,
            op,
            is_dependent: false,
            dependant: match (op, self.transfer) {
                (InternalOperation::Transfer(_, _), Some(into)) => seq![
                    Dependant { store: into, batch: self.batch, op_order: 0 },
                ],
                _ => Seq::empty(),
            },
        }
    }

    /// The receiving side of a transfer.
    pub open spec fn transfer_in_of(self, op: InternalOperation, into: Store) -> OpView {
        OpView {
            id: self.id,
            date: self.date,
            store: into,
            goods: self.goods,
            batch: self.batch,
            op,
            is_dependent: true,
            dependant: Seq::empty(),
        }
    }

    /// The operation that stands after the mutation, or the one that stood
    /// before it where nothing stands after.
    pub open spec fn to_op_spec(self) -> Option<OpView> {
        match self.after {
            Some(a) => Some(self.op_of(a)),
            None => match self.before {
                Some(b) => Some(self.op_of(b)),
                None => None,
            },
        }
    }

    /// Builds the stored form of `op` under the mutation's coordinates.
    pub fn make_op(&self, op: InternalOperation) -> (r: Op)
        ensures
            r@ == self.op_of(op),
    {
        let mut dependant: Vec<Dependant> = Vec::new();
        if op.is_transfer() {
            if let Some(into) = self.transfer {
                dependant.push(Dependant { store: into, batch: self.batch, op_order: 0 });
                assert(dependant@ =~= seq![
                    Dependant { store: into, batch: self.batch, op_order: 0 },
                ]);
            }
        }
        Op {
            id: self.id,
            date: self.date,
            store: self.store,
            goods: self.goods,
            batch: self.batch,
            op,
            is_dependent: false,
            dependant,
        }
    }

    /// Builds the receiving side of a transfer.
    pub fn make_transfer_in(&self, op: InternalOperation, into: Store) -> (r: Op)
        ensures
            r@ == self.transfer_in_of(op, into),
    {
        Op {
            id: self.id,
            date: self.date,
            store: into,
            goods: self.goods,
            batch: self.batch,
            op,
            is_dependent: true,
            dependant: Vec::new(),
        }
    }

    /// The operation that stands after the mutation, or the one that stood
    /// before it where nothing stands after.
    pub fn to_op(&self) -> (r: Option<Op>)
        ensures
            r is Some <==> self.to_op_spec() is Some,
            r matches Some(o) ==> self.to_op_spec() == Some(o@),
    {
        match self.after {
            Some(a) => Some(self.make_op(a)),
            None => match self.before {
                Some(b) => Some(self.make_op(b)),
                None => None,
            },
        }
    }

    /// Whether the mutation leaves an issue behind.
    pub fn is_issue(&self) -> (r: bool)
        ensures
            r == (self.after matches Some(a) && a is Issue),
    {
        match self.after {
            Some(a) => a.is_issue(),
            None => false,
        }
    }
}

/// Stock of one kind of goods of one batch in one store on a date: a
/// checkpoint, or a balance projected from one.
#[derive(Clone, Copy, Debug, PartialEq, Eq, Structural)]
pub struct Balance {
    pub date: u64,
    pub store: Store,
    pub goods: Goods,
    pub batch: Batch,
    pub number: BalanceForGoods,
}

} // verus!
