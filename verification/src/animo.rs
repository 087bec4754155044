//! Operations and memos under the positions of a topology, where a memo is
//! the balance at its position; and the registry of topologies.

pub mod ops_manager;
pub mod warehouse;

use crate::animo::ops_manager::{halted, OpsManager, Snapshot};
use crate::animo::warehouse::{
    movements, stock_after_all, stock_halted, WarehouseContext, WarehouseOperation,
    WarehouseStockTopology, WarehouseTopology,
};
use crate::error::{ErrorKind, WHError};
use vstd::prelude::*;

verus! {

/// A computed object, kept so that it need not be computed again.
#[derive(Debug)]
pub struct Memo<V> {
    object: V,
}

impl<V> Memo<V> {
    pub closed spec fn object(&self) -> V {
        self.object
    }

    pub fn new(object: V) -> (m: Self)
        ensures
            m.object() == object,
    {
        Memo { object }
    }

    pub fn value(&self) -> (v: &V)
        ensures
            *v == self.object(),
    {
        &self.object
    }
}

/// A list of memos.
#[derive(Debug)]
pub struct MemoOfList<V> {
    list: Vec<Memo<V>>,
}

impl<V> MemoOfList<V> {
    pub closed spec fn memos(&self) -> Seq<Memo<V>> {
        self.list@
    }

    pub fn new(list: Vec<Memo<V>>) -> (m: Self)
        ensures
            m.memos() == list@,
    {
        MemoOfList { list }
    }

    /// The memos, one after the other.
    pub fn iter(&self) -> (it: std::slice::Iter<'_, Memo<V>>)
        ensures
            vstd::std_specs::slice::into_iter_elts(it) == self.memos(),
    {
        broadcast use vstd::std_specs::slice::axiom_spec_slice_iter;

        let it = self.list.as_slice().iter();
        assert(self.list@.as_ref().unref() =~= self.list@);
        it
    }

    pub fn len(&self) -> (n: usize)
        ensures
            n == self.memos().len(),
    {
        self.list.len()
    }

    pub fn get(&self, index: usize) -> (r: Option<&Memo<V>>)
        ensures
            r is Some <==> index < self.memos().len(),
            r matches Some(m) ==> *m == self.memos()[index as int],
    {
        if index < self.list.len() {
            Some(&self.list[index])
        } else {
            None
        }
    }

    pub fn list(&self) -> (l: &Vec<Memo<V>>)
        ensures
            l@ == self.memos(),
    {
        &self.list
    }
}

/// The kinds of topology that can be registered.
#[derive(Clone, Copy, Debug, PartialEq, Eq, Structural, Hash)]
pub enum Topology {
    /// Operations on the stock of goods in stores.
    WarehouseStore,
    /// Aggregations over the operations on stores.
    WarehouseStoreAggregation,
}

/// The registry of topologies: which were registered, in order, and which
/// aggregations follow the operations of which topology.
#[derive(Debug)]
pub struct Animo {
    topologies: Vec<Topology>,
    op_to_topologies: Vec<(Topology, Topology)>,
}

impl Animo {
    /// The registered topologies, in the order of registration.
    pub closed spec fn registered(&self) -> Seq<Topology> {
        self.topologies@
    }

    /// The pairs of a topology and an aggregation that follows its
    /// operations.
    pub closed spec fn dependants(&self) -> Seq<(Topology, Topology)> {
        self.op_to_topologies@
    }

    pub fn new() -> (a: Animo)
        ensures
            a.registered() == Seq::<Topology>::empty(),
            a.dependants() == Seq::<(Topology, Topology)>::empty(),
    {
        Animo { topologies: Vec::new(), op_to_topologies: Vec::new() }
    }

    /// Registers a topology. An aggregation follows the operations of the
    /// topology that was registered first; where none was, it is refused and
    /// nothing changes.
    pub fn register_topology(&mut self, topology: Topology) -> (r: bool)
        ensures
            r == !(topology == Topology::WarehouseStoreAggregation && old(self).registered().len()
                == 0),
            r ==> final(self).registered() == old(self).registered().push(topology),
            r && topology
                == Topology::WarehouseStoreAggregation ==> final(self).dependants()
                == old(self).dependants().push((old(self).registered()[0], topology)),
            r && topology == Topology::WarehouseStore ==>
                final(self).dependants() == old(self).dependants(),
            !r ==> final(self).registered() == old(self).registered() && final(self).dependants()
                == old(self).dependants(),
    {
        match topology {
            Topology::WarehouseStore => {},
            Topology::WarehouseStoreAggregation => {
                if self.topologies.len() == 0 {
                    return false;
                }
                let first: Topology = self.topologies[0];
                self.op_to_topologies.push((first, topology));
            },
        }
        self.topologies.push(topology);
        true
    }

    /// The aggregations that follow the operations of a topology, in the
    /// order of registration.
    pub fn dependants_of(&self, topology: Topology) -> (r: Vec<Topology>)
        ensures
            r@ == followers(self.dependants(), topology, self.dependants().len() as int),
    {
        let mut r: Vec<Topology> = Vec::new();
        let mut i: usize = 0;
        while i < self.op_to_topologies.len()
            invariant
                i <= self.op_to_topologies@.len(),
                r@ == followers(self.op_to_topologies@, topology, i as int),
            decreases self.op_to_topologies@.len() - i,
        {
            if self.op_to_topologies[i].0 == topology {
                r.push(self.op_to_topologies[i].1);
            }
            i = i + 1;
        }
        r
    }
}

impl Animo {
    /// Whether the topology of operations on stores is registered.
    pub open spec fn stores(&self) -> bool {
        self.registered().contains(Topology::WarehouseStore)
    }

    /// Whether the aggregation over stores follows the topology of operations
    /// on stores.
    pub open spec fn aggregates(&self) -> bool {
        self.dependants().contains((Topology::WarehouseStore, Topology::WarehouseStoreAggregation))
    }

    /// Whether `topology` is registered.
    fn is_registered(&self, topology: Topology) -> (r: bool)
        ensures
            r == self.registered().contains(topology),
    {
        let mut i: usize = 0;
        while i < self.topologies.len()
            invariant
                i <= self.topologies@.len(),
                forall|k: int| 0 <= k < i ==> self.topologies@[k] != topology,
            decreases self.topologies@.len() - i,
        {
            if self.topologies[i] == topology {
                return true;
            }
            i = i + 1;
        }
        false
    }

    /// Whether `follower` follows the operations of `topology`.
    fn follows(&self, topology: Topology, follower: Topology) -> (r: bool)
        ensures
            r == self.dependants().contains((topology, follower)),
    {
        let mut i: usize = 0;
        while i < self.op_to_topologies.len()
            invariant
                i <= self.op_to_topologies@.len(),
                forall|k: int| 0 <= k < i ==> self.op_to_topologies@[k] != (topology, follower),
            decreases self.op_to_topologies@.len() - i,
        {
            if self.op_to_topologies[i].0 == topology && self.op_to_topologies[i].1 == follower {
                return true;
            }
            i = i + 1;
        }
        false
    }

    /// Pushes changed documents through the registered topologies: where the
    /// topology of operations on stores is registered, the movements that the
    /// documents describe are written; where the aggregation over stores
    /// follows it, every movement is then taken into the memos of stock. The
    /// first refusal ends the pushing; what was written before it stays.
    pub fn on_mutation(&self, s: &mut Snapshot, contexts: &Vec<WarehouseContext>) -> (r: Result<
        (),
        WHError,
    >)
        requires
            old(s).coherent(),
        ensures
            final(s).coherent(),
            !self.stores() ==> r is Ok
                && final(s).operations() == old(s).operations()
                && final(s).values() == old(s).values() && final(s).stock() == old(s).stock(),
            r is Ok && self.stores() ==> final(s).operations() == Snapshot::written_all(
                old(s).operations(),
                movements(contexts@, contexts@.len() as int),
                0,
            ),
            r is Ok && self.stores() && !self.aggregates() ==> final(s).stock() == old(s).stock(),
            r is Ok && self.stores() && self.aggregates() ==> final(s).stock() == stock_after_all(
                old(s).stock(),
                movements(contexts@, contexts@.len() as int),
                0,
            ),
            r matches Err(e) ==> self.stores() && (e.kind == ErrorKind::Capacity || e.kind
                == ErrorKind::Invalid) && ({
                ||| final(s).stock() == old(s).stock() && exists|k: int| #[trigger]
                    halted(
                        old(s).operations(),
                        final(s).operations(),
                        final(s).values(),
                        movements(contexts@, contexts@.len() as int),
                        k,
                    )
                ||| self.aggregates() && final(s).operations() == Snapshot::written_all(
                    old(s).operations(),
                    movements(contexts@, contexts@.len() as int),
                    0,
                ) && exists|k: int| #[trigger]
                    stock_halted(
                        old(s).stock(),
                        final(s).stock(),
                        movements(contexts@, contexts@.len() as int),
                        k,
                    )
            }),
    {
        if !self.is_registered(Topology::WarehouseStore) {
            return Ok(());
        }
        let ops: Vec<WarehouseOperation> = WarehouseTopology::resolve_all(contexts);
        OpsManager().write_ops(s, &ops)?;
        if self.follows(Topology::WarehouseStore, Topology::WarehouseStoreAggregation) {
            let stock = WarehouseStockTopology();
            let ghost written = s.operations();
            let mut i: usize = 0;
            proof {
                assert(ops@.take(0) =~= Seq::<WarehouseOperation>::empty());
            }
            while i < ops.len()
                invariant
                    i <= ops@.len(),
                    self.stores(),
                    self.aggregates(),
                    ops@ == movements(contexts@, contexts@.len() as int),
                    s.coherent(),
                    s.operations() == written,
                    written == Snapshot::written_all(old(s).operations(), ops@, 0),
                    s.stock() == stock_after_all(old(s).stock(), ops@.take(i as int), 0),
                decreases ops@.len() - i,
            {
                match stock.on_operation(s, ops[i]) {
                    Ok(()) => {},
                    Err(e) => {
                        assert(stock_halted(old(s).stock(), s.stock(), ops@, i as int));
                        return Err(e);
                    },
                }
                proof {
                    lemma_stock_after_push(old(s).stock(), ops@.take(i as int), ops@[i as int], 0);
                    assert(ops@.take(i as int).push(ops@[i as int]) =~= ops@.take(i + 1));
                }
                i = i + 1;
            }
            proof {
                assert(ops@.take(ops@.len() as int) =~= ops@);
            }
        }
        Ok(())
    }
}

/// Taking one more movement into the memos of stock after the others.
pub proof fn lemma_stock_after_push(
    stock: Seq<(Seq<u8>, crate::animo::warehouse::Balance)>,
    ops: Seq<WarehouseOperation>,
    op: WarehouseOperation,
    i: int,
)
    requires
        0 <= i <= ops.len(),
    ensures
        stock_after_all(stock, ops.push(op), i) == crate::animo::warehouse::stock_after(
            stock_after_all(stock, ops, i),
            op,
        ),
    decreases ops.len() - i,
{
    let all = ops.push(op);
    if i < ops.len() {
        assert(all[i] == ops[i]);
        lemma_stock_after_push(crate::animo::warehouse::stock_after(stock, ops[i]), ops, op, i + 1);
    } else {
        assert(all[i] == op);
        let next = crate::animo::warehouse::stock_after(stock, op);
        assert(stock_after_all(next, all, i + 1) == next);
        assert(stock_after_all(stock, ops, i) == stock);
    }
}

/// Among the first `n` pairs, what follows `topology`.
pub open spec fn followers(pairs: Seq<(Topology, Topology)>, topology: Topology, n: int) -> Seq<
    Topology,
>
    decreases n,
{
    if n <= 0 {
        Seq::empty()
    } else if pairs[n - 1].0 == topology {
        followers(pairs, topology, n - 1).push(pairs[n - 1].1)
    } else {
        followers(pairs, topology, n - 1)
    }
}

} // verus!
