//! The aggregation engine: from dated opening balances and operations in key
//! order to what was there at the start of a period, what came in, what went
//! out, and what is there at its end, for every store, goods and batch.

use crate::balances::{place_of, Place};
use crate::elements::{
    delta_of, Amount, Balance, BalanceDelta, Batch, Goods, InternalOperation, Op, OpView, Store,
};
use crate::error::{ErrorKind, WHError};
use crate::topologies::date_type_store_batch_id::op_views;
use vstd::prelude::*;

verus! {

/// Which operations a sum takes: those on a place, dated inside `[lo, hi]`,
/// and, where a direction is given, going that way.
pub struct Sel {
    pub at: Place,
    pub lo: int,
    pub hi: int,
    pub incoming: Option<bool>,
}

/// What an operation adds to a sum: its delta where the sum takes it, else
/// nothing.
pub open spec fn pick(o: OpView, sel: Sel) -> Amount {
    if place_of(o) == sel.at && sel.lo <= o.date <= sel.hi && (sel.incoming matches Some(d)
        ==> o.op.incoming(o.is_dependent) == d) {
        o.delta()
    } else {
        Amount::zero()
    }
}

/// The sum of the deltas of those of the first `n` operations that the sum
/// takes.
pub open spec fn selsum(ops: Seq<OpView>, sel: Sel, n: int) -> Amount
    decreases n,
{
    if n <= 0 {
        Amount::zero()
    } else {
        selsum(ops, sel, n - 1).plus(pick(ops[n - 1], sel))
    }
}

/// The place of a balance.
pub open spec fn balance_place(b: Balance) -> Place {
    Place { store: b.store, goods: b.goods, batch: b.batch }
}

/// The first of the first `n` balances that is on the place.
pub open spec fn cover(balances: Seq<Balance>, at: Place, n: int) -> Option<Balance>
    decreases n,
{
    if n <= 0 {
        None
    } else {
        match cover(balances, at, n - 1) {
            Some(b) => Some(b),
            None => if balance_place(balances[n - 1]) == at {
                Some(balances[n - 1])
            } else {
                None
            },
        }
    }
}

/// The first date from which operations are not yet part of the opening
/// balance of the place.
pub open spec fn uncovered_from(c: Option<Balance>) -> int {
    match c {
        Some(b) => b.date + 1,
        None => 0,
    }
}

/// What the opening balance of the place holds before any operation is
/// replayed.
pub open spec fn cover_amount(c: Option<Balance>) -> Amount {
    match c {
        Some(b) => b.number.amount(),
        None => Amount::zero(),
    }
}

pub open spec fn later(a: int, b: int) -> int {
    if a >= b {
        a
    } else {
        b
    }
}

/// The places of the first `nb` balances, each once, in the order in which
/// they first occur.
pub open spec fn balance_places(balances: Seq<Balance>, nb: int) -> Seq<Place>
    decreases nb,
{
    if nb <= 0 {
        Seq::empty()
    } else {
        let rest = balance_places(balances, nb - 1);
        if rest.contains(balance_place(balances[nb - 1])) {
            rest
        } else {
            rest.push(balance_place(balances[nb - 1]))
        }
    }
}

/// The places of the first `nb` balances and the first `no` operations, each
/// once, in the order in which they first occur.
pub open spec fn places(balances: Seq<Balance>, nb: int, ops: Seq<OpView>, no: int) -> Seq<Place>
    decreases no,
{
    if no <= 0 {
        balance_places(balances, nb)
    } else {
        let rest = places(balances, nb, ops, no - 1);
        if rest.contains(place_of(ops[no - 1])) {
            rest
        } else {
            rest.push(place_of(ops[no - 1]))
        }
    }
}

/// The movements of one store, goods and batch over a period.
#[derive(Clone, Copy, Debug, PartialEq, Eq, Structural)]
pub struct AgregationStoreGoods {
    pub store: Option<Store>,
    pub goods: Option<Goods>,
    pub batch: Option<Batch>,
    /// What was there right before the period.
    pub open_balance: BalanceDelta,
    /// What came in during the period.
    pub receive: BalanceDelta,
    /// What went out during the period, as negative numbers.
    pub issue: BalanceDelta,
    /// What is there at the end of the period.
    pub close_balance: BalanceDelta,
}

/// The costs of a period, rolled up over every goods and batch.
#[derive(Clone, Copy, Debug, PartialEq, Eq, Structural)]
pub struct AgregationStore {
    pub store: Option<Store>,
    pub open_balance: i128,
    pub receive: i128,
    pub issue: i128,
    pub close_balance: i128,
}

/// A period report.
#[derive(Debug)]
pub struct Report {
    pub from_date: u64,
    pub till_date: u64,
    pub items: (AgregationStore, Vec<AgregationStoreGoods>),
}

/// The opening balance of a place in front of a period that begins at `from`:
/// the first balance given for the place and the operations after it that are
/// dated before `from`.
pub open spec fn open_of(
    balances: Seq<Balance>,
    ops: Seq<OpView>,
    at: Place,
    from: u64,
    no: int,
) -> Amount {
    let c = cover(balances, at, balances.len() as int);
    cover_amount(c).plus(
        selsum(ops, Sel { at, lo: uncovered_from(c), hi: from - 1, incoming: None }, no),
    )
}

/// What came in (`incoming`) or went out on a place from `from` on, among the
/// operations that its opening balance does not hold already.
pub open spec fn moved_of(
    balances: Seq<Balance>,
    ops: Seq<OpView>,
    at: Place,
    from: u64,
    incoming: bool,
    no: int,
) -> Amount {
    let c = cover(balances, at, balances.len() as int);
    selsum(
        ops,
        Sel {
            at,
            lo: later(uncovered_from(c), from as int),
            hi: u64::MAX as int,
            incoming: Some(incoming),
        },
        no,
    )
}

/// The line of a report for one place.
pub open spec fn item_of(balances: Seq<Balance>, ops: Seq<OpView>, at: Place, from: u64) -> (
    Option<Store>,
    Option<Goods>,
    Option<Batch>,
    Amount,
    Amount,
    Amount,
    Amount,
) {
    let n = ops.len() as int;
    let open = open_of(balances, ops, at, from, n);
    let receive = moved_of(balances, ops, at, from, true, n);
    let issue = moved_of(balances, ops, at, from, false, n);
    (
        Some(at.store),
        Some(at.goods),
        Some(at.batch),
        open,
        receive,
        issue,
        open.plus(receive).plus(issue),
    )
}

/// What a line of a report holds.
pub open spec fn line(a: AgregationStoreGoods) -> (
    Option<Store>,
    Option<Goods>,
    Option<Batch>,
    Amount,
    Amount,
    Amount,
    Amount,
) {
    (
        a.store,
        a.goods,
        a.batch,
        a.open_balance.amount(),
        a.receive.amount(),
        a.issue.amount(),
        a.close_balance.amount(),
    )
}

/// The sum, over the first `n` lines, of one of their costs: 0 for the opening
/// balance, 1 for what came in, 2 for what went out, 3 for the closing
/// balance.
pub open spec fn cost_total(items: Seq<AgregationStoreGoods>, which: int, n: int) -> int
    decreases n,
{
    if n <= 0 {
        0
    } else {
        cost_total(items, which, n - 1) + (if which == 0 {
            items[n - 1].open_balance.cost as int
        } else if which == 1 {
            items[n - 1].receive.cost as int
        } else if which == 2 {
            items[n - 1].issue.cost as int
        } else {
            items[n - 1].close_balance.cost as int
        })
    }
}

/// The most operations, and the most balances, that one report takes.
///
/// A report keeps its sums in 128 bits. One line adds up the amounts of up to
/// all the operations, 64 bits each, and the totals add up one line for every
/// balance and operation. Below this limit none of these sums can leave 128
/// bits, so a report is either refused before it starts or exact.
pub const MAX_REPORT_INPUT: usize = 0x0fff_ffff;

/// One line while it is summed up.
struct Line {
    store: Store,
    goods: Goods,
    batch: Batch,
    covered: bool,
    cover_date: u64,
    open: BalanceDelta,
    receive: BalanceDelta,
    issue: BalanceDelta,
}

impl Line {
    spec fn at(self) -> Place {
        Place { store: self.store, goods: self.goods, batch: self.batch }
    }

    spec fn first_free(self) -> int {
        if self.covered {
            self.cover_date + 1
        } else {
            0
        }
    }

    /// The line holds the sums of its place over the given balances and the
    /// first `no` operations.
    spec fn sums(
        self,
        balances: Seq<Balance>,
        nb: int,
        ops: Seq<OpView>,
        from: u64,
        no: int,
    ) -> bool {
        let c = cover(balances, self.at(), nb);
        &&& self.covered == (c is Some)
        &&& self.covered ==> self.cover_date == c.unwrap().date
        &&& self.first_free() == uncovered_from(c)
        &&& self.open.amount() == cover_amount(c).plus(
            selsum(
                ops,
                Sel { at: self.at(), lo: uncovered_from(c), hi: from - 1, incoming: None },
                no,
            ),
        )
        &&& self.receive.amount() == selsum(
            ops,
            Sel {
                at: self.at(),
                lo: later(uncovered_from(c), from as int),
                hi: u64::MAX as int,
                incoming: Some(true),
            },
            no,
        )
        &&& self.issue.amount() == selsum(
            ops,
            Sel {
                at: self.at(),
                lo: later(uncovered_from(c), from as int),
                hi: u64::MAX as int,
                incoming: Some(false),
            },
            no,
        )
    }

    /// No sum of the line is larger than `k` operations and one balance can
    /// make it.
    spec fn bounded(self, k: int) -> bool {
        &&& -(k + 1) * 0x8000_0000_0000_0000 <= self.open.qty <= (k + 1) * 0x8000_0000_0000_0000
        &&& -(k + 1) * 0x8000_0000_0000_0000 <= self.open.cost <= (k + 1) * 0x8000_0000_0000_0000
        &&& -(k + 1) * 0x8000_0000_0000_0000 <= self.receive.qty <= (k + 1) * 0x8000_0000_0000_0000
        &&& -(k + 1) * 0x8000_0000_0000_0000 <= self.receive.cost <= (k + 1) * 0x8000_0000_0000_0000
        &&& -(k + 1) * 0x8000_0000_0000_0000 <= self.issue.qty <= (k + 1) * 0x8000_0000_0000_0000
        &&& -(k + 1) * 0x8000_0000_0000_0000 <= self.issue.cost <= (k + 1) * 0x8000_0000_0000_0000
    }
}

spec fn line_places(lines: Seq<Line>) -> Seq<Place> {
    Seq::new(lines.len(), |i: int| lines[i].at())
}

spec fn distinct(lines: Seq<Line>) -> bool {
    forall|i: int, j: int| 0 <= i < j < lines.len() ==>
        (#[trigger] lines[i]).at() != (#[trigger] lines[j]).at()
}

/// A place that has a first balance is among the places.
proof fn lemma_cover_listed(balances: Seq<Balance>, at: Place, nb: int, ops: Seq<OpView>, no: int)
    requires
        0 <= nb <= balances.len(),
        0 <= no <= ops.len(),
        cover(balances, at, nb) is Some,
    ensures
        places(balances, nb, ops, no).contains(at),
    decreases no, nb,
{
    if no > 0 {
        lemma_cover_listed(balances, at, nb, ops, no - 1);
        let rest = places(balances, nb, ops, no - 1);
        let i = choose|i: int| 0 <= i < rest.len() && rest[i] == at;
        if !rest.contains(place_of(ops[no - 1])) {
            assert(rest.push(place_of(ops[no - 1]))[i] == at);
        }
    } else {
        let rest = balance_places(balances, nb - 1);
        assert(places(balances, nb - 1, ops, 0) == rest);
        if cover(balances, at, nb - 1) is Some {
            lemma_cover_listed(balances, at, nb - 1, ops, 0);
            let i = choose|i: int| 0 <= i < rest.len() && rest[i] == at;
            if !rest.contains(balance_place(balances[nb - 1])) {
                assert(rest.push(balance_place(balances[nb - 1]))[i] == at);
            }
        } else {
            assert(balance_place(balances[nb - 1]) == at);
            if !rest.contains(at) {
                assert(rest.push(at)[rest.len() as int] == at);
            }
        }
    }
}

/// The line of a place, where there is one.
fn find_line(lines: &Vec<Line>, store: Store, goods: Goods, batch: Batch) -> (r: Option<usize>)
    ensures
        r is Some <==> line_places(lines@).contains(Place { store, goods, batch }),
        r matches Some(j) ==> j < lines@.len()
            && lines@[j as int].at() == (Place { store, goods, batch }),
{
    let mut j: usize = 0;
    while j < lines.len()
        invariant
            j <= lines@.len(),
            forall|k: int| 0 <= k < j ==>
                (#[trigger] lines@[k]).at() != (Place { store, goods, batch }),
        decreases lines@.len() - j,
    {
        if lines[j].store == store && lines[j].goods == goods && lines[j].batch == batch {
            assert(line_places(lines@)[j as int] == (Place { store, goods, batch }));
            return Some(j);
        }
        j = j + 1;
    }
    proof {
        if line_places(lines@).contains(Place { store, goods, batch }) {
            let k = choose|k: int|
                0 <= k < line_places(lines@).len() && line_places(lines@)[k] == (Place {
                    store,
                    goods,
                    batch,
                });
            assert(lines@[k].at() == (Place { store, goods, batch }));
        }
    }
    None
}

/// The lines of the first balance of every place.
fn open_lines(
    balances: &Vec<Balance>,
    Ghost(ops): Ghost<Seq<OpView>>,
    Ghost(from): Ghost<u64>,
) -> (lines:
    Vec<Line>)
    ensures
        line_places(lines@) == places(balances@, balances@.len() as int, ops, 0),
        lines@.len() <= balances@.len(),
        distinct(lines@),
        forall|j: int|
            0 <= j < lines@.len() ==> (#[trigger] lines@[j]).sums(
                balances@,
                balances@.len() as int,
                ops,
                from,
                0,
            ) && lines@[j].bounded(0),
{
    let mut lines: Vec<Line> = Vec::new();
    let mut i: usize = 0;
    assert(line_places(lines@) =~= places(balances@, 0, ops, 0));
    while i < balances.len()
        invariant
            i <= balances@.len(),
            line_places(lines@) == places(balances@, i as int, ops, 0),
            lines@.len() <= i,
            distinct(lines@),
            forall|j: int|
                0 <= j < lines@.len() ==> (#[trigger] lines@[j]).sums(
                    balances@,
                    i as int,
                    ops,
                    from,
                    0,
                )
                    && lines@[j].bounded(0) && lines@[j].covered,
        decreases balances@.len() - i,
    {
        let b: Balance = balances[i];
        let ghost before = lines@;
        match find_line(&lines, b.store, b.goods, b.batch) {
            Some(_) => {},
            None => {
                let fresh: Line = Line {
                    store: b.store,
                    goods: b.goods,
                    batch: b.batch,
                    covered: true,
                    cover_date: b.date,
                    open: BalanceDelta { qty: b.number.qty as i128, cost: b.number.cost as i128 },
                    receive: BalanceDelta { qty: 0, cost: 0 },
                    issue: BalanceDelta { qty: 0, cost: 0 },
                };
                proof {
                    let at = balance_place(b);
                    if cover(balances@, at, i as int) is Some {
                        lemma_cover_listed(balances@, at, i as int, ops, 0);
                    }
                }
                lines.push(fresh);
                proof {
                    assert(line_places(lines@) =~= line_places(before).push(balance_place(b)));
                    assert forall|x: int, y: int| 0 <= x < y < lines@.len() implies (
                    #[trigger] lines@[x]).at() != (#[trigger] lines@[y]).at() by {
                        if y == before.len() {
                            assert(line_places(before)[x] == before[x].at());
                        }
                    }
                }
            },
        }
        proof {
            assert forall|j: int| 0 <= j < lines@.len() implies (#[trigger] lines@[j]).sums(
                balances@,
                i + 1,
                ops,
                from,
                0,
            ) && lines@[j].bounded(0) && lines@[j].covered by {
                if j < before.len() {
                    assert(lines@[j] == before[j]);
                    assert(before[j].sums(balances@, i as int, ops, from, 0));
                } else {
                    let at = balance_place(b);
                    if cover(balances@, at, i as int) is Some {
                        lemma_cover_listed(balances@, at, i as int, ops, 0);
                    }
                    assert(cover(balances@, at, i + 1) == Some(b));
                }
            }
        }
        i = i + 1;
    }
    lines
}

/// Operations on places that are not listed add nothing to the sums of such a
/// place.
proof fn lemma_unlisted_zero(balances: Seq<Balance>, nb: int, ops: Seq<OpView>, sel: Sel, no: int)
    requires
        0 <= no <= ops.len(),
        !places(balances, nb, ops, no).contains(sel.at),
    ensures
        selsum(ops, sel, no) == Amount::zero(),
    decreases no,
{
    if no > 0 {
        let rest = places(balances, nb, ops, no - 1);
        let at = place_of(ops[no - 1]);
        if rest.contains(at) {
            lemma_unlisted_zero(balances, nb, ops, sel, no - 1);
            assert(at != sel.at);
        } else {
            let all = rest.push(at);
            assert(all[rest.len() as int] == at);
            assert(at != sel.at);
            if rest.contains(sel.at) {
                let i = choose|i: int| 0 <= i < rest.len() && rest[i] == sel.at;
                assert(all[i] == sel.at);
            }
            lemma_unlisted_zero(balances, nb, ops, sel, no - 1);
        }
    }
}

/// Adds one operation to the line of its place.
fn add_to_line(line: &Line, op: &Op, from: u64, Ghost(k): Ghost<int>) -> (r: Line)
    requires
        line.bounded(k),
        0 <= k <= MAX_REPORT_INPUT,
        place_of(op@) == line.at(),
    ensures
        r.at() == line.at(),
        r.covered == line.covered,
        r.cover_date == line.cover_date,
        r.bounded(k + 1),
        r.open.amount() == line.open.amount().plus(
            pick(op@, Sel { at: line.at(), lo: line.first_free(), hi: from - 1, incoming: None }),
        ),
        r.receive.amount() == line.receive.amount().plus(
            pick(
                op@,
                Sel {
                    at: line.at(),
                    lo: later(line.first_free(), from as int),
                    hi: u64::MAX as int,
                    incoming: Some(true),
                },
            ),
        ),
        r.issue.amount() == line.issue.amount().plus(
            pick(
                op@,
                Sel {
                    at: line.at(),
                    lo: later(line.first_free(), from as int),
                    hi: u64::MAX as int,
                    incoming: Some(false),
                },
            ),
        ),
{
    let d: BalanceDelta = delta_of(&op.op, op.is_dependent);
    let incoming: bool = match op.op {
        InternalOperation::Receive(_, _) => true,
        InternalOperation::Issue(_, _, _) => false,
        InternalOperation::Transfer(_, _) => op.is_dependent,
    };
    let free: bool = !line.covered || op.date > line.cover_date;
    let mut open: BalanceDelta = line.open;
    let mut receive: BalanceDelta = line.receive;
    let mut issue: BalanceDelta = line.issue;
    if free {
        if op.date < from {
            open = BalanceDelta { qty: open.qty + d.qty, cost: open.cost + d.cost };
        } else if incoming {
            receive = BalanceDelta { qty: receive.qty + d.qty, cost: receive.cost + d.cost };
        } else {
            issue = BalanceDelta { qty: issue.qty + d.qty, cost: issue.cost + d.cost };
        }
    }
    Line {
        store: line.store,
        goods: line.goods,
        batch: line.batch,
        covered: line.covered,
        cover_date: line.cover_date,
        open,
        receive,
        issue,
    }
}

/// Sums the operations up into the lines of their places.
fn sum_lines(balances: &Vec<Balance>, operations: &Vec<Op>, from: u64) -> (lines: Vec<Line>)
    requires
        balances@.len() <= MAX_REPORT_INPUT,
        operations@.len() <= MAX_REPORT_INPUT,
    ensures
        line_places(lines@) == places(
            balances@,
            balances@.len() as int,
            op_views(operations@),
            operations@.len() as int,
        ),
        lines@.len() <= balances@.len() + operations@.len(),
        forall|j: int|
            0 <= j < lines@.len() ==> (#[trigger] lines@[j]).sums(
                balances@,
                balances@.len() as int,
                op_views(operations@),
                from,
                operations@.len() as int,
            ) && lines@[j].bounded(operations@.len() as int),
{
    let ghost ops = op_views(operations@);
    let ghost nb = balances@.len() as int;
    let mut lines: Vec<Line> = open_lines(balances, Ghost(ops), Ghost(from));
    proof {
        lemma_places_count(balances@, nb, ops, 0);
    }
    let mut k: usize = 0;
    while k < operations.len()
        invariant
            k <= operations@.len() <= MAX_REPORT_INPUT,
            ops == op_views(operations@),
            nb == balances@.len(),
            line_places(lines@) == places(balances@, nb, ops, k as int),
            lines@.len() <= nb + k,
            distinct(lines@),
            forall|j: int|
                0 <= j < lines@.len() ==> (#[trigger] lines@[j]).sums(
                    balances@,
                    nb,
                    ops,
                    from,
                    k as int,
                )
                    && lines@[j].bounded(k as int),
        decreases operations@.len() - k,
    {
        let op: &Op = &operations[k];
        let ghost o = ops[k as int];
        let ghost at = place_of(o);
        assert(o == op@);
        let ghost before = lines@;
        let j: usize = match find_line(&lines, op.store, op.goods, op.batch) {
            Some(j) => j,
            None => {
                let fresh: Line = Line {
                    store: op.store,
                    goods: op.goods,
                    batch: op.batch,
                    covered: false,
                    cover_date: 0,
                    open: BalanceDelta { qty: 0, cost: 0 },
                    receive: BalanceDelta { qty: 0, cost: 0 },
                    issue: BalanceDelta { qty: 0, cost: 0 },
                };
                proof {
                    if cover(balances@, at, nb) is Some {
                        lemma_cover_listed(balances@, at, nb, ops, k as int);
                    }
                    lemma_unlisted_zero(
                        balances@,
                        nb,
                        ops,
                        Sel { at, lo: 0, hi: from - 1, incoming: None },
                        k as int,
                    );
                    lemma_unlisted_zero(
                        balances@,
                        nb,
                        ops,
                        Sel { at, lo: later(0, from as int), hi: u64::MAX as int, incoming: Some(true) },
                        k as int,
                    );
                    lemma_unlisted_zero(
                        balances@,
                        nb,
                        ops,
                        Sel {
                            at,
                            lo: later(0, from as int),
                            hi: u64::MAX as int,
                            incoming: Some(false),
                        },
                        k as int,
                    );
                }
                lines.push(fresh);
                proof {
                    assert(line_places(lines@) =~= line_places(before).push(at));
                    assert(fresh.sums(balances@, nb, ops, from, k as int));
                    assert forall|x: int, y: int| 0 <= x < y < lines@.len() implies (
                    #[trigger] lines@[x]).at() != (#[trigger] lines@[y]).at() by {
                        if y == before.len() {
                            assert(line_places(before)[x] == before[x].at());
                        }
                    }
                }
                lines.len() - 1
            },
        };
        let ghost mid = lines@;
        proof {
            assert forall|x: int| 0 <= x < mid.len() implies (#[trigger] mid[x]).sums(
                balances@,
                nb,
                ops,
                from,
                k as int,
            ) && mid[x].bounded(k as int) by {
                if x < before.len() {
                    assert(mid[x] == before[x]);
                }
            }
        }
        let changed: Line = add_to_line(&lines[j], op, from, Ghost(k as int));
        lines.set(j, changed);
        proof {
            assert(line_places(lines@) =~= line_places(mid));
            assert(line_places(mid) =~= places(balances@, nb, ops, k + 1));
            assert forall|x: int, y: int| 0 <= x < y < lines@.len() implies (
            #[trigger] lines@[x]).at() != (#[trigger] lines@[y]).at() by {
                assert(lines@[x].at() == mid[x].at());
                assert(lines@[y].at() == mid[y].at());
            }
            assert forall|x: int| 0 <= x < lines@.len() implies (#[trigger] lines@[x]).sums(
                balances@,
                nb,
                ops,
                from,
                k + 1,
            ) && lines@[x].bounded(k + 1) by {
                assert(mid[x].sums(balances@, nb, ops, from, k as int));
                if x != j {
                    assert(lines@[x] == mid[x]);
                    assert(mid[x].at() != mid[j as int].at());
                }
            }
        }
        k = k + 1;
    }
    lines
}

/// There are no more places than balances and operations.
proof fn lemma_places_count(balances: Seq<Balance>, nb: int, ops: Seq<OpView>, no: int)
    requires
        0 <= nb,
        0 <= no,
    ensures
        places(balances, nb, ops, no).len() <= nb + no,
    decreases no, nb,
{
    if no > 0 {
        lemma_places_count(balances, nb, ops, no - 1);
    } else if nb > 0 {
        lemma_places_count(balances, nb - 1, ops, 0);
        assert(places(balances, nb - 1, ops, 0) == balance_places(balances, nb - 1));
    }
}

/// The aggregation engine. For every place among the balances and the
/// operations, in the order in which the places first occur: the opening
/// balance in front of `start_date`, what came in and what went out from
/// `start_date` on, and the closing balance; and the costs of all lines
/// together. The first balance given for a place is its opening snapshot, and
/// operations dated at or before the date of that snapshot are part of it
/// already. More than [`MAX_REPORT_INPUT`] balances or operations are refused.
pub fn new_get_aggregations(balances: Vec<Balance>, operations: Vec<Op>, start_date: u64) -> (r:
    Result<(AgregationStore, Vec<AgregationStoreGoods>), WHError>)
    ensures
        r is Ok <==> balances@.len() <= MAX_REPORT_INPUT && operations@.len() <= MAX_REPORT_INPUT,
        r matches Err(e) ==> e.kind == ErrorKind::Capacity,
        r matches Ok(v) ==> {
            let ps = places(
                balances@,
                balances@.len() as int,
                op_views(operations@),
                operations@.len() as int,
            );
            &&& v.1@.len() == ps.len()
            &&& forall|i: int|
                0 <= i < ps.len() ==> line(#[trigger] v.1@[i]) == item_of(
                    balances@,
                    op_views(operations@),
                    ps[i],
                    start_date,
                )
            &&& v.0.store == (if ps.len() > 0 {
                Some(ps[0].store)
            } else {
                None
            })
            &&& v.0.open_balance == cost_total(v.1@, 0, v.1@.len() as int)
            &&& v.0.receive == cost_total(v.1@, 1, v.1@.len() as int)
            &&& v.0.issue == cost_total(v.1@, 2, v.1@.len() as int)
            &&& v.0.close_balance == cost_total(v.1@, 3, v.1@.len() as int)
        },
{
    if balances.len() > MAX_REPORT_INPUT || operations.len() > MAX_REPORT_INPUT {
        return Err(WHError::new(ErrorKind::Capacity, "too much for one report"));
    }
    let lines: Vec<Line> = sum_lines(&balances, &operations, start_date);
    let ghost ops = op_views(operations@);
    let ghost ps = places(balances@, balances@.len() as int, ops, ops.len() as int);
    let mut items: Vec<AgregationStoreGoods> = Vec::new();
    let mut open_cost: i128 = 0;
    let mut receive_cost: i128 = 0;
    let mut issue_cost: i128 = 0;
    let mut close_cost: i128 = 0;
    let mut i: usize = 0;
    while i < lines.len()
        invariant
            i <= lines@.len(),
            lines@.len() <= 2 * MAX_REPORT_INPUT,
            operations@.len() <= MAX_REPORT_INPUT,
            ops == op_views(operations@),
            ps == places(balances@, balances@.len() as int, ops, ops.len() as int),
            line_places(lines@) == ps,
            forall|j: int|
                0 <= j < lines@.len() ==> (#[trigger] lines@[j]).sums(
                    balances@,
                    balances@.len() as int,
                    ops,
                    start_date,
                    ops.len() as int,
                ) && lines@[j].bounded(ops.len() as int),
            items@.len() == i,
            forall|j: int|
                0 <= j < i ==> line(#[trigger] items@[j]) == item_of(
                    balances@,
                    ops,
                    ps[j],
                    start_date,
                ),
            open_cost == cost_total(items@, 0, i as int),
            receive_cost == cost_total(items@, 1, i as int),
            issue_cost == cost_total(items@, 2, i as int),
            close_cost == cost_total(items@, 3, i as int),
            -(i as int) * 0x1_0000_0000_0000_0000_0000_0000 <= open_cost <= (i as int)
                * 0x1_0000_0000_0000_0000_0000_0000,
            -(i as int) * 0x1_0000_0000_0000_0000_0000_0000 <= receive_cost <= (i as int)
                * 0x1_0000_0000_0000_0000_0000_0000,
            -(i as int) * 0x1_0000_0000_0000_0000_0000_0000 <= issue_cost <= (i as int)
                * 0x1_0000_0000_0000_0000_0000_0000,
            -(i as int) * 0x1_0000_0000_0000_0000_0000_0000 <= close_cost <= (i as int)
                * 0x1_0000_0000_0000_0000_0000_0000,
        decreases lines@.len() - i,
    {
        let l: &Line = &lines[i];
        proof {
            assert(l.sums(balances@, balances@.len() as int, ops, start_date, ops.len() as int));
            assert(l.bounded(ops.len() as int));
            assert(line_places(lines@)[i as int] == l.at());
            let k = ops.len() as int;
            assert((k + 1) * 0x8000_0000_0000_0000 <= 0x1000_0000 * 0x8000_0000_0000_0000)
                by (nonlinear_arith)
                requires
                    0 <= k <= 0x0fff_ffff,
            ;
        }
        let close: BalanceDelta = BalanceDelta {
            qty: l.open.qty + l.receive.qty + l.issue.qty,
            cost: l.open.cost + l.receive.cost + l.issue.cost,
        };
        let item: AgregationStoreGoods = AgregationStoreGoods {
            store: Some(l.store),
            goods: Some(l.goods),
            batch: Some(l.batch),
            open_balance: l.open,
            receive: l.receive,
            issue: l.issue,
            close_balance: close,
        };
        let ghost before = items@;
        items.push(item);
        proof {
            lemma_cost_total_push(before, item, 0);
            lemma_cost_total_push(before, item, 1);
            lemma_cost_total_push(before, item, 2);
            lemma_cost_total_push(before, item, 3);
            assert(items@ == before.push(item));
            assert((i as int) * 0x1_0000_0000_0000_0000_0000_0000
                + 0x1_0000_0000_0000_0000_0000_0000 == (i + 1)
                * 0x1_0000_0000_0000_0000_0000_0000) by (nonlinear_arith);
            assert((i + 1) * 0x1_0000_0000_0000_0000_0000_0000 <= 0x2000_0000
                * 0x1_0000_0000_0000_0000_0000_0000) by (nonlinear_arith)
                requires
                    i + 1 <= 0x2000_0000,
            ;
        }
        open_cost = open_cost + l.open.cost;
        receive_cost = receive_cost + l.receive.cost;
        issue_cost = issue_cost + l.issue.cost;
        close_cost = close_cost + close.cost;
        i = i + 1;
    }
    let store: Option<Store> = if lines.len() > 0 {
        assert(line_places(lines@)[0] == lines@[0].at());
        Some(lines[0].store)
    } else {
        None
    };
    Ok(
        (
            AgregationStore {
                store,
                open_balance: open_cost,
                receive: receive_cost,
                issue: issue_cost,
                close_balance: close_cost,
            },
            items,
        ),
    )
}

/// The total over one more line.
proof fn lemma_cost_total_push(
    items: Seq<AgregationStoreGoods>,
    item: AgregationStoreGoods,
    which: int,
)
    ensures
        cost_total(items.push(item), which, (items.len() + 1) as int) == cost_total(
            items,
            which,
            items.len() as int,
        ) + (if which == 0 {
            item.open_balance.cost as int
        } else if which == 1 {
            item.receive.cost as int
        } else if which == 2 {
            item.issue.cost as int
        } else {
            item.close_balance.cost as int
        }),
{
    lemma_cost_total_same(items, items.push(item), which, items.len() as int);
}

proof fn lemma_cost_total_same(
    a: Seq<AgregationStoreGoods>,
    b: Seq<AgregationStoreGoods>,
    which: int,
    n: int,
)
    requires
        0 <= n <= a.len(),
        n <= b.len(),
        forall|j: int| 0 <= j < n ==> a[j] == b[j],
    ensures
        cost_total(a, which, n) == cost_total(b, which, n),
    decreases n,
{
    if n > 0 {
        lemma_cost_total_same(a, b, which, n - 1);
    }
}

} // verus!
