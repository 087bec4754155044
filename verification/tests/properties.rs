use nae_backend::checkpoints::check_date_store_batch::CheckDateStoreBatch;
use nae_backend::db::Db;
use nae_backend::elements::{Balance, BalanceForGoods, Batch, InternalOperation, Mode, Op, OpMutation};
use nae_backend::time::{dt, next_checkpoint};
use nae_backend::topologies::date_type_store_batch_id::DateTypeStoreBatchId;

/// A small generator of numbers that gives the same run every time.
struct Numbers(u64);

impl Numbers {
    fn next(&mut self, below: u64) -> u64 {
        self.0 = self.0.wrapping_mul(6364136223846793005).wrapping_add(1442695040888963407);
        (self.0 >> 33) % below
    }
}

fn dump(db: &Db) -> String {
    let mut out = String::new();
    for i in 0..db.ordered().len() {
        out.push_str(&format!("{:?}\n", db.ordered().entry(i)));
    }
    for i in 0..db.checkpoints().len() {
        out.push_str(&format!("{:?}\n", db.checkpoints().entry(i)));
    }
    out.push_str(&format!("{}", db.checkpoints().get_latest_checkpoint_date()));
    out
}

fn restored(db: &Db) -> Db {
    let ops: Vec<(Op, BalanceForGoods)> = (0..db.ordered().len())
        .map(|i| (db.ordered().entry(i).op.duplicate(), db.ordered().entry(i).balance))
        .collect();
    let checkpoints: Vec<Balance> =
        (0..db.checkpoints().len()).map(|i| db.checkpoints().entry(i).balance).collect();
    let ordered = DateTypeStoreBatchId::load(&ops).unwrap();
    let checkpoints =
        CheckDateStoreBatch::load(&checkpoints, db.checkpoints().get_latest_checkpoint_date()).unwrap();
    Db::restore(ordered, checkpoints).unwrap()
}

fn naive(db: &Db, store: u128, goods: u128, batch: Batch, date: u64) -> (i64, i64) {
    let mut sum = (0_i64, 0_i64);
    for i in 0..db.ordered().len() {
        let op = &db.ordered().entry(i).op;
        if op.store == store && op.goods == goods && op.batch == batch && op.date <= date {
            let d = op.to_delta();
            sum = (sum.0 + d.qty as i64, sum.1 + d.cost as i64);
        }
    }
    sum
}

fn movement(n: &mut Numbers) -> InternalOperation {
    let qty = 1 + n.next(9) as i64;
    let cost = n.next(100) as i64;
    match n.next(3) {
        0 => InternalOperation::Receive(qty, cost),
        1 => InternalOperation::Issue(qty, cost, Mode::Manual),
        _ => InternalOperation::Transfer(qty, cost),
    }
}

#[test]
fn every_recorded_state_is_coherent() {
    let start = dt("2022-01-30").unwrap();
    let batches = [
        Batch { id: 1, date: start },
        Batch { id: 2, date: start + 86_400 },
        Batch { id: 3, date: start },
        Batch::no(),
    ];
    let mut n = Numbers(2022);
    let mut db = Db::new();
    let mut live: Vec<OpMutation> = Vec::new();
    let mut taken = 0;
    for round in 0..400_u128 {
        let m = match n.next(4) {
            0 if !live.is_empty() => {
                let at = n.next(live.len() as u64) as usize;
                let was = live[at];
                OpMutation { before: was.after, after: None, ..was }
            },
            1 if !live.is_empty() => {
                let at = n.next(live.len() as u64) as usize;
                let was = live[at];
                OpMutation { before: was.after, after: Some(movement(&mut n)), ..was }
            },
            _ => OpMutation::new(
                round,
                start + n.next(120) * 43_200,
                1 + n.next(2) as u128,
                if n.next(2) == 0 { Some(3) } else { None },
                1 + n.next(2) as u128,
                batches[n.next(4) as usize],
                None,
                Some(movement(&mut n)),
            ),
        };
        let before = dump(&db);
        match db.record_ops(&vec![m]) {
            Ok(()) => {
                taken += 1;
                live.retain(|x| x.id != m.id);
                if m.after.is_some() {
                    live.push(m);
                }
            },
            Err(_) => assert_eq!(dump(&db), before),
        }
        assert_eq!(dump(&restored(&db)), dump(&db));
        let store = 1 + n.next(3) as u128;
        let goods = 1 + n.next(2) as u128;
        let batch = batches[n.next(4) as usize];
        let date = start + n.next(130) * 43_200;
        let got = db.balance_on(store, goods, batch, date).unwrap();
        assert_eq!((got.qty, got.cost), naive(&db, store, goods, batch, date));
    }
    assert!(taken > 200);
    assert!(db.ordered().len() > 20);
    assert!(db.checkpoints().len() > 5);
}

#[test]
fn reports_close_on_the_balance_and_split() {
    let start = dt("2022-01-30").unwrap();
    let batch = Batch { id: 1, date: start };
    let mut n = Numbers(7);
    let mut db = Db::new();
    for id in 0..60_u128 {
        let m = OpMutation::new(
            id,
            start + n.next(90) * 86_400,
            1,
            None,
            1 + n.next(2) as u128,
            batch,
            None,
            Some(if n.next(2) == 0 {
                InternalOperation::Receive(1 + n.next(9) as i64, n.next(50) as i64)
            } else {
                InternalOperation::Issue(1 + n.next(9) as i64, n.next(50) as i64, Mode::Manual)
            }),
        );
        db.record_ops(&vec![m]).unwrap();
    }
    for _ in 0..40 {
        let from = start + n.next(60) * 86_400 + 1;
        let t = from + n.next(20) * 86_400;
        let till = t + n.next(20) * 86_400;
        let whole = db.get_report_for_storage(1, from, till).unwrap();
        let first = db.get_report_for_storage(1, from, t).unwrap();
        let second = db.get_report_for_storage(1, t + 1, till.max(t + 1)).unwrap();
        for line in &whole.items.1 {
            let place = (line.store.unwrap(), line.goods.unwrap(), line.batch.unwrap());
            let on = db.balance_on(place.0, place.1, place.2, till).unwrap();
            assert_eq!((line.close_balance.qty, line.close_balance.cost), (on.qty.into(), on.cost.into()));
            let find = |lines: &Vec<nae_backend::aggregations::AgregationStoreGoods>| {
                lines.iter().find(|l| l.goods == line.goods && l.batch == line.batch).copied()
            };
            if let (Some(a), Some(b)) = (find(&first.items.1), find(&second.items.1)) {
                if till > t {
                    assert_eq!(line.open_balance, a.open_balance);
                    assert_eq!(line.receive.qty, a.receive.qty + b.receive.qty);
                    assert_eq!(line.issue.cost, a.issue.cost + b.issue.cost);
                    assert_eq!(line.close_balance, b.close_balance);
                    assert_eq!(b.open_balance, a.close_balance);
                }
            }
        }
        let total: i128 = whole.items.1.iter().map(|l| l.close_balance.cost).sum();
        assert_eq!(whole.items.0.close_balance, total);
    }
}

#[test]
fn checkpoints_stand_at_month_boundaries_of_activity() {
    let start = dt("2022-01-30").unwrap();
    let mut n = Numbers(99);
    let mut db = Db::new();
    for id in 0..80_u128 {
        let m = OpMutation::new(
            id,
            start + n.next(200) * 43_200,
            1,
            None,
            1,
            Batch { id: 1 + n.next(3) as u128, date: start },
            None,
            Some(InternalOperation::Receive(1 + n.next(9) as i64, n.next(50) as i64)),
        );
        db.record_ops(&vec![m]).unwrap();
    }
    let mut wanted: Vec<(u64, u128)> = (0..db.ordered().len())
        .map(|i| {
            let op = &db.ordered().entry(i).op;
            (next_checkpoint(op.date).unwrap(), op.batch.id)
        })
        .collect();
    wanted.sort();
    wanted.dedup();
    let mut stored: Vec<(u64, u128)> = (0..db.checkpoints().len())
        .map(|i| {
            let b = db.checkpoints().entry(i).balance;
            (b.date, b.batch.id)
        })
        .collect();
    stored.sort();
    assert_eq!(stored, wanted);
}
