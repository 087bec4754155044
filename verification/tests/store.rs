use nae_backend::aggregations::AgregationStoreGoods;
use nae_backend::checkpoints::check_date_store_batch::CheckDateStoreBatch;
use nae_backend::db::Db;
use nae_backend::elements::{
    Balance, BalanceDelta, BalanceForGoods, Batch, InternalOperation, Mode, Op, OpMutation,
};
use nae_backend::topologies::date_type_store_batch_id::DateTypeStoreBatchId;
use nae_backend::error::ErrorKind;
use nae_backend::time::dt;
use uuid::Uuid;

const G1: u128 = 1;
const WH1: u128 = 0x7768_31;
const WH2: u128 = 0x7768_32;

fn receive(id: u128, date: &str, store: u128, batch: Batch, qty: i64, cost: i64) -> OpMutation {
    OpMutation::new(
        id,
        dt(date).unwrap(),
        store,
        None,
        G1,
        batch,
        None,
        Some(InternalOperation::Receive(qty, cost)),
    )
}

fn issue(id: u128, date: &str, store: u128, batch: Batch, qty: i64, cost: i64) -> OpMutation {
    OpMutation::new(
        id,
        dt(date).unwrap(),
        store,
        None,
        G1,
        batch,
        None,
        Some(InternalOperation::Issue(qty, cost, Mode::Manual)),
    )
}

fn dump(db: &Db) -> String {
    let mut out = String::new();
    for i in 0..db.ordered().len() {
        out.push_str(&format!("{:?}\n", db.ordered().entry(i)));
    }
    for i in 0..db.checkpoints().len() {
        out.push_str(&format!("{:?}\n", db.checkpoints().entry(i)));
    }
    out.push_str(&format!("{}", db.checkpoints().get_latest_checkpoint_date()));
    out
}

fn checkpoint(db: &Db, store: u128, batch: Batch, date: &str) -> BalanceForGoods {
    let key = db.checkpoints().key(store, G1, batch, dt(date).unwrap()).unwrap();
    db.checkpoints().get_balance(&key)
}

fn may() -> (Db, Batch) {
    let a = Batch { id: 201, date: dt("2022-05-27").unwrap() };
    let mut db = Db::new();
    db.record_ops(&vec![receive(1, "2022-05-27", WH1, a, 10, 50)]).unwrap();
    db.record_ops(&vec![receive(2, "2022-05-30", WH1, a, 2, 10)]).unwrap();
    db.record_ops(&vec![issue(3, "2022-05-28", WH1, a, 5, 25)]).unwrap();
    (db, a)
}

#[test]
fn receipts_and_issues_cross_the_checkpoint() {
    let (db, a) = may();
    let on = |d: &str| db.balance_on(WH1, G1, a, dt(d).unwrap()).unwrap();
    assert_eq!(on("2022-05-28"), BalanceForGoods { qty: 5, cost: 25 });
    assert_eq!(on("2022-05-31"), BalanceForGoods { qty: 7, cost: 35 });
    assert_eq!(on("2022-05-26"), BalanceForGoods { qty: 0, cost: 0 });
    assert_eq!(checkpoint(&db, WH1, a, "2022-05-27"), BalanceForGoods { qty: 7, cost: 35 });
    assert_eq!(db.checkpoints().len(), 1);
    assert_eq!(db.checkpoints().entry(0).balance.date, dt("2022-06-01").unwrap());
    assert_eq!(db.checkpoints().get_latest_checkpoint_date(), dt("2022-06-01").unwrap());
}

#[test]
fn late_backdated_op_updates_the_checkpoint() {
    let (mut db, a) = may();
    db.record_ops(&vec![issue(4, "2022-05-31", WH1, a, 1, 5)]).unwrap();
    assert_eq!(
        db.balance_on(WH1, G1, a, dt("2022-05-31").unwrap()).unwrap(),
        BalanceForGoods { qty: 6, cost: 30 }
    );
    assert_eq!(checkpoint(&db, WH1, a, "2022-05-31"), BalanceForGoods { qty: 6, cost: 30 });
    assert_eq!(db.checkpoints().len(), 1);
}

#[test]
fn running_balances_follow_the_key_order() {
    let (db, _) = may();
    let balances: Vec<(i64, i64)> = (0..db.ordered().len())
        .map(|i| {
            let e = db.ordered().entry(i);
            (e.balance.qty, e.balance.cost)
        })
        .collect();
    assert_eq!(balances, vec![(10, 50), (5, 25), (7, 35)]);
}

#[test]
fn balance_on_is_the_naive_sum() {
    let (mut db, a) = may();
    db.record_ops(&vec![receive(5, "2022-07-02", WH1, a, 4, 44)]).unwrap();
    db.record_ops(&vec![issue(6, "2022-06-15", WH1, a, 3, 15)]).unwrap();
    for day in ["2022-05-26", "2022-05-27", "2022-05-29", "2022-06-01", "2022-06-15", "2022-07-01",
        "2022-07-02", "2023-01-01"]
    {
        let d = dt(day).unwrap();
        let mut qty = 0_i64;
        let mut cost = 0_i64;
        for i in 0..db.ordered().len() {
            let op: &Op = &db.ordered().entry(i).op;
            if op.date <= d {
                let delta = op.to_delta();
                qty += delta.qty as i64;
                cost += delta.cost as i64;
            }
        }
        assert_eq!(db.balance_on(WH1, G1, a, d).unwrap(), BalanceForGoods { qty, cost });
    }
}

#[test]
fn checkpoints_chain_from_month_to_month() {
    let (mut db, a) = may();
    db.record_ops(&vec![receive(5, "2022-07-02", WH1, a, 4, 44)]).unwrap();
    db.record_ops(&vec![issue(6, "2022-06-15", WH1, a, 3, 15)]).unwrap();
    assert_eq!(db.checkpoints().len(), 3);
    assert_eq!(checkpoint(&db, WH1, a, "2022-05-30"), BalanceForGoods { qty: 7, cost: 35 });
    assert_eq!(checkpoint(&db, WH1, a, "2022-06-15"), BalanceForGoods { qty: 4, cost: 20 });
    assert_eq!(checkpoint(&db, WH1, a, "2022-07-02"), BalanceForGoods { qty: 8, cost: 64 });
}

#[test]
fn issue_at_the_month_boundary_belongs_to_that_boundary() {
    let (mut db, a) = may();
    let boundary = dt("2022-06-01").unwrap();
    let m = OpMutation::new(
        7,
        boundary,
        WH1,
        None,
        G1,
        a,
        None,
        Some(InternalOperation::Issue(2, 10, Mode::Manual)),
    );
    db.record_ops(&vec![m]).unwrap();
    assert_eq!(db.checkpoints().len(), 1);
    assert_eq!(db.checkpoints().entry(0).balance.date, boundary);
    assert_eq!(db.checkpoints().entry(0).balance.number, BalanceForGoods { qty: 5, cost: 25 });
}

#[test]
fn tied_receive_sorts_before_issue() {
    let a = Batch { id: 201, date: dt("2022-05-27").unwrap() };
    let mut db = Db::new();
    db.record_ops(&vec![issue(9, "2022-05-27", WH1, a, 5, 25)]).unwrap();
    db.record_ops(&vec![receive(1, "2022-05-27", WH1, a, 5, 25)]).unwrap();
    assert!(db.ordered().entry(0).op.is_receive());
    assert!(db.ordered().entry(1).op.is_issue());
    assert_eq!(db.ordered().entry(0).balance, BalanceForGoods { qty: 5, cost: 25 });
    assert_eq!(db.ordered().entry(1).balance, BalanceForGoods { qty: 0, cost: 0 });
}

#[test]
fn issue_without_batch_resolves_fifo() {
    let a = Batch { id: 201, date: dt("2023-01-17").unwrap() };
    let b = Batch { id: 202, date: dt("2023-01-18").unwrap() };
    let mut db = Db::new();
    db.record_ops(&vec![
        receive(101, "2023-01-18", WH1, b, 2, 16),
        receive(102, "2023-01-18", WH1, a, 2, 18),
    ])
    .unwrap();
    let m = OpMutation::new(
        103,
        dt("2023-01-19").unwrap(),
        WH1,
        None,
        G1,
        Batch::no(),
        None,
        Some(InternalOperation::Issue(1, 0, Mode::Auto)),
    );
    let balances = db.project(WH1, G1, m.date);
    assert_eq!(balances.len(), 2);
    assert_eq!(balances[0].batch, a);
    assert_eq!(balances[1].batch, b);
    let (parent, children) = m.resolve(&balances).unwrap();
    assert_eq!(children.len(), 1);
    assert_eq!(children[0].batch, a);
    assert_eq!(children[0].op, InternalOperation::Issue(1, 9, Mode::Auto));
    assert!(children[0].is_dependent);
    assert_eq!(parent.dependant.len(), 1);
    assert_eq!(parent.dependant[0].tuple(), (WH1, a, 0xff));

    db.record_ops(&vec![m]).unwrap();
    let at = dt("2023-01-20").unwrap();
    assert_eq!(db.balance_on(WH1, G1, a, at).unwrap(), BalanceForGoods { qty: 1, cost: 9 });
    assert_eq!(db.balance_on(WH1, G1, b, at).unwrap(), BalanceForGoods { qty: 2, cost: 16 });
    assert_eq!(db.ordered().len(), 3);
}

#[test]
fn issue_without_batch_spans_batches_and_leaves_a_manual_rest() {
    let a = Batch { id: 201, date: dt("2023-01-17").unwrap() };
    let b = Batch { id: 202, date: dt("2023-01-18").unwrap() };
    let mut db = Db::new();
    db.record_ops(&vec![
        receive(101, "2023-01-18", WH1, a, 2, 18),
        receive(102, "2023-01-18", WH1, b, 2, 16),
    ])
    .unwrap();
    let m = OpMutation::new(
        103,
        dt("2023-01-19").unwrap(),
        WH1,
        None,
        G1,
        Batch::no(),
        None,
        Some(InternalOperation::Issue(5, 50, Mode::Auto)),
    );
    let (parent, children) = m.resolve(&db.project(WH1, G1, m.date)).unwrap();
    let got: Vec<(Batch, InternalOperation)> = children.iter().map(|c| (c.batch, c.op)).collect();
    assert_eq!(
        got,
        vec![
            (Batch::no(), InternalOperation::Issue(1, 10, Mode::Manual)),
            (a, InternalOperation::Issue(2, 18, Mode::Auto)),
            (b, InternalOperation::Issue(2, 16, Mode::Auto)),
        ]
    );
    assert_eq!(parent.dependant.len(), 3);
    db.record_ops(&vec![m]).unwrap();
    let at = dt("2023-01-20").unwrap();
    assert_eq!(db.balance_on(WH1, G1, a, at).unwrap(), BalanceForGoods { qty: 0, cost: 0 });
    assert_eq!(
        db.balance_on(WH1, G1, Batch::no(), at).unwrap(),
        BalanceForGoods { qty: -1, cost: -10 }
    );
}

#[test]
fn resolution_falls_back_to_manual_issue() {
    let m = OpMutation::new(
        103,
        dt("2023-01-19").unwrap(),
        WH1,
        None,
        G1,
        Batch::no(),
        None,
        Some(InternalOperation::Issue(3, 30, Mode::Auto)),
    );
    let db = Db::new();
    let (_, children) = m.resolve(&db.project(WH1, G1, m.date)).unwrap();
    assert_eq!(children.len(), 1);
    assert_eq!(children[0].batch, Batch::no());
    assert_eq!(children[0].op, InternalOperation::Issue(3, 30, Mode::Manual));
}

#[test]
fn transfer_preserves_qty_and_cost() {
    let a = Batch { id: 201, date: dt("2023-01-18").unwrap() };
    let mut db = Db::new();
    db.record_ops(&vec![receive(101, "2023-01-18", WH1, a, 2, 18)]).unwrap();
    let t = OpMutation::new(
        102,
        dt("2023-01-19").unwrap(),
        WH1,
        Some(WH2),
        G1,
        a,
        None,
        Some(InternalOperation::Transfer(1, 9)),
    );
    db.record_ops(&vec![t]).unwrap();
    let at = dt("2023-01-20").unwrap();
    assert_eq!(db.balance_on(WH1, G1, a, at).unwrap(), BalanceForGoods { qty: 1, cost: 9 });
    assert_eq!(db.balance_on(WH2, G1, a, at).unwrap(), BalanceForGoods { qty: 1, cost: 9 });

    let from = dt("2023-01-17").unwrap();
    let r1 = db.get_report_for_storage(WH1, from, at).unwrap();
    assert_eq!(r1.items.1.len(), 1);
    assert_eq!(r1.items.1[0].issue, BalanceDelta { qty: -1, cost: -9 });
    assert_eq!(r1.items.1[0].receive, BalanceDelta { qty: 2, cost: 18 });
    assert_eq!(r1.items.1[0].close_balance, BalanceDelta { qty: 1, cost: 9 });
    let r2 = db.get_report_for_storage(WH2, from, at).unwrap();
    assert_eq!(r2.items.1[0].receive, BalanceDelta { qty: 1, cost: 9 });
    assert_eq!(r2.items.1[0].issue, BalanceDelta { qty: 0, cost: 0 });
    assert_eq!(r2.items.0.receive, 9);
}

#[test]
fn delete_then_reinsert_is_identity() {
    let (mut db, a) = may();
    let m = issue(4, "2022-06-10", WH1, a, 1, 5);
    db.record_ops(&vec![m]).unwrap();
    let snapshot = dump(&db);
    let back = OpMutation { before: m.after, after: None, ..m };
    db.record_ops(&vec![back]).unwrap();
    assert_ne!(dump(&db), snapshot);
    db.record_ops(&vec![m]).unwrap();
    assert_eq!(dump(&db), snapshot);
}

#[test]
fn reversing_a_mutation_restores_the_state() {
    let (mut db, a) = may();
    let before = dump(&db);
    let m = issue(4, "2022-05-29", WH1, a, 1, 5);
    db.record_ops(&vec![m]).unwrap();
    assert_ne!(dump(&db), before);
    let reversed = OpMutation { before: m.after, after: m.before, ..m };
    db.record_ops(&vec![reversed]).unwrap();
    assert_eq!(dump(&db), before);
}

fn issue_without_batch(id: u128, date: &str, qty: i64, cost: i64) -> OpMutation {
    OpMutation::new(
        id,
        dt(date).unwrap(),
        WH1,
        None,
        G1,
        Batch::no(),
        None,
        Some(InternalOperation::Issue(qty, cost, Mode::Auto)),
    )
}

#[test]
fn reversing_an_issue_without_batch_restores_the_state() {
    let (mut db, _) = may();
    let before = dump(&db);
    let m = issue_without_batch(9, "2022-06-02", 9, 90);
    db.record_ops(&vec![m]).unwrap();
    assert_eq!(db.ordered().len(), 5);
    let reversed = OpMutation { before: m.after, after: None, ..m };
    db.record_ops(&vec![reversed]).unwrap();
    let after = dump(&db);
    let stored = |text: &str| text.rsplit_once('\n').unwrap().0.to_string();
    assert_eq!(stored(&after), stored(&before));
    assert_eq!(db.checkpoints().get_latest_checkpoint_date(), dt("2022-07-01").unwrap());
}

#[test]
fn delete_then_reinsert_of_an_issue_without_batch_is_identity() {
    let (mut db, _) = may();
    let m = issue_without_batch(9, "2022-06-02", 9, 90);
    db.record_ops(&vec![m]).unwrap();
    let snapshot = dump(&db);
    let back = OpMutation { before: m.after, after: None, ..m };
    db.record_ops(&vec![back, m]).unwrap();
    assert_eq!(dump(&db), snapshot);
    db.record_ops(&vec![back]).unwrap();
    assert_ne!(dump(&db), snapshot);
    db.record_ops(&vec![m]).unwrap();
    assert_eq!(dump(&db), snapshot);
}

#[test]
fn an_issue_without_batch_is_resolved_anew_when_it_is_put_in_again() {
    let a = Batch { id: 201, date: dt("2022-05-27").unwrap() };
    let mut db = Db::new();
    let m = issue_without_batch(9, "2022-06-02", 3, 30);
    db.record_ops(&vec![m]).unwrap();
    assert_eq!(db.ordered().entry(0).op.batch, Batch::no());
    db.record_ops(&vec![receive(1, "2022-05-27", WH1, a, 10, 50)]).unwrap();
    let snapshot = dump(&db);
    db.record_ops(&vec![m]).unwrap();
    assert_eq!(dump(&db), snapshot);
    let back = OpMutation { before: m.after, after: None, ..m };
    db.record_ops(&vec![back, m]).unwrap();
    assert_ne!(dump(&db), snapshot);
    assert_eq!(db.ordered().len(), 2);
    assert_eq!(db.ordered().entry(1).op.batch, a);
    assert_eq!(db.ordered().entry(1).op.op, InternalOperation::Issue(3, 15, Mode::Auto));
}

#[test]
fn recording_an_issue_without_batch_twice_is_idempotent() {
    let (mut db, a) = may();
    let list = vec![
        issue_without_batch(9, "2022-06-02", 9, 90),
        receive(10, "2022-06-01", WH1, a, 1, 5),
    ];
    db.record_ops(&list).unwrap();
    let once = dump(&db);
    db.record_ops(&list).unwrap();
    assert_eq!(dump(&db), once);
}

#[test]
fn reversing_an_update_restores_the_state() {
    let (mut db, a) = may();
    let before = dump(&db);
    let m = OpMutation {
        before: Some(InternalOperation::Issue(5, 25, Mode::Manual)),
        after: Some(InternalOperation::Issue(6, 30, Mode::Manual)),
        ..issue(3, "2022-05-28", WH1, a, 5, 25)
    };
    db.record_ops(&vec![m]).unwrap();
    assert_eq!(
        db.balance_on(WH1, G1, a, dt("2022-05-31").unwrap()).unwrap(),
        BalanceForGoods { qty: 6, cost: 30 }
    );
    let reversed = OpMutation { before: m.after, after: m.before, ..m };
    db.record_ops(&vec![reversed]).unwrap();
    assert_eq!(dump(&db), before);
}

#[test]
fn recording_twice_is_idempotent() {
    let a = Batch { id: 201, date: dt("2022-05-27").unwrap() };
    let list = vec![
        receive(1, "2022-05-27", WH1, a, 10, 50),
        issue(3, "2022-05-28", WH1, a, 5, 25),
        receive(2, "2022-05-30", WH1, a, 2, 10),
    ];
    let mut db = Db::new();
    db.record_ops(&list).unwrap();
    let once = dump(&db);
    db.record_ops(&list).unwrap();
    assert_eq!(dump(&db), once);
}

#[test]
fn zero_qty_op_is_rejected() {
    let (mut db, a) = may();
    let before = dump(&db);
    let e = db.record_ops(&vec![receive(9, "2022-05-29", WH1, a, 0, 0)]).unwrap_err();
    assert_eq!(e.kind(), ErrorKind::Invalid);
    assert_eq!(dump(&db), before);
}

#[test]
fn issue_from_a_batch_of_the_future_is_rejected() {
    let (mut db, _) = may();
    let late = Batch { id: 300, date: dt("2022-06-02").unwrap() };
    let e = db.record_ops(&vec![issue(9, "2022-06-01", WH1, late, 1, 1)]).unwrap_err();
    assert_eq!(e.kind(), ErrorKind::Invalid);
}

#[test]
fn transfer_without_target_is_rejected() {
    let (mut db, a) = may();
    let t = OpMutation::new(
        9,
        dt("2022-06-01").unwrap(),
        WH1,
        None,
        G1,
        a,
        None,
        Some(InternalOperation::Transfer(1, 5)),
    );
    assert_eq!(db.record_ops(&vec![t]).unwrap_err().kind(), ErrorKind::Invalid);
}

#[test]
fn deleting_a_missing_op_is_a_conflict() {
    let (mut db, a) = may();
    let before = dump(&db);
    let m = OpMutation {
        before: Some(InternalOperation::Receive(1, 1)),
        after: None,
        ..receive(77, "2022-05-29", WH1, a, 1, 1)
    };
    assert_eq!(db.record_ops(&vec![m]).unwrap_err().kind(), ErrorKind::Conflict);
    assert_eq!(dump(&db), before);
}

#[test]
fn a_failed_list_leaves_the_store_unchanged() {
    let (mut db, a) = may();
    let before = dump(&db);
    let list = vec![issue(4, "2022-05-29", WH1, a, 1, 5), receive(9, "2022-05-29", WH1, a, 0, 0)];
    assert_eq!(db.record_ops(&list).unwrap_err().kind(), ErrorKind::Invalid);
    assert_eq!(dump(&db), before);
}

#[test]
fn balance_out_of_range_is_a_capacity_error() {
    let a = Batch { id: 201, date: dt("2022-05-27").unwrap() };
    let mut db = Db::new();
    db.record_ops(&vec![receive(1, "2022-05-27", WH1, a, i64::MAX, 1)]).unwrap();
    let e = db.record_ops(&vec![receive(2, "2022-05-28", WH1, a, 1, 1)]).unwrap_err();
    assert_eq!(e.kind(), ErrorKind::Capacity);
    assert_eq!(db.ordered().len(), 1);
}

#[test]
fn no_op_mutation_changes_nothing() {
    let (mut db, a) = may();
    let before = dump(&db);
    let same = Some(InternalOperation::Receive(3, 3));
    let m = OpMutation { before: same, after: same, ..receive(50, "2022-05-29", WH1, a, 3, 3) };
    db.record_ops(&vec![m]).unwrap();
    assert_eq!(dump(&db), before);
}

#[test]
fn report_splits_at_an_instant() {
    let (mut db, a) = may();
    db.record_ops(&vec![issue(4, "2022-06-10", WH1, a, 1, 5)]).unwrap();
    let from = dt("2022-05-28").unwrap();
    let t = dt("2022-05-29").unwrap();
    let till = dt("2022-06-30").unwrap();
    let whole = db.get_report_for_storage(WH1, from, till).unwrap().items.1[0];
    let first = db.get_report_for_storage(WH1, from, t).unwrap().items.1[0];
    let second = db.get_report_for_storage(WH1, t, till).unwrap().items.1[0];
    assert_eq!(whole.open_balance, first.open_balance);
    assert_eq!(whole.receive.qty, first.receive.qty + second.receive.qty);
    assert_eq!(whole.receive.cost, first.receive.cost + second.receive.cost);
    assert_eq!(whole.issue.qty, first.issue.qty + second.issue.qty);
    assert_eq!(whole.issue.cost, first.issue.cost + second.issue.cost);
    assert_eq!(whole.close_balance, second.close_balance);
    assert_eq!(second.open_balance, first.close_balance);
    assert_eq!(whole.open_balance, BalanceDelta { qty: 10, cost: 50 });
    assert_eq!(whole.issue, BalanceDelta { qty: -6, cost: -30 });
    assert_eq!(whole.receive, BalanceDelta { qty: 2, cost: 10 });
    assert_eq!(whole.close_balance, BalanceDelta { qty: 6, cost: 30 });
}

#[test]
fn report_of_a_period_that_ends_before_it_begins_is_invalid() {
    let (db, _) = may();
    let e = db
        .get_report_for_storage(WH1, dt("2022-06-01").unwrap(), dt("2022-05-01").unwrap())
        .unwrap_err();
    assert_eq!(e.kind(), ErrorKind::Invalid);
}

#[test]
fn balances_of_a_store_and_of_all() {
    let (mut db, a) = may();
    let b = Batch { id: 202, date: dt("2022-05-28").unwrap() };
    db.record_ops(&vec![receive(11, "2022-05-29", WH2, b, 3, 30)]).unwrap();
    let d = dt("2022-05-31").unwrap();
    let one = db.balances_on(WH1, d).unwrap();
    assert_eq!(one.len(), 1);
    assert_eq!((one[0].store, one[0].goods, one[0].batch), (WH1, G1, a));
    assert_eq!(one[0].number, BalanceForGoods { qty: 7, cost: 35 });
    let all = db.get_balance_for_all(d).unwrap();
    assert_eq!(all.len(), 2);
    let totals = db.get_balance(d, &vec![G1, 2]).unwrap();
    assert_eq!(
        totals,
        vec![(G1, BalanceDelta { qty: 10, cost: 65 }), (2, BalanceDelta { qty: 0, cost: 0 })],
    );
}

#[test]
fn report_for_goods_holds_the_line_of_the_batch() {
    let (db, a) = may();
    let from = dt("2022-05-28").unwrap();
    let till = dt("2022-05-31").unwrap();
    let r = db.get_report_for_goods(WH1, G1, &a, from, till).unwrap();
    assert_eq!(r.items.1.len(), 1);
    assert_eq!(r.items.1[0].open_balance, BalanceDelta { qty: 10, cost: 50 });
    assert_eq!(r.items.0.close_balance, 35);
    let other = Batch { id: 999, date: 1 };
    assert_eq!(db.get_report_for_goods(WH1, G1, &other, from, till).unwrap().items.1.len(), 0);
}

#[test]
fn checkpoint_queries_pick_the_most_recent() {
    let (mut db, a) = may();
    db.record_ops(&vec![receive(5, "2022-07-02", WH1, a, 4, 44)]).unwrap();
    let got = db.get_checkpoints_for_goods(WH1, G1, dt("2022-07-15").unwrap()).unwrap();
    assert_eq!(got.len(), 1);
    assert_eq!(got[0].date, dt("2022-06-01").unwrap());
    assert_eq!(got[0].number, BalanceForGoods { qty: 7, cost: 35 });
    let late = db.get_checkpoints_before_date(WH1, dt("2022-08-15").unwrap()).unwrap();
    assert_eq!(late[0].date, dt("2022-08-01").unwrap());
    assert_eq!(late[0].number, BalanceForGoods { qty: 11, cost: 79 });
    let none = db.get_checkpoint_for_goods_and_batch(
        WH1,
        G1,
        &a,
        dt("2022-05-15").unwrap(),
    ).unwrap();
    assert_eq!(none, None);
    let m = receive(5, "2022-07-02", WH1, a, 4, 44);
    assert_eq!(db.find_checkpoint(&m).unwrap().unwrap().date, dt("2022-08-01").unwrap());
}

fn records(db: &Db) -> (Vec<(Op, BalanceForGoods)>, Vec<Balance>) {
    let ops = (0..db.ordered().len())
        .map(|i| (db.ordered().entry(i).op.duplicate(), db.ordered().entry(i).balance))
        .collect();
    let checkpoints = (0..db.checkpoints().len()).map(|i| db.checkpoints().entry(i).balance).collect();
    (ops, checkpoints)
}

fn restore(ops: &Vec<(Op, BalanceForGoods)>, checkpoints: &Vec<Balance>, latest: u64) -> Result<Db, ErrorKind> {
    let ordered = DateTypeStoreBatchId::load(ops).map_err(|e| e.kind())?;
    let checkpoints = CheckDateStoreBatch::load(checkpoints, latest).map_err(|e| e.kind())?;
    Db::restore(ordered, checkpoints).map_err(|e| e.kind())
}

#[test]
fn a_coherent_store_is_restored_as_it_was() {
    let (mut db, a) = may();
    db.record_ops(&vec![receive(5, "2022-07-02", WH2, a, 4, 44)]).unwrap();
    let (ops, checkpoints) = records(&db);
    let latest = db.checkpoints().get_latest_checkpoint_date();
    let back = restore(&ops, &checkpoints, latest).unwrap();
    assert_eq!(dump(&back), dump(&db));
    assert_eq!(restore(&Vec::new(), &Vec::new(), 0).unwrap().ordered().len(), 0);
}

#[test]
fn an_incoherent_store_is_refused_as_corrupt() {
    let (db, _) = may();
    let (ops, checkpoints) = records(&db);
    let latest = db.checkpoints().get_latest_checkpoint_date();

    let mut drifted = records(&db).0;
    drifted[1].1.qty += 1;
    assert_eq!(restore(&drifted, &checkpoints, latest).unwrap_err(), ErrorKind::Corrupt);

    let mut swapped = records(&db).0;
    swapped.swap(0, 1);
    assert_eq!(restore(&swapped, &checkpoints, latest).unwrap_err(), ErrorKind::Corrupt);

    assert_eq!(restore(&ops, &Vec::new(), latest).unwrap_err(), ErrorKind::Corrupt);

    let mut stale = checkpoints.clone();
    stale[0].number.cost -= 5;
    assert_eq!(restore(&ops, &stale, latest).unwrap_err(), ErrorKind::Corrupt);

    let mut orphan = checkpoints.clone();
    orphan.push(Balance { date: orphan[0].date + 1, ..orphan[0] });
    assert_eq!(restore(&ops, &orphan, latest).unwrap_err(), ErrorKind::Corrupt);

    assert_eq!(restore(&ops, &checkpoints, latest - 1).unwrap_err(), ErrorKind::Corrupt);

    let twice = vec![checkpoints[0], checkpoints[0]];
    assert_eq!(restore(&ops, &twice, latest).unwrap_err(), ErrorKind::Corrupt);
}

#[test]
fn plain_put_and_get() {
    let mut db = Db::new();
    let key = vec![1_u8, 2, 3];
    assert_eq!(db.get(&key).unwrap_err().kind(), ErrorKind::NotFound);
    db.put(&key, &"first".to_string()).unwrap();
    db.put(&vec![9], &"other".to_string()).unwrap();
    db.put(&key, &"second".to_string()).unwrap();
    assert_eq!(db.get(&key).unwrap(), "second");
    assert_eq!(db.get(&vec![9]).unwrap(), "other");
}

#[test]
fn a_copy_keeps_the_plain_texts_and_a_restored_store_has_none() {
    let (mut db, _) = may();
    let key = vec![1_u8, 2, 3];
    db.put(&key, &"first".to_string()).unwrap();
    let copy = db.duplicate();
    assert_eq!(copy.get(&key).unwrap(), "first");
    assert_eq!(dump(&copy), dump(&db));
    let back = Db::restore(db.ordered().duplicate(), db.checkpoints().duplicate()).unwrap();
    assert_eq!(back.get(&key).unwrap_err().kind(), ErrorKind::NotFound);
    assert_eq!(dump(&back), dump(&db));
}

#[test]
fn store_test_get_wh_ops() {
    let mut db = Db::new();

    let start_d = dt("2022-10-10").unwrap();
    let end_d = dt("2022-10-11").unwrap();
    let w1 = Uuid::new_v4().as_u128();
    let party = Batch { id: Uuid::new_v4().as_u128(), date: start_d };

    let id1 = Uuid::from_u128(101).as_u128();
    let id2 = Uuid::from_u128(102).as_u128();

    let ops = vec![
        OpMutation::new(
            id1,
            start_d,
            w1,
            None,
            G1,
            party.clone(),
            None,
            Some(InternalOperation::Receive(2.into(), 2000.into())),
        ),
        OpMutation::new(
            id2,
            start_d,
            w1,
            None,
            G1,
            party.clone(),
            None,
            Some(InternalOperation::Receive(1.into(), 1000.into())),
        ),
    ];

    db.record_ops(&ops).unwrap();

    let res = db.ordered().get_ops_for_storage(w1, start_d, end_d);
    assert_eq!(res.len(), 2);
    for i in 0..res.len() {
        assert!(res[i].same(&ops[i].to_op().unwrap()));
    }
}

#[test]
fn store_test_neg_balance_date_type_store_goods_id() {
    let mut db = Db::new();

    let op_d = dt("2022-10-10").expect("test_get_neg_balance");
    let check_d = dt("2022-10-11").expect("test_get_neg_balance");
    let w1 = Uuid::new_v4().as_u128();
    let party = Batch { id: Uuid::new_v4().as_u128(), date: op_d };

    let id1 = Uuid::from_u128(101).as_u128();

    let ops = vec![OpMutation::new(
        id1,
        op_d,
        w1,
        None,
        G1,
        party.clone(),
        None,
        Some(InternalOperation::Issue(2.into(), 2000.into(), Mode::Manual)),
    )];

    db.record_ops(&ops).expect("test_get_neg_balance");

    let agr = AgregationStoreGoods {
        store: Some(w1),
        goods: Some(G1),
        batch: Some(party.clone()),
        open_balance: BalanceDelta { qty: 0, cost: 0 },
        receive: BalanceDelta { qty: 0, cost: 0 },
        issue: BalanceDelta { qty: (-2).into(), cost: (-2000).into() },
        close_balance: BalanceDelta { qty: (-2).into(), cost: (-2000).into() },
    };

    let res = db.get_report_for_storage(w1, op_d, check_d).unwrap();
    assert_eq!(res.items.1[0], agr);
}
