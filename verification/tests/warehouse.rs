use nae_backend::animo::ops_manager::{following_light, preceding, OpsManager, Snapshot};
use nae_backend::animo::warehouse::{
    Balance, BalanceOperation, DeltaOp, WarehouseBalance, WarehouseContext, WarehouseOperation,
    WarehouseStock, WarehouseStockDelta, WarehouseStockTopology, WarehouseTopology, GOODS_ISSUE,
    GOODS_RECEIVE, ID, WH_TOPOLOGY,
};
use nae_backend::animo::{Animo, Memo, MemoOfList, Topology};
use nae_backend::error::ErrorKind;
use nae_backend::time::dt;

const WH1: ID = 0x7768_31;
const G1: ID = 0x6731;

fn time(date: &str) -> u64 {
    dt(date).unwrap()
}

fn event(date: &str, class: ID, goods: ID, qty: u32, cost: Option<u32>) -> Vec<WarehouseContext> {
    vec![WarehouseContext {
        instance_of: class,
        store: WH1,
        goods,
        date: time(date),
        qty: qty.into(),
        cost: cost.unwrap_or(0).into(),
    }]
}

#[test]
fn test_store_operations() {
    let mut db = Snapshot::new();
    let mut animo = Animo::new();
    assert!(animo.register_topology(Topology::WarehouseStore));

    println!("MODIFY A");
    animo.on_mutation(&mut db, &event("2022-05-27", GOODS_RECEIVE, G1, 10, Some(50))).expect("Ok");
    println!("MODIFY B");
    animo.on_mutation(&mut db, &event("2022-05-30", GOODS_RECEIVE, G1, 2, Some(10))).expect("Ok");
    println!("MODIFY C");
    animo.on_mutation(&mut db, &event("2022-05-28", GOODS_ISSUE, G1, 5, Some(25))).expect("Ok");

    println!("READING 2022-05-31");
    let g1_balance = WarehouseBalance::get_memo(&mut db, WH1, G1, time("2022-05-31")).expect("Ok");
    assert_eq!(Balance(7.into(), 35.into()), g1_balance);

    println!("READING 2022-05-28");
    let g1_balance = WarehouseBalance::get_memo(&mut db, WH1, G1, time("2022-05-28")).expect("Ok");
    assert_eq!(Balance(5.into(), 25.into()), g1_balance);

    println!("READING 2022-05-31");
    let g1_balance = WarehouseBalance::get_memo(&mut db, WH1, G1, time("2022-05-31")).expect("Ok");
    assert_eq!(Balance(7.into(), 35.into()), g1_balance);

    println!("MODIFY D");
    animo.on_mutation(&mut db, &event("2022-05-31", GOODS_ISSUE, G1, 1, Some(5))).expect("Ok");

    println!("READING 2022-05-31");
    let g1_balance = WarehouseBalance::get_memo(&mut db, WH1, G1, time("2022-05-31")).expect("Ok");
    assert_eq!(Balance(6.into(), 30.into()), g1_balance);
}

#[test]
fn test_warehouse_stock() {
    let mut db = Snapshot::new();
    let mut animo = Animo::new();
    assert!(animo.register_topology(Topology::WarehouseStore));
    assert!(animo.register_topology(Topology::WarehouseStoreAggregation));

    println!("MODIFY A");
    animo.on_mutation(&mut db, &event("2022-05-27", GOODS_RECEIVE, G1, 10, Some(50))).expect("Ok");
    println!("MODIFY B");
    animo.on_mutation(&mut db, &event("2022-05-30", GOODS_RECEIVE, G1, 2, Some(10))).expect("Ok");
    println!("MODIFY C");
    animo.on_mutation(&mut db, &event("2022-05-28", GOODS_ISSUE, G1, 5, Some(25))).expect("Ok");

    println!("READING 2022-05-31");
    let g1_balance = WarehouseStock::get_memo(&mut db, WH1, G1, time("2022-05-31")).expect("Ok");
    assert_eq!(Balance(7.into(), 35.into()), g1_balance);

    println!("READING 2022-05-28");
    let g1_balance = WarehouseStock::get_memo(&mut db, WH1, G1, time("2022-05-28")).expect("Ok");
    assert_eq!(Balance(5.into(), 25.into()), g1_balance);

    println!("READING 2022-05-31");
    let g1_balance = WarehouseStock::get_memo(&mut db, WH1, G1, time("2022-05-31")).expect("Ok");
    assert_eq!(Balance(7.into(), 35.into()), g1_balance);

    println!("MODIFY D");
    animo.on_mutation(&mut db, &event("2022-05-31", GOODS_ISSUE, G1, 1, Some(5))).expect("Ok");

    println!("READING 2022-05-31");
    let g1_balance = WarehouseStock::get_memo(&mut db, WH1, G1, time("2022-05-31")).expect("Ok");
    assert_eq!(Balance(6.into(), 30.into()), g1_balance);
}

#[test]
fn memos_of_other_goods_stay_as_they_are() {
    let mut db = Snapshot::new();
    let topology = WarehouseTopology();
    topology.on_mutation(&mut db, &event("2022-05-27", GOODS_RECEIVE, G1, 10, Some(50))).unwrap();
    topology.on_mutation(&mut db, &event("2022-05-27", GOODS_RECEIVE, 0x6732, 3, Some(9))).unwrap();
    let other = WarehouseBalance::get_memo(&mut db, WH1, 0x6732, time("2022-05-31")).unwrap();
    assert_eq!(other, Balance(3, 9));
    topology.on_mutation(&mut db, &event("2022-05-28", GOODS_ISSUE, G1, 4, Some(20))).unwrap();
    assert_eq!(
        WarehouseBalance::get_memo(&mut db, WH1, 0x6732, time("2022-05-31")).unwrap(),
        other,
    );
    assert_eq!(
        WarehouseBalance::get_memo(&mut db, WH1, G1, time("2022-05-31")).unwrap(),
        Balance(6, 30),
    );
}

#[test]
fn rewriting_an_operation_changes_the_memos_by_the_difference() {
    let mut db = Snapshot::new();
    let topology = WarehouseTopology();
    topology.on_mutation(&mut db, &event("2022-05-27", GOODS_RECEIVE, G1, 10, Some(50))).unwrap();
    assert_eq!(
        WarehouseBalance::get_memo(&mut db, WH1, G1, time("2022-05-31")).unwrap(),
        Balance(10, 50),
    );
    topology.on_mutation(&mut db, &event("2022-05-27", GOODS_RECEIVE, G1, 8, Some(40))).unwrap();
    assert_eq!(
        WarehouseBalance::get_memo(&mut db, WH1, G1, time("2022-05-31")).unwrap(),
        Balance(8, 40),
    );
}

#[test]
fn documents_of_other_kinds_write_nothing() {
    let mut db = Snapshot::new();
    WarehouseTopology().on_mutation(&mut db, &event("2022-05-27", 77, G1, 10, Some(50))).unwrap();
    assert_eq!(
        WarehouseBalance::get_memo(&mut db, WH1, G1, time("2022-05-31")).unwrap(),
        Balance(0, 0),
    );
    assert_eq!(
        WarehouseOperation::resolve(77, WH1, G1, 1, 1, 1).unwrap_err().kind(),
        ErrorKind::Invalid
    );
}

#[test]
fn balance_algebra() {
    let a = BalanceOperation::In(10, 50);
    let b = BalanceOperation::Out(8, 40);
    assert_eq!(a.delta_after_operation().unwrap(), Balance(10, 50));
    assert_eq!(b.delta_after_operation().unwrap(), Balance(-8, -40));
    assert_eq!(a.delta_between_operations(&BalanceOperation::In(8, 45)).unwrap(), Balance(-2, -5));
    assert_eq!(a.delta_between_operations(&b).unwrap(), Balance(-18, -90));
    assert_eq!(b.delta_between_operations(&a).unwrap(), Balance(18, 90));
    assert_eq!(
        b.delta_between_operations(&BalanceOperation::Out(12, 44)).unwrap(),
        Balance(-4, -4),
    );
    assert_eq!(Balance(1, 2).apply(&a).unwrap(), Balance(11, 52));
    assert_eq!(Balance(1, 2).apply(&b).unwrap(), Balance(-7, -38));
    assert_eq!(Balance(1, 2).add(&Balance(3, 4)).unwrap(), Balance(4, 6));
    assert_eq!(Balance(i64::MAX, 0).apply(&a).unwrap_err().kind(), ErrorKind::Capacity);
    assert_eq!(
        BalanceOperation::Out(i64::MIN, 0).delta_after_operation().unwrap_err().kind(),
        ErrorKind::Capacity
    );
    assert_eq!(BalanceOperation::new(GOODS_RECEIVE, 1, 2).unwrap(), BalanceOperation::In(1, 2));
    assert_eq!(BalanceOperation::new(GOODS_ISSUE, 1, 2).unwrap(), BalanceOperation::Out(1, 2));
}

#[test]
fn delta_of_a_change() {
    let before = WarehouseOperation { store: WH1, goods: G1, date: 5, op: BalanceOperation::In(
        10,
        50,
    ) };
    let after = WarehouseOperation { store: WH1, goods: G1, date: 5, op: BalanceOperation::In(
        12,
        66,
    ) };
    assert_eq!(DeltaOp::new(Some(before), Some(after)).delta().unwrap(), Balance(2, 16));
    assert_eq!(DeltaOp::new(Some(before), None).delta().unwrap(), Balance(-10, -50));
    assert_eq!(DeltaOp::new(None, Some(after)).delta().unwrap(), Balance(12, 66));
    assert_eq!(DeltaOp::new(Some(before), None).position(), before.position());
    assert_eq!(DeltaOp::new(Some(before), None).prefix(), 48);
    let d = WarehouseStockDelta::from(after).unwrap();
    assert_eq!((d.stock, d.goods, d.date, d.delta()), (WH1, G1, 5, Balance(12, 66)));
}

#[test]
fn positions_are_laid_out_in_bytes() {
    let p = WarehouseTopology::position_of_operation(1, 2, 3, BalanceOperation::In(0, 0));
    assert_eq!(p.len(), 57);
    assert_eq!(p[..16], WH_TOPOLOGY.to_be_bytes());
    assert_eq!(p[31], 1);
    assert_eq!(p[47], 2);
    assert_eq!(p[55], 3);
    assert_eq!(p[56], 0);
    let q = WarehouseTopology::position_of_operation(1, 2, 3, BalanceOperation::Out(0, 0));
    assert_eq!(q[56], 0xff);
    assert!(p < q);
    let zero = WarehouseTopology::topology_position_of_zero(1, 2);
    assert_eq!(zero[..48], p[..48]);
    assert_eq!(zero[48..], [0_u8; 9]);
    let memo = WarehouseTopology::local_topology_position_of_memo(1, 2, 3);
    assert!(p < memo);
    assert!(q <= memo);
    assert!(memo < WarehouseTopology::position_of_operation(1, 2, 4, BalanceOperation::In(0, 0)));
    let s = WarehouseStock::local_topology_position(1, 2, 3);
    assert_eq!(s.len(), 56);
    assert_eq!((s[31], s[39], s[55]), (1, 3, 2));
    assert_eq!(WarehouseTopology().depends_on().len(), 6);
}

#[test]
fn what_comes_in_stands_before_what_goes_out() {
    let mut db = Snapshot::new();
    let manager = OpsManager();
    let ops: Vec<WarehouseOperation> = vec![
        WarehouseOperation { store: WH1, goods: G1, date: 10, op: BalanceOperation::Out(2, 2) },
        WarehouseOperation { store: WH1, goods: G1, date: 10, op: BalanceOperation::In(5, 5) },
    ];
    manager.write_ops(&mut db, &ops).unwrap();
    let mut all = following_light(&db, &Vec::new());
    assert_eq!(all.next().unwrap().1, BalanceOperation::In(5, 5));
    assert_eq!(all.next().unwrap().1, BalanceOperation::Out(2, 2));
    assert!(all.next().is_none());
    assert_eq!(WarehouseBalance::get_memo(&mut db, WH1, G1, 10).unwrap(), Balance(3, 3));
    assert_eq!(WarehouseBalance::get_memo(&mut db, WH1, G1, 9).unwrap(), Balance(0, 0));
}

#[test]
fn stock_checkpoint_is_the_next_month_boundary() {
    assert_eq!(WarehouseStock::next_checkpoint(time("2022-05-27")).unwrap(), time("2022-06-01"));
    assert_eq!(WarehouseStock::next_checkpoint(time("2022-06-01")).unwrap(), time("2022-06-01"));
    assert_eq!(WarehouseStock::next_checkpoint(time("2022-12-31")).unwrap(), time("2023-01-01"));
    assert_eq!(
        WarehouseStock::local_topology_position_of_aggregation(1, 2, time("2022-05-27")).unwrap(),
        WarehouseStock::local_topology_position(1, 2, time("2022-06-01"))
    );
}

#[test]
fn iterators_walk_in_position_order() {
    let mut db = Snapshot::new();
    let manager = OpsManager();
    let ops: Vec<WarehouseOperation> = vec![
        WarehouseOperation { store: WH1, goods: G1, date: 30, op: BalanceOperation::In(3, 3) },
        WarehouseOperation { store: WH1, goods: G1, date: 10, op: BalanceOperation::In(1, 1) },
        WarehouseOperation { store: WH1, goods: G1, date: 20, op: BalanceOperation::Out(2, 2) },
    ];
    manager.write_ops(&mut db, &ops).unwrap();
    let from = WarehouseTopology::position_of_operation(WH1, G1, 15, BalanceOperation::Out(0, 0));
    let mut it = manager.ops_following(&db, &from);
    assert_eq!(it.next().unwrap().1, BalanceOperation::Out(2, 2));
    assert_eq!(it.next().unwrap().1, BalanceOperation::In(3, 3));
    assert!(it.next().is_none());
    assert!(it.next().is_none());
    let mut all = following_light(&db, &Vec::new());
    assert_eq!(all.next().unwrap().1, BalanceOperation::In(1, 1));

    let till = WarehouseTopology::local_topology_position_of_memo(WH1, G1, 20);
    let mut between = manager.ops_between_light(&db, from.clone(), till.clone());
    assert_eq!(between.next().unwrap().1, BalanceOperation::Out(2, 2));
    assert!(between.next().is_none());
    let mut heavy = manager.ops_between_heavy(&db, Vec::new(), till.clone());
    assert_eq!(heavy.next().unwrap().1, BalanceOperation::In(1, 1));

    assert!(manager.get_closest_memo(&db, till.clone()).is_none());
    assert_eq!(WarehouseBalance::get_memo(&mut db, WH1, G1, 20).unwrap(), Balance(-1, -1));
    assert_eq!(WarehouseBalance::get_memo(&mut db, WH1, G1, 10).unwrap(), Balance(1, 1));
    let later = WarehouseTopology::local_topology_position_of_memo(WH1, G1, 25);
    assert_eq!(manager.get_closest_memo(&db, later.clone()).unwrap(), Balance(-1, -1));
    assert_eq!(manager.get_closest_light_value(&db, later.clone()).unwrap().0, till);
    let mut back = preceding(&db, later);
    assert_eq!(back.next().unwrap().1, Balance(-1, -1));
    assert_eq!(back.next().unwrap().1, Balance(1, 1));
    assert!(back.next().is_none());
    let mut after = manager.memos_after(&db, &till);
    assert_eq!(after.next().unwrap().1, Balance(-1, -1));
    assert!(after.next().is_none());
    assert_eq!(WarehouseBalance::get_memo(&mut db, WH1, G1, 40).unwrap(), Balance(2, 2));
}

#[test]
fn stock_memos_take_the_changes_after_them() {
    let mut db = Snapshot::new();
    let stock = WarehouseStockTopology();
    let op = |date: &str, op: BalanceOperation| WarehouseOperation { store: WH1, goods: G1, date: time(date), op };
    stock.on_operation(&mut db, op("2022-05-27", BalanceOperation::In(10, 50))).unwrap();
    stock.on_operation(&mut db, op("2022-06-03", BalanceOperation::In(2, 10))).unwrap();
    stock.on_operation(&mut db, op("2022-05-28", BalanceOperation::Out(5, 25))).unwrap();
    let june = WarehouseStock::local_topology_position(WH1, G1, time("2022-06-01"));
    let july = WarehouseStock::local_topology_position(WH1, G1, time("2022-07-01"));
    assert_eq!(db.stock_memo(&june), Some(Balance(5, 25)));
    assert_eq!(db.stock_memo(&july), Some(Balance(-3, -15)));
    let manager = OpsManager();
    let other = WarehouseStockDelta { stock: WH1, goods: 0x6732, date: time("2022-05-01"), delta: Balance(1, 1) };
    manager.write_aggregation_delta(&mut db, &other).unwrap();
    let far = WarehouseStockDelta { stock: WH1, goods: G1, date: u64::MAX, delta: Balance(1, 1) };
    assert_eq!(
        manager.write_aggregation_delta(&mut db, &far).unwrap_err().kind(),
        ErrorKind::Invalid,
    );
    let full = WarehouseStockDelta { stock: WH1, goods: G1, date: time("2022-05-01"), delta: Balance(i64::MAX, 0) };
    assert_eq!(
        manager.write_aggregation_delta(&mut db, &full).unwrap_err().kind(),
        ErrorKind::Capacity,
    );
    let memos: Vec<(Vec<u8>, Balance)> = {
        let mut all = Vec::new();
        let mut it = manager.memos_after(&db, &Vec::new());
        while let Some(x) = it.next() {
            all.push(x);
        }
        all
    };
    assert!(memos.is_empty());
    assert_eq!(db.stock_memo(&june), Some(Balance(5, 25)));
    assert_eq!(db.stock_memo(&july), Some(Balance(-3, -15)));
    assert_eq!(
        db.stock_memo(&WarehouseStock::local_topology_position(WH1, 0x6732, time("2022-05-01"))),
        Some(Balance(1, 1))
    );
    assert_eq!(db.stock_memo(&Vec::new()), None);
}

#[test]
fn memo_keeps_its_object() {
    let m = Memo::new(7_u32);
    assert_eq!(*m.value(), 7);
    let list = MemoOfList::new(vec![Memo::new(1_u8), Memo::new(2_u8)]);
    assert_eq!(list.len(), 2);
    assert_eq!(*list.get(1).unwrap().value(), 2);
    assert!(list.get(2).is_none());
    assert_eq!(list.list().len(), 2);
    let seen: Vec<u8> = list.iter().map(|m| *m.value()).collect();
    assert_eq!(seen, vec![1, 2]);
}

fn context(date: u64, class: ID, qty: i64, cost: i64) -> WarehouseContext {
    WarehouseContext { instance_of: class, store: WH1, goods: G1, date, qty, cost }
}

#[test]
fn writing_ends_at_the_movement_that_cannot_be_written() {
    let mut db = Snapshot::new();
    let mut animo = Animo::new();
    animo.register_topology(Topology::WarehouseStore);
    animo.register_topology(Topology::WarehouseStoreAggregation);
    let day = time("2022-05-27");
    let list = vec![
        context(day, GOODS_RECEIVE, 10, 50),
        context(day + 1, GOODS_ISSUE, i64::MIN, 0),
        context(day + 2, GOODS_RECEIVE, 1, 1),
    ];
    assert_eq!(animo.on_mutation(&mut db, &list).unwrap_err().kind(), ErrorKind::Capacity);
    let mut all = following_light(&db, &Vec::new());
    assert_eq!(all.next().unwrap().1, BalanceOperation::In(10, 50));
    assert!(all.next().is_none());
    let june = WarehouseStock::local_topology_position(WH1, G1, time("2022-06-01"));
    assert_eq!(db.stock_memo(&june), None);

    let mut db = Snapshot::new();
    assert_eq!(
        WarehouseTopology().on_mutation(&mut db, &list).unwrap_err().kind(),
        ErrorKind::Capacity
    );
    let mut all = following_light(&db, &Vec::new());
    assert_eq!(all.next().unwrap().1, BalanceOperation::In(10, 50));
    assert!(all.next().is_none());
}

#[test]
fn stock_ends_at_the_movement_that_it_cannot_take() {
    let mut db = Snapshot::new();
    let mut animo = Animo::new();
    animo.register_topology(Topology::WarehouseStore);
    animo.register_topology(Topology::WarehouseStoreAggregation);
    let day = time("2022-05-27");
    let list = vec![
        context(day, GOODS_RECEIVE, 10, 50),
        context(day + 1, GOODS_RECEIVE, i64::MAX, 0),
        context(day + 2, GOODS_RECEIVE, 1, 1),
    ];
    assert_eq!(animo.on_mutation(&mut db, &list).unwrap_err().kind(), ErrorKind::Capacity);
    let mut all = following_light(&db, &Vec::new());
    assert_eq!(all.next().unwrap().1, BalanceOperation::In(10, 50));
    assert_eq!(all.next().unwrap().1, BalanceOperation::In(i64::MAX, 0));
    assert_eq!(all.next().unwrap().1, BalanceOperation::In(1, 1));
    let june = WarehouseStock::local_topology_position(WH1, G1, time("2022-06-01"));
    assert_eq!(db.stock_memo(&june), Some(Balance(10, 50)));
}

#[test]
fn nothing_is_written_without_a_registered_topology() {
    let mut db = Snapshot::new();
    let animo = Animo::new();
    animo.on_mutation(&mut db, &event("2022-05-27", GOODS_RECEIVE, G1, 10, Some(50))).unwrap();
    assert_eq!(WarehouseBalance::get_memo(&mut db, WH1, G1, time("2022-05-31")).unwrap(), Balance(0, 0));
}

#[test]
fn registered_aggregation_keeps_the_stock() {
    let mut db = Snapshot::new();
    let mut animo = Animo::new();
    animo.register_topology(Topology::WarehouseStore);
    animo.register_topology(Topology::WarehouseStoreAggregation);
    animo.on_mutation(&mut db, &event("2022-05-27", GOODS_RECEIVE, G1, 10, Some(50))).unwrap();
    let june = WarehouseStock::local_topology_position(WH1, G1, time("2022-06-01"));
    assert_eq!(db.stock_memo(&june), Some(Balance(10, 50)));
    animo.on_mutation(&mut db, &event("2022-05-28", GOODS_ISSUE, G1, 5, Some(25))).unwrap();
    assert_eq!(db.stock_memo(&june), Some(Balance(5, 25)));
}

#[test]
fn aggregation_follows_the_first_topology() {
    let mut animo = Animo::new();
    assert!(!animo.register_topology(Topology::WarehouseStoreAggregation));
    assert!(animo.register_topology(Topology::WarehouseStore));
    assert!(animo.register_topology(Topology::WarehouseStoreAggregation));
    assert_eq!(
        animo.dependants_of(Topology::WarehouseStore),
        vec![Topology::WarehouseStoreAggregation]
    );
    assert!(animo.dependants_of(Topology::WarehouseStoreAggregation).is_empty());
}
