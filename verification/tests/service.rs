use nae_backend::aggregations::{new_get_aggregations, MAX_REPORT_INPUT};
use nae_backend::checkpoints::check_date_store_batch::{total_for_goods, CheckDateStoreBatch};
use nae_backend::checkpoints::check_key::{build_check_key, key_to_data};
use nae_backend::elements::{
    delta_of, Balance, BalanceDelta, BalanceForGoods, Batch, InternalOperation, Mode, Op,
};
use nae_backend::error::{join_text, ErrorKind, WHError};
use nae_backend::ids::{push_id, read_id};
use nae_backend::memories::{
    doc_id, file_name, folder, kind_of, latest_path, line_op, mutations, remove_prefix,
    version_path, DocKind, DocOp,
};
use nae_backend::processor::{allocate, share_cost};
use nae_backend::service::{date, date_range, limit, skip, DateRange, NoService};
use nae_backend::time::{
    dt, first_day_current_month, first_day_next_month, next_checkpoint, parse_date, time_to_string,
};
use nae_backend::topologies::date_type_store_batch_id::DateTypeStoreBatchId;
use nae_backend::topologies::op_key::build_key;

#[test]
fn limit_is_capped_and_defaults() {
    assert_eq!(limit(None), 10);
    assert_eq!(limit(Some(0)), 0);
    assert_eq!(limit(Some(25)), 25);
    assert_eq!(limit(Some(100)), 100);
    assert_eq!(limit(Some(101)), 100);
    assert_eq!(limit(Some(u64::MAX)), 100);
    assert_eq!(skip(None), 0);
    assert_eq!(skip(Some(7)), 7);
}

#[test]
fn dates_of_a_request() {
    assert_eq!(parse_date("2022-05-27").unwrap(), 1653609600);
    assert_eq!(date(Some("1970-01-02")).unwrap(), Some(86400));
    assert_eq!(date(None).unwrap(), None);
    let e = parse_date("yesterday").unwrap_err();
    assert_eq!(e.kind(), ErrorKind::Invalid);
    assert_eq!(e.message(), "invalid date yesterday");
    assert_eq!(parse_date("1969-12-31").unwrap_err().kind(), ErrorKind::Invalid);
    assert_eq!(
        date_range(Some("2023-01-05"), Some("2023-01-07")).unwrap(),
        Some(DateRange(1672876800, 1673049600))
    );
    assert_eq!(date_range(None, Some("2023-01-07")).unwrap(), None);
    let missing = date_range(Some("2023-01-05"), None).unwrap_err();
    assert_eq!(missing.message(), "dates require `till`");
    assert!(date_range(Some("2023-01-05"), Some("x")).is_err());
}

#[test]
fn missing_service_refuses_everything() {
    let s = NoService("docs".to_string());
    assert_eq!(s.path(), "docs");
    let e = s.error();
    assert_eq!(e.kind(), ErrorKind::NotFound);
    assert_eq!(e.message(), "service docs");
    assert_eq!(s.find().unwrap_err().message(), "service docs");
    assert!(s.get("1").is_err() && s.create().is_err() && s.update("1").is_err());
    assert!(s.patch("1").is_err() && s.remove("1").is_err());
    assert_eq!(join_text("ab", "cd"), "abcd");
    assert_eq!(WHError::new(ErrorKind::IO, "disk").message(), "disk");
}

#[test]
fn month_boundaries() {
    let d = |s: &str| dt(s).unwrap();
    assert_eq!(d("1970-01-01"), 0);
    assert_eq!(d("2022-05-27"), 1653609600);
    assert_eq!(dt("2022-13-01").unwrap_err().kind(), ErrorKind::Invalid);
    assert_eq!(first_day_current_month(d("2022-05-27") + 3600).unwrap(), d("2022-05-01"));
    assert_eq!(first_day_current_month(d("2022-05-01")).unwrap(), d("2022-05-01"));
    assert_eq!(first_day_next_month(d("2022-05-27")).unwrap(), d("2022-06-01"));
    assert_eq!(first_day_next_month(d("2022-06-01")).unwrap(), d("2022-07-01"));
    assert_eq!(first_day_next_month(d("2022-12-15")).unwrap(), d("2023-01-01"));
    assert_eq!(first_day_next_month(d("2024-02-29")).unwrap(), d("2024-03-01"));
    assert_eq!(next_checkpoint(d("2022-06-01")).unwrap(), d("2022-06-01"));
    assert_eq!(next_checkpoint(d("2022-06-01") + 1).unwrap(), d("2022-07-01"));
    assert_eq!(next_checkpoint(d("2022-06-02")).unwrap(), d("2022-07-01"));
    assert_eq!(next_checkpoint(u64::MAX).unwrap_err().kind(), ErrorKind::Invalid);
    assert_eq!(
        time_to_string(d("2023-01-06") + 12 * 3600 + 43 * 60 + 15).unwrap(),
        "2023-01-06T12:43:15Z",
    );
    assert!(time_to_string(u64::MAX).is_err());
}

#[test]
fn document_paths() {
    let b = |s: &str| s.as_bytes().to_vec();
    assert_eq!(
        remove_prefix(&b("warehouse/receive/2023-01-06T12:43:15Z")),
        b("2023-01-06T12:43:15Z"),
    );
    assert_eq!(remove_prefix(&b("2023-01-06T12:43:15Z")), b("2023-01-06T12:43:15Z"));
    assert_eq!(remove_prefix(&b("a/")), b(""));
    let id = doc_id(&vec![b("warehouse"), b("receive")], &b("2023-01-06T12:43:15Z"));
    assert_eq!(id, b("warehouse/receive/2023-01-06T12:43:15Z"));
    let f = folder(&b("data/warehouse/receive"), &id).unwrap();
    assert_eq!(f, b("data/warehouse/receive/2023/01/2023-01-06T12:43:15Z"));
    assert_eq!(folder(&b("data"), &b("ctx/short")), None);
    assert_eq!(
        latest_path(&f),
        b("data/warehouse/receive/2023/01/2023-01-06T12:43:15Z/latest.json"),
    );
    assert_eq!(file_name(&b("2023-01-07T00:00:00Z")), b("2023-01-07T00:00:00Z.json"));
    assert_eq!(
        version_path(&b("d"), &b("2023-01-07T00:00:00Z")),
        b("d/2023-01-07T00:00:00Z.json")
    );
}

#[test]
fn lines_of_documents_become_operations() {
    let b = |s: &str| s.as_bytes().to_vec();
    assert_eq!(kind_of(&b("receive")), Some(DocKind::Receive));
    assert_eq!(kind_of(&b("issue")), Some(DocKind::Issue));
    assert_eq!(kind_of(&b("transfer")), Some(DocKind::Transfer));
    assert_eq!(kind_of(&b("inventory")), None);
    let received = line_op(DocKind::Receive, 7, 100, 1, None, 2, None, 3, 30);
    assert_eq!(received.batch, Batch { id: 7, date: 100 });
    assert_eq!(received.op, InternalOperation::Receive(3, 30));
    let issued = line_op(DocKind::Issue, 8, 200, 1, None, 2, None, 1, 0);
    assert_eq!(issued.batch, Batch::no());
    assert_eq!(issued.op, InternalOperation::Issue(1, 0, Mode::Auto));
    let named = Batch { id: 7, date: 100 };
    let moved = line_op(DocKind::Transfer, 9, 300, 1, Some(5), 2, Some(named), 1, 10);
    assert_eq!((moved.batch, moved.transfer, moved.op), (named, Some(5), InternalOperation::Transfer(1, 10)));

    let changed = DocOp { op: InternalOperation::Receive(4, 40), ..received };
    let later = DocOp { date: 250, ..issued };
    let got = mutations(&vec![received, issued], &vec![changed, later, moved]);
    let kinds: Vec<(u128, bool, bool)> =
        got.iter().map(|m| (m.id, m.before.is_some(), m.after.is_some())).collect();
    assert_eq!(kinds, vec![(8, true, false), (7, true, true), (8, false, true), (9, false, true)]);
    assert_eq!(got[1].before, Some(InternalOperation::Receive(3, 30)));
    assert_eq!(got[1].after, Some(InternalOperation::Receive(4, 40)));
    assert_eq!((got[0].date, got[2].date), (200, 250));
    assert!(mutations(&vec![received], &vec![received]).is_empty());
    assert_eq!(mutations(&vec![received], &Vec::new())[0].after, None);
}

#[test]
fn identities_are_sixteen_big_endian_bytes() {
    let mut buf = vec![7_u8];
    push_id(&mut buf, 0x0102_0304_0506_0708_090a_0b0c_0d0e_0f10);
    assert_eq!(buf, vec![7, 1, 2, 3, 4, 5, 6, 7, 8, 9, 10, 11, 12, 13, 14, 15, 16]);
    assert_eq!(read_id(&buf, 1).unwrap(), 0x0102_0304_0506_0708_090a_0b0c_0d0e_0f10);
    assert_eq!(read_id(&buf, 2).unwrap_err().kind(), ErrorKind::Corrupt);
    assert_eq!(read_id(&vec![1, 2, 3], 0).unwrap_err().kind(), ErrorKind::Corrupt);
}

#[test]
fn operation_key_layout() {
    let key = build_key(0x0102, 0xff, 3, 4, Batch { id: 6, date: 5 }, 7, 1);
    assert_eq!(key.len(), 82);
    assert_eq!(key[..8], [0, 0, 0, 0, 0, 0, 1, 2]);
    assert_eq!(key[8], 0xff);
    assert_eq!(key[24], 3);
    assert_eq!(key[40], 4);
    assert_eq!(key[48], 5);
    assert_eq!(key[64], 6);
    assert_eq!(key[80], 7);
    assert_eq!(key[81], 1);
    let t = DateTypeStoreBatchId::new();
    let op = Op {
        id: 7,
        date: 0x0102,
        store: 3,
        goods: 4,
        batch: Batch { id: 6, date: 5 },
        op: InternalOperation::Issue(1, 1, Mode::Auto),
        is_dependent: true,
        dependant: Vec::new(),
    };
    assert_eq!(t.key(&op), key);
    assert_eq!(t.key_build(3, 4, Batch { id: 6, date: 5 }, 0x0102, 0xff, 7, true), key);
    assert_eq!(DateTypeStoreBatchId::cf_name(), "cf_ops_date_type_store_batch_id");
    assert_eq!(CheckDateStoreBatch::cf_name(), "cf_checkpoint_date_store_batch");
}

#[test]
fn checkpoint_key_round_trip() {
    let batch = Batch { id: 0xdead_beef, date: 1653609600 };
    let key = build_check_key(1654041600, 11, 22, batch);
    assert_eq!(key.len(), 64);
    assert_eq!(key_to_data(&key).unwrap(), (1654041600, 11, 22, batch));
    assert_eq!(key_to_data(&key[..63].to_vec()).unwrap_err().kind(), ErrorKind::Corrupt);
    let mut long = key.clone();
    long.push(0);
    assert_eq!(key_to_data(&long).unwrap_err().kind(), ErrorKind::Corrupt);
    let t = CheckDateStoreBatch::new();
    assert_eq!(t.key(11, 22, batch, 1653609600).unwrap(), key);
    assert_eq!(t.key_latest_checkpoint_date(), vec![0_u8; 64]);
}

#[test]
fn topology_put_get_del() {
    let mut t = DateTypeStoreBatchId::new();
    let mut op = Op {
        id: 7,
        date: 100,
        store: 3,
        goods: 4,
        batch: Batch { id: 6, date: 5 },
        op: InternalOperation::Receive(2, 20),
        is_dependent: false,
        dependant: Vec::new(),
    };
    let b = BalanceForGoods { qty: 2, cost: 20 };
    assert!(t.put(&op, &b).unwrap().is_none());
    assert_eq!(t.get(&op).unwrap().1, b);
    let was = t.put(&op, &BalanceForGoods { qty: 9, cost: 9 }).unwrap().unwrap();
    assert_eq!(was.1, b);
    assert_eq!(t.len(), 1);
    assert_eq!(t.get_ops_for_one_goods(3, 4, 100, 100).len(), 1);
    assert_eq!(t.get_ops_for_one_goods(3, 5, 0, 200).len(), 0);
    assert_eq!(t.get_ops_for_many_goods(&vec![9, 4], 0, 200).len(), 1);
    assert_eq!(t.get_ops_for_all(101, 200).len(), 0);
    t.del(&op).unwrap();
    assert_eq!(t.del(&op).unwrap_err().kind(), ErrorKind::NotFound);
    op.op = InternalOperation::Receive(0, 0);
    assert_eq!(t.put(&op, &b).unwrap_err().kind(), ErrorKind::Invalid);
}

#[test]
fn checkpoint_topology_set_get_del() {
    let mut t = CheckDateStoreBatch::new();
    let key = build_check_key(1654041600, 11, 22, Batch { id: 1, date: 2 });
    assert_eq!(t.get_balance(&key), BalanceForGoods { qty: 0, cost: 0 });
    t.set_balance(&key, BalanceForGoods { qty: 5, cost: 6 }).unwrap();
    t.set_balance(&key, BalanceForGoods { qty: 7, cost: 8 }).unwrap();
    assert_eq!(t.len(), 1);
    assert_eq!(t.get_balance(&key), BalanceForGoods { qty: 7, cost: 8 });
    assert_eq!(
        t.set_balance(&vec![1, 2], BalanceForGoods { qty: 1, cost: 1 }).unwrap_err().kind(),
        ErrorKind::Corrupt,
    );
    t.set_latest_checkpoint_date(1654041600);
    assert_eq!(t.get_latest_checkpoint_date(), 1654041600);
    assert_eq!(t.get_checkpoints_for_all(1654041600 + 86400).unwrap().1.len(), 1);
    assert_eq!(t.get_checkpoints_for_all(1654041600 - 1).unwrap().1.len(), 0);
    let (from, totals) = t.get_checkpoints_for_many_goods(1654041600, &vec![22, 23, 22]).unwrap();
    assert_eq!(from, 1654041600);
    assert_eq!(totals.len(), 2);
    assert_eq!(totals[&22], BalanceDelta { qty: 7, cost: 8 });
    assert_eq!(totals[&23], BalanceDelta { qty: 0, cost: 0 });
    assert_eq!(t.balances_for_store_goods(1654041600, 11, 22).unwrap().0, 1654041600);
    assert_eq!(
        t.get_checkpoints_for_one_goods_with_date(11, 22, 1654041600).unwrap().1,
        BalanceDelta { qty: 7, cost: 8 }
    );
    t.del_balance(&key);
    assert_eq!(t.len(), 0);
}

#[test]
fn cost_of_a_part_rounds_down() {
    assert_eq!(share_cost(18, 1, 2), 9);
    assert_eq!(share_cost(10, 1, 3), 3);
    assert_eq!(share_cost(-10, 1, 3), -4);
    assert_eq!(share_cost(10, 3, 3), 10);
    assert_eq!(share_cost(i64::MIN, 1, 1), i64::MIN);
    assert_eq!(
        delta_of(&InternalOperation::Issue(i64::MIN, 1, Mode::Auto), false).qty,
        1_i128 << 63,
    );
    assert_eq!(
        delta_of(&InternalOperation::Transfer(2, 3), true),
        BalanceDelta { qty: 2, cost: 3 },
    );
    assert_eq!(
        delta_of(&InternalOperation::Transfer(2, 3), false),
        BalanceDelta { qty: -2, cost: -3 },
    );
}

#[test]
fn allocation_skips_empty_and_negative_batches() {
    let m = nae_backend::elements::OpMutation::new(1, 100, 2, None, 3, Batch::no(), None, None);
    let row = |id: u128, qty: i64, cost: i64| Balance {
        date: 100,
        store: 2,
        goods: 3,
        batch: Batch { id, date: id as u64 },
        number: BalanceForGoods { qty, cost },
    };
    let rows = vec![row(1, -5, -50), row(0, 9, 9), row(2, 3, 10), row(3, 10, 100)];
    let kids = allocate(&m, 5, 0, Mode::Auto, &rows);
    let got: Vec<(u128, InternalOperation)> = kids.iter().map(|k| (k.batch.id, k.op)).collect();
    assert_eq!(
        got,
        vec![
            (2, InternalOperation::Issue(3, 10, Mode::Auto)),
            (3, InternalOperation::Issue(2, 20, Mode::Auto)),
        ]
    );
    assert_eq!(total_for_goods(&rows, 3), BalanceDelta { qty: 17, cost: 69 });
}

#[test]
fn aggregation_of_plain_values() {
    let batch = Batch { id: 1, date: 1 };
    let op = |id: u128, date: u64, op: InternalOperation| Op {
        id,
        date,
        store: 2,
        goods: 3,
        batch,
        op,
        is_dependent: false,
        dependant: Vec::new(),
    };
    let opening = Balance { date: 10, store: 2, goods: 3, batch, number: BalanceForGoods { qty: 5, cost: 50 } };
    let ops = vec![
        op(1, 10, InternalOperation::Receive(100, 1000)),
        op(2, 15, InternalOperation::Receive(1, 10)),
        op(3, 20, InternalOperation::Receive(2, 20)),
        op(4, 25, InternalOperation::Issue(3, 30, Mode::Manual)),
    ];
    let (total, lines) = new_get_aggregations(vec![opening], ops, 20).unwrap();
    assert_eq!(lines.len(), 1);
    assert_eq!(lines[0].open_balance, BalanceDelta { qty: 6, cost: 60 });
    assert_eq!(lines[0].receive, BalanceDelta { qty: 2, cost: 20 });
    assert_eq!(lines[0].issue, BalanceDelta { qty: -3, cost: -30 });
    assert_eq!(lines[0].close_balance, BalanceDelta { qty: 5, cost: 50 });
    assert_eq!((total.store, total.open_balance, total.receive, total.issue, total.close_balance),
        (Some(2), 60, 20, -30, 50));
    let (none, empty) = new_get_aggregations(Vec::new(), Vec::new(), 0).unwrap();
    assert_eq!((none.store, empty.len()), (None, 0));
    assert!(MAX_REPORT_INPUT > 1_000_000);
}
