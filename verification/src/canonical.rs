//! A coherent store is determined by the operations it holds: the running
//! balances and the checkpoints are functions of them.

use crate::balances::{balance_on_date, place_of, psum};
use crate::bytes::lex_lt;
use crate::checkpoints::check_date_store_batch::check_has_key;
use crate::checkpoints::check_key::{
    check_key_of, check_parts_of, lemma_check_key_order, CheckParts,
};
use crate::coherence::{active, check_place, has_snapshot, snapshot_of};
use crate::db::Db;
use crate::time::checkpoint_date;
use crate::ordered::lemma_same_keys_same_order;
use vstd::prelude::*;

verus! {

/// The key of every checkpoint of one coherent store is the key of a
/// checkpoint of any other coherent store that holds the same operations.
proof fn lemma_snapshot_keys_shared(a: &Db, b: &Db, k: int)
    requires
        a.wf(),
        b.wf(),
        a.ops() == b.ops(),
        0 <= k < a.snapshots().len(),
    ensures
        check_has_key(b.snapshots(), a.snapshots()[k].key),
{
    reveal(active);
    reveal(has_snapshot);
    let c = a.snapshots()[k];
    let ops = a.ops();
    assert(active(ops, check_place(c.balance), c.balance.date));
    let i = choose|i: int|
        0 <= i < ops.len() && place_of(#[trigger] ops[i]) == check_place(c.balance)
            && checkpoint_date(ops[i].date) == Some(c.balance.date);
    assert(has_snapshot(b.snapshots(), snapshot_of(ops[i])));
    assert(c.key == check_key_of(c.balance));
    assert(check_parts_of(c.balance) == (CheckParts {
        date: c.balance.date,
        store: c.balance.store,
        goods: c.balance.goods,
        batch_date: c.balance.batch.date,
        batch_id: c.balance.batch.id,
    }));
}

/// Two coherent stores that hold the same operations hold the same running
/// balances and the same checkpoints.
pub proof fn lemma_canonical(a: &Db, b: &Db)
    requires
        a.wf(),
        b.wf(),
        a.ops() == b.ops(),
    ensures
        a.entries() == b.entries(),
        a.snapshots() == b.snapshots(),
{
    let ops = a.ops();
    let ea = a.entries();
    let eb = b.entries();
    assert(ea.len() == ops.len() && eb.len() == ops.len());
    assert forall|i: int| 0 <= i < ea.len() implies ea[i] == eb[i] by {
        assert(ea[i].op == ops[i] && eb[i].op == ops[i]);
        assert(ea[i].balance.amount() == psum(ops, place_of(ea[i].op), i + 1));
        assert(eb[i].balance.amount() == psum(ops, place_of(eb[i].op), i + 1));
        assert(ea[i].balance == eb[i].balance);
    }
    assert(ea =~= eb);
    let ca = a.snapshots();
    let cb = b.snapshots();
    assert forall|k: int| 0 <= k < ca.len() implies check_has_key(cb, #[trigger] ca[k].key) by {
        lemma_snapshot_keys_shared(a, b, k);
    }
    assert forall|k: int| 0 <= k < cb.len() implies check_has_key(ca, #[trigger] cb[k].key) by {
        lemma_snapshot_keys_shared(b, a, k);
    }
    let ka = Seq::new(ca.len(), |k: int| ca[k].key);
    let kb = Seq::new(cb.len(), |k: int| cb[k].key);
    assert forall|k: int| 0 <= k < ka.len() implies kb.contains(#[trigger] ka[k]) by {
        assert(check_has_key(cb, ca[k].key));
        let j = choose|j: int| 0 <= j < cb.len() && #[trigger] cb[j].key == ca[k].key;
        assert(kb[j] == ka[k]);
    }
    assert forall|k: int| 0 <= k < kb.len() implies ka.contains(#[trigger] kb[k]) by {
        assert(check_has_key(ca, cb[k].key));
        let j = choose|j: int| 0 <= j < ca.len() && #[trigger] ca[j].key == cb[k].key;
        assert(ka[j] == kb[k]);
    }
    assert forall|x: int, y: int| 0 <= x < y < ka.len() implies lex_lt(
        #[trigger] ka[x],
        #[trigger] ka[y],
    ) by {
        assert(lex_lt(ca[x].key, ca[y].key));
    }
    assert forall|x: int, y: int| 0 <= x < y < kb.len() implies lex_lt(
        #[trigger] kb[x],
        #[trigger] kb[y],
    ) by {
        assert(lex_lt(cb[x].key, cb[y].key));
    }
    lemma_same_keys_same_order(ka, kb);
    assert(ca.len() == cb.len());
    assert forall|k: int| 0 <= k < ca.len() implies ca[k] == cb[k] by {
        assert(ka[k] == kb[k]);
        assert(ca[k].key == check_key_of(ca[k].balance));
        assert(cb[k].key == check_key_of(cb[k].balance));
        lemma_check_key_order(check_parts_of(ca[k].balance), check_parts_of(cb[k].balance));
        assert(ca[k].balance.number.amount() == balance_on_date(
            ops,
            check_place(ca[k].balance),
            ca[k].balance.date,
        ));
        assert(cb[k].balance.number.amount() == balance_on_date(
            ops,
            check_place(cb[k].balance),
            cb[k].balance.date,
        ));
        assert(ca[k].balance.number == cb[k].balance.number);
        assert(ca[k].balance == cb[k].balance);
    }
    assert(ca =~= cb);
}

} // verus!
