//! The key under which an operation is stored:
//! `ts | op_order | store | goods | batch.date | batch.id | op.id | dependent`,
//! 82 bytes, every field big-endian.

use crate::bytes::{
    be_bytes, first_diff, lemma_be_bytes_len, lemma_be_bytes_order, lemma_concat_equal,
    lemma_lex_lt_concat, lemma_pow256_values, lex_lt, push_be,
};
use crate::elements::{Batch, Goods, OpView, Store};
use crate::ids::push_id;
use vstd::prelude::*;

verus! {

/// The length of an operation key.
pub const OP_KEY_LEN: usize = 82;

/// The fields of an operation key, in key order.
pub struct KeyParts {
    pub date: u64,
    pub order: u8,
    pub store: Store,
    pub goods: Goods,
    pub batch_date: u64,
    pub batch_id: u128,
    pub id: u128,
    pub dep: u8,
}

/// The tuple order on key fields.
pub open spec fn parts_lt(a: KeyParts, b: KeyParts) -> bool {
    a.date < b.date || (a.date == b.date && (a.order < b.order || (a.order == b.order && (a.store
        < b.store || (a.store == b.store && (a.goods < b.goods || (a.goods == b.goods && (
    a.batch_date < b.batch_date || (a.batch_date == b.batch_date && (a.batch_id < b.batch_id || (
    a.batch_id == b.batch_id && (a.id < b.id || (a.id == b.id && a.dep < b.dep)))))))))))))
}

pub open spec fn tail_id(p: KeyParts) -> Seq<u8> {
    be_bytes(p.id as nat, 16) + seq![p.dep]
}

pub open spec fn tail_batch_id(p: KeyParts) -> Seq<u8> {
    be_bytes(p.batch_id as nat, 16) + tail_id(p)
}

pub open spec fn tail_batch_date(p: KeyParts) -> Seq<u8> {
    be_bytes(p.batch_date as nat, 8) + tail_batch_id(p)
}

pub open spec fn tail_goods(p: KeyParts) -> Seq<u8> {
    be_bytes(p.goods as nat, 16) + tail_batch_date(p)
}

pub open spec fn tail_store(p: KeyParts) -> Seq<u8> {
    be_bytes(p.store as nat, 16) + tail_goods(p)
}

pub open spec fn tail_order(p: KeyParts) -> Seq<u8> {
    seq![p.order] + tail_store(p)
}

/// The bytes of a key.
#[verifier::opaque]
pub open spec fn key_bytes(p: KeyParts) -> Seq<u8> {
    be_bytes(p.date as nat, 8) + tail_order(p)
}

/// The byte that stands for the dependent flag.
pub open spec fn dep_byte(is_dependent: bool) -> u8 {
    if is_dependent {
        1
    } else {
        0
    }
}

/// The key fields of an operation.
pub open spec fn parts_of(o: OpView) -> KeyParts {
    KeyParts {
        date: o.date,
        order: o.order(),
        store: o.store,
        goods: o.goods,
        batch_date: o.batch.date,
        batch_id: o.batch.id,
        id: o.id,
        dep: dep_byte(o.is_dependent),
    }
}

/// The key of an operation.
pub open spec fn key_of(o: OpView) -> Seq<u8> {
    key_bytes(parts_of(o))
}

/// The least key dated `ts`.
pub open spec fn lowest(ts: u64, store: Store, goods: Goods) -> KeyParts {
    KeyParts { date: ts, order: 0, store, goods, batch_date: 0, batch_id: 0, id: 0, dep: 0 }
}

/// A bound above every operation key dated `ts` on the given store and goods.
pub open spec fn highest(ts: u64, store: Store, goods: Goods) -> KeyParts {
    KeyParts {
        date: ts,
        order: 0xff,
        store,
        goods,
        batch_date: u64::MAX,
        batch_id: u128::MAX,
        id: u128::MAX,
        dep: 0xff,
    }
}

pub proof fn lemma_key_len(p: KeyParts)
    ensures
        key_bytes(p).len() == OP_KEY_LEN,
        tail_order(p).len() == 74,
        tail_store(p).len() == 73,
        tail_goods(p).len() == 57,
        tail_batch_date(p).len() == 41,
        tail_batch_id(p).len() == 33,
        tail_id(p).len() == 17,
{
    reveal(key_bytes);
    lemma_be_bytes_len(p.date as nat, 8);
    lemma_be_bytes_len(p.store as nat, 16);
    lemma_be_bytes_len(p.goods as nat, 16);
    lemma_be_bytes_len(p.batch_date as nat, 8);
    lemma_be_bytes_len(p.batch_id as nat, 16);
    lemma_be_bytes_len(p.id as nat, 16);
}

/// The store and the goods stand at fixed offsets of a key.
pub proof fn lemma_key_slices(p: KeyParts)
    ensures
        key_bytes(p).subrange(0, 8) == be_bytes(p.date as nat, 8),
        key_bytes(p)[8] == p.order,
        key_bytes(p).subrange(9, 25) == be_bytes(p.store as nat, 16),
        key_bytes(p).subrange(25, 41) == be_bytes(p.goods as nat, 16),
{
    reveal(key_bytes);
    lemma_key_len(p);
    lemma_be_bytes_len(p.date as nat, 8);
    lemma_be_bytes_len(p.store as nat, 16);
    lemma_be_bytes_len(p.goods as nat, 16);
    assert(key_bytes(p).subrange(0, 8) =~= be_bytes(p.date as nat, 8));
    assert(key_bytes(p).subrange(9, 25) =~= be_bytes(p.store as nat, 16));
    assert(key_bytes(p).subrange(25, 41) =~= be_bytes(p.goods as nat, 16));
}

proof fn lemma_single_order(x: u8, y: u8)
    ensures
        lex_lt(seq![x], seq![y]) <==> x < y,
        seq![x] == seq![y] <==> x == y,
{
    reveal(lex_lt);
    if x < y {
        assert(first_diff(seq![x], seq![y], 0));
    }
    if lex_lt(seq![x], seq![y]) {
        let i = choose|i: int| first_diff(seq![x], seq![y], i);
        assert(i == 0);
    }
    if seq![x] == seq![y] {
        assert(seq![x][0] == seq![y][0]);
    }
}

/// Keys are ordered byte by byte as their fields are ordered as a tuple, and
/// equal keys have equal fields.
pub proof fn lemma_key_order(a: KeyParts, b: KeyParts)
    ensures
        lex_lt(key_bytes(a), key_bytes(b)) <==> parts_lt(a, b),
        key_bytes(a) == key_bytes(b) <==> a == b,
{
    reveal(key_bytes);
    lemma_pow256_values();
    lemma_be_bytes_len(a.date as nat, 8);
    lemma_be_bytes_len(b.date as nat, 8);
    lemma_be_bytes_len(a.store as nat, 16);
    lemma_be_bytes_len(b.store as nat, 16);
    lemma_be_bytes_len(a.goods as nat, 16);
    lemma_be_bytes_len(b.goods as nat, 16);
    lemma_be_bytes_len(a.batch_date as nat, 8);
    lemma_be_bytes_len(b.batch_date as nat, 8);
    lemma_be_bytes_len(a.batch_id as nat, 16);
    lemma_be_bytes_len(b.batch_id as nat, 16);
    lemma_be_bytes_len(a.id as nat, 16);
    lemma_be_bytes_len(b.id as nat, 16);

    lemma_be_bytes_order(a.id as nat, b.id as nat, 16);
    lemma_single_order(a.dep, b.dep);
    lemma_lex_lt_concat(
        be_bytes(a.id as nat, 16),
        seq![a.dep],
        be_bytes(b.id as nat, 16),
        seq![b.dep],
    );
    lemma_concat_equal(
        be_bytes(a.id as nat, 16),
        seq![a.dep],
        be_bytes(b.id as nat, 16),
        seq![b.dep],
    );

    lemma_be_bytes_order(a.batch_id as nat, b.batch_id as nat, 16);
    lemma_lex_lt_concat(
        be_bytes(a.batch_id as nat, 16),
        tail_id(a),
        be_bytes(b.batch_id as nat, 16),
        tail_id(b),
    );
    lemma_concat_equal(
        be_bytes(a.batch_id as nat, 16),
        tail_id(a),
        be_bytes(b.batch_id as nat, 16),
        tail_id(b),
    );

    lemma_be_bytes_order(a.batch_date as nat, b.batch_date as nat, 8);
    lemma_lex_lt_concat(
        be_bytes(a.batch_date as nat, 8),
        tail_batch_id(a),
        be_bytes(b.batch_date as nat, 8),
        tail_batch_id(b),
    );
    lemma_concat_equal(
        be_bytes(a.batch_date as nat, 8),
        tail_batch_id(a),
        be_bytes(b.batch_date as nat, 8),
        tail_batch_id(b),
    );

    lemma_be_bytes_order(a.goods as nat, b.goods as nat, 16);
    lemma_lex_lt_concat(
        be_bytes(a.goods as nat, 16),
        tail_batch_date(a),
        be_bytes(b.goods as nat, 16),
        tail_batch_date(b),
    );
    lemma_concat_equal(
        be_bytes(a.goods as nat, 16),
        tail_batch_date(a),
        be_bytes(b.goods as nat, 16),
        tail_batch_date(b),
    );

    lemma_be_bytes_order(a.store as nat, b.store as nat, 16);
    lemma_lex_lt_concat(
        be_bytes(a.store as nat, 16),
        tail_goods(a),
        be_bytes(b.store as nat, 16),
        tail_goods(b),
    );
    lemma_concat_equal(
        be_bytes(a.store as nat, 16),
        tail_goods(a),
        be_bytes(b.store as nat, 16),
        tail_goods(b),
    );

    lemma_single_order(a.order, b.order);
    lemma_lex_lt_concat(seq![a.order], tail_store(a), seq![b.order], tail_store(b));
    lemma_concat_equal(seq![a.order], tail_store(a), seq![b.order], tail_store(b));

    lemma_be_bytes_order(a.date as nat, b.date as nat, 8);
    lemma_lex_lt_concat(
        be_bytes(a.date as nat, 8),
        tail_order(a),
        be_bytes(b.date as nat, 8),
        tail_order(b),
    );
    lemma_concat_equal(
        be_bytes(a.date as nat, 8),
        tail_order(a),
        be_bytes(b.date as nat, 8),
        tail_order(b),
    );
}

/// Inside one instant, what comes in is stored before what goes out,
/// whatever else the two operations hold.
pub proof fn lemma_receive_before_issue(a: OpView, b: OpView)
    requires
        a.date == b.date,
        a.op.incoming(a.is_dependent),
        !b.op.incoming(b.is_dependent),
    ensures
        lex_lt(key_of(a), key_of(b)),
{
    lemma_key_order(parts_of(a), parts_of(b));
}

/// Builds a key from its fields.
pub fn build_key(
    date: u64,
    order: u8,
    store: Store,
    goods: Goods,
    batch: Batch,
    id: u128,
    dep: u8,
) -> (key: Vec<u8>)
    ensures
        key@ == key_bytes(
            KeyParts {
                date,
                order,
                store,
                goods,
                batch_date: batch.date,
                batch_id: batch.id,
                id,
                dep,
            },
        ),
        key@.len() == OP_KEY_LEN,
{
    reveal(key_bytes);
    let mut key: Vec<u8> = Vec::new();
    push_be(&mut key, date as u128, 8);
    key.push(order);
    push_id(&mut key, store);
    push_id(&mut key, goods);
    push_be(&mut key, batch.date as u128, 8);
    push_id(&mut key, batch.id);
    push_id(&mut key, id);
    key.push(dep);
    proof {
        let p = KeyParts {
            date,
            order,
            store,
            goods,
            batch_date: batch.date,
            batch_id: batch.id,
            id,
            dep,
        };
        lemma_key_len(p);
        assert(key@ =~= key_bytes(p));
    }
    key
}

} // verus!
