//! The key under which a checkpoint is stored:
//! `ts | store | goods | batch.date | batch.id`, 64 bytes, every field
//! big-endian.

use crate::bytes::{
    be_bytes, lemma_be_bytes_len, lemma_be_bytes_of_value, lemma_be_bytes_order,
    lemma_be_value_bound, lemma_concat_equal, lemma_lex_lt_concat, lemma_pow256_values, lex_lt,
    push_be, read_be,
};
use crate::elements::{Balance, Batch, Goods, Store};
use crate::error::{ErrorKind, WHError};
use crate::ids::{push_id, read_id};
use vstd::prelude::*;

verus! {

/// The length of a checkpoint key.
pub const CHECK_KEY_LEN: usize = 64;

/// The fields of a checkpoint key, in key order.
pub struct CheckParts {
    pub date: u64,
    pub store: Store,
    pub goods: Goods,
    pub batch_date: u64,
    pub batch_id: u128,
}

/// The tuple order on key fields.
pub open spec fn check_parts_lt(a: CheckParts, b: CheckParts) -> bool {
    a.date < b.date || (a.date == b.date && (a.store < b.store || (a.store == b.store && (a.goods
        < b.goods || (a.goods == b.goods && (a.batch_date < b.batch_date || (a.batch_date
        == b.batch_date && a.batch_id < b.batch_id)))))))
}

pub open spec fn check_tail_batch(p: CheckParts) -> Seq<u8> {
    be_bytes(p.batch_date as nat, 8) + be_bytes(p.batch_id as nat, 16)
}

pub open spec fn check_tail_goods(p: CheckParts) -> Seq<u8> {
    be_bytes(p.goods as nat, 16) + check_tail_batch(p)
}

pub open spec fn check_tail_store(p: CheckParts) -> Seq<u8> {
    be_bytes(p.store as nat, 16) + check_tail_goods(p)
}

/// The bytes of a key.
#[verifier::opaque]
pub open spec fn check_key_bytes(p: CheckParts) -> Seq<u8> {
    be_bytes(p.date as nat, 8) + check_tail_store(p)
}

/// The key fields of a checkpoint.
pub open spec fn check_parts_of(b: Balance) -> CheckParts {
    CheckParts {
        date: b.date,
        store: b.store,
        goods: b.goods,
        batch_date: b.batch.date,
        batch_id: b.batch.id,
    }
}

/// The key of a checkpoint.
pub open spec fn check_key_of(b: Balance) -> Seq<u8> {
    check_key_bytes(check_parts_of(b))
}

pub proof fn lemma_check_key_len(p: CheckParts)
    ensures
        check_key_bytes(p).len() == CHECK_KEY_LEN,
        check_tail_store(p).len() == 56,
        check_tail_goods(p).len() == 40,
        check_tail_batch(p).len() == 24,
{
    reveal(check_key_bytes);
    lemma_be_bytes_len(p.date as nat, 8);
    lemma_be_bytes_len(p.store as nat, 16);
    lemma_be_bytes_len(p.goods as nat, 16);
    lemma_be_bytes_len(p.batch_date as nat, 8);
    lemma_be_bytes_len(p.batch_id as nat, 16);
}

/// The order and equality of the parts of a key that follow the date.
pub proof fn lemma_check_tail_order(a: CheckParts, b: CheckParts)
    ensures
        check_tail_store(a) == check_tail_store(b) <==> (a.store == b.store && a.goods == b.goods
            && a.batch_date == b.batch_date && a.batch_id == b.batch_id),
        lex_lt(check_tail_store(a), check_tail_store(b)) <==> check_parts_lt(
            CheckParts { date: 0, ..a },
            CheckParts { date: 0, ..b },
        ),
{
    lemma_pow256_values();
    lemma_be_bytes_len(a.store as nat, 16);
    lemma_be_bytes_len(b.store as nat, 16);
    lemma_be_bytes_len(a.goods as nat, 16);
    lemma_be_bytes_len(b.goods as nat, 16);
    lemma_be_bytes_len(a.batch_date as nat, 8);
    lemma_be_bytes_len(b.batch_date as nat, 8);
    lemma_be_bytes_len(a.batch_id as nat, 16);
    lemma_be_bytes_len(b.batch_id as nat, 16);

    lemma_be_bytes_order(a.batch_id as nat, b.batch_id as nat, 16);
    lemma_be_bytes_order(a.batch_date as nat, b.batch_date as nat, 8);
    lemma_lex_lt_concat(
        be_bytes(a.batch_date as nat, 8),
        be_bytes(a.batch_id as nat, 16),
        be_bytes(b.batch_date as nat, 8),
        be_bytes(b.batch_id as nat, 16),
    );
    lemma_concat_equal(
        be_bytes(a.batch_date as nat, 8),
        be_bytes(a.batch_id as nat, 16),
        be_bytes(b.batch_date as nat, 8),
        be_bytes(b.batch_id as nat, 16),
    );

    lemma_be_bytes_order(a.goods as nat, b.goods as nat, 16);
    lemma_lex_lt_concat(
        be_bytes(a.goods as nat, 16),
        check_tail_batch(a),
        be_bytes(b.goods as nat, 16),
        check_tail_batch(b),
    );
    lemma_concat_equal(
        be_bytes(a.goods as nat, 16),
        check_tail_batch(a),
        be_bytes(b.goods as nat, 16),
        check_tail_batch(b),
    );

    lemma_be_bytes_order(a.store as nat, b.store as nat, 16);
    lemma_lex_lt_concat(
        be_bytes(a.store as nat, 16),
        check_tail_goods(a),
        be_bytes(b.store as nat, 16),
        check_tail_goods(b),
    );
    lemma_concat_equal(
        be_bytes(a.store as nat, 16),
        check_tail_goods(a),
        be_bytes(b.store as nat, 16),
        check_tail_goods(b),
    );
}

/// Keys are ordered byte by byte as their fields are ordered as a tuple, and
/// equal keys have equal fields.
pub proof fn lemma_check_key_order(a: CheckParts, b: CheckParts)
    ensures
        lex_lt(check_key_bytes(a), check_key_bytes(b)) <==> check_parts_lt(a, b),
        check_key_bytes(a) == check_key_bytes(b) <==> a == b,
{
    reveal(check_key_bytes);
    lemma_pow256_values();
    lemma_check_tail_order(a, b);
    lemma_be_bytes_len(a.date as nat, 8);
    lemma_be_bytes_len(b.date as nat, 8);
    lemma_be_bytes_order(a.date as nat, b.date as nat, 8);
    lemma_lex_lt_concat(
        be_bytes(a.date as nat, 8),
        check_tail_store(a),
        be_bytes(b.date as nat, 8),
        check_tail_store(b),
    );
    lemma_concat_equal(
        be_bytes(a.date as nat, 8),
        check_tail_store(a),
        be_bytes(b.date as nat, 8),
        check_tail_store(b),
    );
}

/// Builds a key from its fields.
pub fn build_check_key(date: u64, store: Store, goods: Goods, batch: Batch) -> (key: Vec<u8>)
    ensures
        key@ == check_key_bytes(
            CheckParts { date, store, goods, batch_date: batch.date, batch_id: batch.id },
        ),
        key@.len() == CHECK_KEY_LEN,
{
    reveal(check_key_bytes);
    let mut key: Vec<u8> = Vec::new();
    push_be(&mut key, date as u128, 8);
    push_id(&mut key, store);
    push_id(&mut key, goods);
    push_be(&mut key, batch.date as u128, 8);
    push_id(&mut key, batch.id);
    proof {
        let p = CheckParts { date, store, goods, batch_date: batch.date, batch_id: batch.id };
        lemma_check_key_len(p);
        assert(key@ =~= check_key_bytes(p));
    }
    key
}

/// Reads the fields of a key back. A key of any other length than 64 bytes is
/// refused as corrupt.
pub fn key_to_data(k: &Vec<u8>) -> (r: Result<(u64, Store, Goods, Batch), WHError>)
    ensures
        r is Ok <==> k@.len() == CHECK_KEY_LEN,
        r matches Ok(d) ==> k@ == check_key_bytes(
            CheckParts {
                date: d.0,
                store: d.1,
                goods: d.2,
                batch_date: d.3.date,
                batch_id: d.3.id,
            },
        ),
        r matches Err(e) ==> e.kind == ErrorKind::Corrupt,
{
    reveal(check_key_bytes);
    if k.len() != 64 {
        return Err(WHError::new(ErrorKind::Corrupt, "checkpoint key of a wrong length"));
    }
    proof {
        lemma_pow256_values();
        lemma_be_value_bound(k@.subrange(0, 8));
        lemma_be_value_bound(k@.subrange(40, 48));
        lemma_be_bytes_of_value(k@.subrange(0, 8));
        lemma_be_bytes_of_value(k@.subrange(8, 24));
        lemma_be_bytes_of_value(k@.subrange(24, 40));
        lemma_be_bytes_of_value(k@.subrange(40, 48));
        lemma_be_bytes_of_value(k@.subrange(48, 64));
    }
    let date: u64 = read_be(k, 0, 8) as u64;
    let store: u128 = read_id(k, 8)?;
    let goods: u128 = read_id(k, 24)?;
    let batch_date: u64 = read_be(k, 40, 8) as u64;
    let batch_id: u128 = read_id(k, 48)?;
    proof {
        let p = CheckParts { date, store, goods, batch_date, batch_id };
        assert(k@ =~= k@.subrange(0, 8) + (k@.subrange(8, 24) + (k@.subrange(24, 40) + (k@.subrange(
            40,
            48,
        ) + k@.subrange(48, 64)))));
    }
    Ok((date, store, goods, Batch { id: batch_id, date: batch_date }))
}

} // verus!
