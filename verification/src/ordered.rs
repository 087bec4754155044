//! Keys in strictly ascending order: where a key stands among them, and what
//! putting one in or taking one out leaves.

use crate::bytes::{
    lemma_lex_lt_asymmetric, lemma_lex_lt_irreflexive, lemma_lex_lt_total, lemma_lex_lt_transitive,
    lex_lt,
};
use vstd::prelude::*;

verus! {

/// Keys strictly ascending.
pub open spec fn ascending_keys(ks: Seq<Seq<u8>>) -> bool {
    forall|i: int, j: int| 0 <= i < j < ks.len() ==> lex_lt(#[trigger] ks[i], #[trigger] ks[j])
}

/// How many of the keys come strictly before `key`.
pub open spec fn keys_before(ks: Seq<Seq<u8>>, key: Seq<u8>) -> int
    decreases ks.len(),
{
    if ks.len() == 0 {
        0
    } else {
        keys_before(ks.drop_last(), key) + if lex_lt(ks.last(), key) {
            1int
        } else {
            0int
        }
    }
}

/// The index that parts the keys before `key` from the others is the number
/// of keys before `key`.
pub proof fn lemma_before_is_position(ks: Seq<Seq<u8>>, key: Seq<u8>, p: int)
    requires
        0 <= p <= ks.len(),
        forall|j: int| 0 <= j < p ==> lex_lt(#[trigger] ks[j], key),
        forall|j: int| p <= j < ks.len() ==> !lex_lt(#[trigger] ks[j], key),
    ensures
        keys_before(ks, key) == p,
    decreases ks.len(),
{
    if ks.len() > 0 {
        let t = ks.drop_last();
        if p == ks.len() {
            assert(lex_lt(ks[p - 1], key));
            assert forall|j: int| 0 <= j < p - 1 implies lex_lt(#[trigger] t[j], key) by {
                assert(t[j] == ks[j]);
            }
            lemma_before_is_position(t, key, p - 1);
        } else {
            assert(!lex_lt(ks[ks.len() - 1], key));
            assert forall|j: int| 0 <= j < p implies lex_lt(#[trigger] t[j], key) by {
                assert(t[j] == ks[j]);
            }
            assert forall|j: int| p <= j < t.len() implies !lex_lt(#[trigger] t[j], key) by {
                assert(t[j] == ks[j]);
            }
            lemma_before_is_position(t, key, p);
        }
    }
}

/// Among ascending keys, the keys before `key` are the first ones, and `key`
/// is among the keys exactly where it stands right after them.
pub proof fn lemma_before_finds(ks: Seq<Seq<u8>>, key: Seq<u8>)
    requires
        ascending_keys(ks),
    ensures
        0 <= keys_before(ks, key) <= ks.len(),
        forall|j: int| 0 <= j < keys_before(ks, key) ==> lex_lt(#[trigger] ks[j], key),
        forall|j: int| keys_before(ks, key) <= j < ks.len() ==> !lex_lt(#[trigger] ks[j], key),
        ks.contains(key) <==> (keys_before(ks, key) < ks.len() && ks[keys_before(ks, key)] == key),
    decreases ks.len(),
{
    if ks.len() > 0 {
        let t = ks.drop_last();
        let n = ks.len() - 1;
        assert forall|i: int, j: int| 0 <= i < j < t.len() implies lex_lt(
            #[trigger] t[i],
            #[trigger] t[j],
        ) by {
            assert(t[i] == ks[i] && t[j] == ks[j]);
        }
        lemma_before_finds(t, key);
        let pt = keys_before(t, key);
        let p = keys_before(ks, key);
        if lex_lt(ks[n], key) {
            assert forall|j: int| 0 <= j < n implies lex_lt(#[trigger] ks[j], key) by {
                lemma_lex_lt_transitive(ks[j], ks[n], key);
            }
            if pt < n {
                assert(t[pt] == ks[pt]);
                assert(lex_lt(ks[pt], key));
                assert(false);
            }
            assert(p == n + 1);
        } else {
            assert(p == pt);
            assert forall|j: int| 0 <= j < p implies lex_lt(#[trigger] ks[j], key) by {
                assert(t[j] == ks[j]);
            }
            assert forall|j: int| p <= j < ks.len() implies !lex_lt(#[trigger] ks[j], key) by {
                if j < n {
                    assert(t[j] == ks[j]);
                }
            }
        }
        lemma_lex_lt_irreflexive(key);
        if ks.contains(key) {
            let i = choose|i: int| 0 <= i < ks.len() && ks[i] == key;
            if i < p {
                assert(lex_lt(ks[i], key));
            }
            if i > p {
                assert(lex_lt(ks[p], ks[i]));
                assert(!lex_lt(ks[p], key));
            }
            assert(i == p);
        }
    }
}

/// A new key put at its place keeps the order.
pub proof fn lemma_insert_ascending(ks: Seq<Seq<u8>>, key: Seq<u8>)
    requires
        ascending_keys(ks),
        !ks.contains(key),
    ensures
        0 <= keys_before(ks, key) <= ks.len(),
        ascending_keys(ks.insert(keys_before(ks, key), key)),
{
    lemma_before_finds(ks, key);
    let p = keys_before(ks, key);
    let t = ks.insert(p, key);
    assert forall|j: int| p <= j < ks.len() implies lex_lt(key, #[trigger] ks[j]) by {
        lemma_lex_lt_total(ks[j], key);
        assert(ks.contains(ks[j]));
    }
    assert forall|i: int, j: int| 0 <= i < j < t.len() implies lex_lt(
        #[trigger] t[i],
        #[trigger] t[j],
    ) by {
        let i0 = if i < p {
            i
        } else {
            i - 1
        };
        let j0 = if j < p {
            j
        } else {
            j - 1
        };
        if i != p {
            assert(t[i] == ks[i0]);
        }
        if j != p {
            assert(t[j] == ks[j0]);
        }
    }
}

/// Taking a key out keeps the order; the key is among the keys no more, and
/// its place is where it stood.
pub proof fn lemma_remove_ascending(ks: Seq<Seq<u8>>, p: int)
    requires
        ascending_keys(ks),
        0 <= p < ks.len(),
    ensures
        ascending_keys(ks.remove(p)),
        !ks.remove(p).contains(ks[p]),
        keys_before(ks.remove(p), ks[p]) == p,
        keys_before(ks, ks[p]) == p,
{
    let t = ks.remove(p);
    let key = ks[p];
    assert forall|i: int, j: int| 0 <= i < j < t.len() implies lex_lt(
        #[trigger] t[i],
        #[trigger] t[j],
    ) by {
        let i0 = if i < p {
            i
        } else {
            i + 1
        };
        let j0 = if j < p {
            j
        } else {
            j + 1
        };
        assert(t[i] == ks[i0] && t[j] == ks[j0]);
    }
    assert forall|j: int| 0 <= j < p implies lex_lt(#[trigger] t[j], key) by {
        assert(t[j] == ks[j]);
    }
    assert forall|j: int| p <= j < t.len() implies !lex_lt(#[trigger] t[j], key) by {
        assert(t[j] == ks[j + 1]);
        assert(lex_lt(ks[p], ks[j + 1]));
        lemma_lex_lt_asymmetric(ks[p], ks[j + 1]);
    }
    lemma_before_is_position(t, key, p);
    lemma_lex_lt_irreflexive(key);
    assert forall|j: int| p <= j < ks.len() implies !lex_lt(#[trigger] ks[j], key) by {
        if j > p {
            assert(lex_lt(ks[p], ks[j]));
            lemma_lex_lt_asymmetric(ks[p], ks[j]);
        }
    }
    lemma_before_is_position(ks, key, p);
    if t.contains(key) {
        let i = choose|i: int| 0 <= i < t.len() && t[i] == key;
        if i < p {
            assert(lex_lt(t[i], key));
        } else {
            assert(!lex_lt(t[i], key));
            assert(t[i] == ks[i + 1]);
            assert(lex_lt(ks[p], ks[i + 1]));
        }
    }
}

/// Two strictly ascending sequences that hold the same byte strings are
/// equal.
pub proof fn lemma_same_keys_same_order(a: Seq<Seq<u8>>, b: Seq<Seq<u8>>)
    requires
        ascending_keys(a),
        ascending_keys(b),
        forall|i: int| 0 <= i < a.len() ==> b.contains(#[trigger] a[i]),
        forall|i: int| 0 <= i < b.len() ==> a.contains(#[trigger] b[i]),
    ensures
        a == b,
    decreases a.len(),
{
    if a.len() == 0 {
        if b.len() > 0 {
            assert(a.contains(b[0]));
        }
        assert(a =~= b);
    } else if b.len() == 0 {
        assert(b.contains(a[0]));
    } else {
        let la = a.len() - 1;
        let lb = b.len() - 1;
        assert(b.contains(a[la]));
        let j = choose|j: int| 0 <= j < b.len() && b[j] == a[la];
        assert(a.contains(b[lb]));
        let i = choose|i: int| 0 <= i < a.len() && a[i] == b[lb];
        if j < lb {
            assert(lex_lt(b[j], b[lb]));
            if i < la {
                assert(lex_lt(a[i], a[la]));
                lemma_lex_lt_asymmetric(a[i], a[la]);
            } else {
                lemma_lex_lt_irreflexive(a[la]);
            }
            assert(false);
        }
        assert(a[la] == b[lb]);
        let a1 = a.drop_last();
        let b1 = b.drop_last();
        assert forall|x: int, y: int| 0 <= x < y < a1.len() implies lex_lt(
            #[trigger] a1[x],
            #[trigger] a1[y],
        ) by {
            assert(a1[x] == a[x] && a1[y] == a[y]);
        }
        assert forall|x: int, y: int| 0 <= x < y < b1.len() implies lex_lt(
            #[trigger] b1[x],
            #[trigger] b1[y],
        ) by {
            assert(b1[x] == b[x] && b1[y] == b[y]);
        }
        assert forall|x: int| 0 <= x < a1.len() implies b1.contains(#[trigger] a1[x]) by {
            assert(a1[x] == a[x]);
            assert(b.contains(a[x]));
            let y = choose|y: int| 0 <= y < b.len() && b[y] == a[x];
            if y == lb {
                assert(lex_lt(a[x], a[la]));
                lemma_lex_lt_irreflexive(a[x]);
            }
            assert(b1[y] == b[y]);
        }
        assert forall|x: int| 0 <= x < b1.len() implies a1.contains(#[trigger] b1[x]) by {
            assert(b1[x] == b[x]);
            assert(a.contains(b[x]));
            let y = choose|y: int| 0 <= y < a.len() && a[y] == b[x];
            if y == la {
                assert(lex_lt(b[x], b[lb]));
                lemma_lex_lt_irreflexive(b[x]);
            }
            assert(a1[y] == a[y]);
        }
        lemma_same_keys_same_order(a1, b1);
        assert(a =~= a1.push(a[la]));
        assert(b =~= b1.push(b[lb]));
    }
}

} // verus!
