//! The default column family: texts under keys, looked up by the first pair
//! that holds the key.

use vstd::prelude::*;

verus! {

/// The text stored under `key` among the first `n` pairs: that of the first
/// pair with the key.
pub open spec fn plain_get(pairs: Seq<(Seq<u8>, Seq<char>)>, key: Seq<u8>, n: int) -> Option<
    Seq<char>,
>
    decreases n,
{
    if n <= 0 {
        None
    } else {
        match plain_get(pairs, key, n - 1) {
            Some(v) => Some(v),
            None => if pairs[n - 1].0 == key {
                Some(pairs[n - 1].1)
            } else {
                None
            },
        }
    }
}

/// The first pair with the key decides, whatever follows it.
pub proof fn lemma_plain_found(pairs: Seq<(Seq<u8>, Seq<char>)>, key: Seq<u8>, i: int, n: int)
    requires
        0 <= i < n <= pairs.len(),
        plain_get(pairs, key, i) is None,
        pairs[i].0 == key,
    ensures
        plain_get(pairs, key, n) == Some(pairs[i].1),
    decreases n - i,
{
    if n > i + 1 {
        lemma_plain_found(pairs, key, i, n - 1);
    }
}

/// Pairs that agree on their first `n` hold the same there.
pub proof fn lemma_plain_same(
    a: Seq<(Seq<u8>, Seq<char>)>,
    b: Seq<(Seq<u8>, Seq<char>)>,
    key: Seq<u8>,
    n: int,
)
    requires
        0 <= n <= a.len(),
        n <= b.len(),
        forall|j: int| 0 <= j < n ==> a[j] == b[j],
    ensures
        plain_get(a, key, n) == plain_get(b, key, n),
    decreases n,
{
    if n > 0 {
        lemma_plain_same(a, b, key, n - 1);
    }
}

/// What is stored after the text of the first pair with a key is replaced.
pub proof fn lemma_plain_update(
    pairs: Seq<(Seq<u8>, Seq<char>)>,
    i: int,
    pair: (Seq<u8>, Seq<char>),
    key: Seq<u8>,
    n: int,
)
    requires
        0 <= i < pairs.len(),
        0 <= n <= pairs.len(),
        pairs[i].0 == pair.0,
        plain_get(pairs, pair.0, i) is None,
    ensures
        key != pair.0 ==> plain_get(pairs.update(i, pair), key, n) == plain_get(pairs, key, n),
        key == pair.0 && n > i ==> plain_get(pairs.update(i, pair), key, n) == Some(pair.1),
        key == pair.0 && n <= i ==> plain_get(pairs.update(i, pair), key, n) is None,
    decreases n,
{
    let t = pairs.update(i, pair);
    if n > 0 {
        lemma_plain_update(pairs, i, pair, key, n - 1);
        if n - 1 != i {
            assert(t[n - 1] == pairs[n - 1]);
        }
        if key == pair.0 && n <= i {
            lemma_plain_none(pairs, key, i, n);
        }
    }
}

/// Where nothing is found among the first `i` pairs, nothing is found among
/// fewer.
pub proof fn lemma_plain_none(pairs: Seq<(Seq<u8>, Seq<char>)>, key: Seq<u8>, i: int, n: int)
    requires
        0 <= n <= i <= pairs.len(),
        plain_get(pairs, key, i) is None,
    ensures
        plain_get(pairs, key, n) is None,
    decreases i - n,
{
    if n < i {
        lemma_plain_none(pairs, key, i, n + 1);
    }
}

} // verus!
