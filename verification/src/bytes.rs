//! Big-endian encodings and the lexicographic order on byte strings.
//!
//! Composite keys are concatenations of fixed-width big-endian fields, so that
//! comparing two keys byte by byte compares the encoded tuples field by field.

use vstd::prelude::*;

verus! {

/// `256^n`.
pub open spec fn pow256(n: nat) -> nat
    decreases n,
{
    if n == 0 {
        1
    } else {
        256 * pow256((n - 1) as nat)
    }
}

/// The `n` low-order bytes of `x`, most significant first.
pub open spec fn be_bytes(x: nat, n: nat) -> Seq<u8>
    decreases n,
{
    if n == 0 {
        Seq::empty()
    } else {
        be_bytes(x / 256, (n - 1) as nat).push((x % 256) as u8)
    }
}

/// The number that a big-endian byte string denotes.
pub open spec fn be_value(s: Seq<u8>) -> nat
    decreases s.len(),
{
    if s.len() == 0 {
        0
    } else {
        be_value(s.drop_last()) * 256 + s.last() as nat
    }
}

/// `a` and `b` agree before position `i`, and at `i` either `a` ends while `b`
/// goes on, or `a` holds the smaller byte.
pub open spec fn first_diff(a: Seq<u8>, b: Seq<u8>, i: int) -> bool {
    &&& 0 <= i <= a.len()
    &&& i <= b.len()
    &&& forall|j: int| 0 <= j < i ==> a[j] == b[j]
    &&& if i == a.len() {
        i < b.len()
    } else {
        i < b.len() && a[i] < b[i]
    }
}

/// Strict lexicographic order on byte strings.
#[verifier::opaque]
pub open spec fn lex_lt(a: Seq<u8>, b: Seq<u8>) -> bool {
    exists|i: int| first_diff(a, b, i)
}

/// Lexicographic order on byte strings.
pub open spec fn lex_le(a: Seq<u8>, b: Seq<u8>) -> bool {
    a == b || lex_lt(a, b)
}

pub proof fn lemma_pow256_values()
    ensures
        pow256(0) == 1,
        pow256(1) == 0x100,
        pow256(8) == 0x1_0000_0000_0000_0000,
        pow256(16) == 0x1_0000_0000_0000_0000_0000_0000_0000_0000,
{
    reveal_with_fuel(pow256, 17);
}

pub proof fn lemma_be_bytes_len(x: nat, n: nat)
    ensures
        be_bytes(x, n).len() == n,
    decreases n,
{
    if n > 0 {
        lemma_be_bytes_len(x / 256, (n - 1) as nat);
    }
}

pub proof fn lemma_be_value_bound(s: Seq<u8>)
    ensures
        be_value(s) < pow256(s.len()),
    decreases s.len(),
{
    if s.len() > 0 {
        lemma_be_value_bound(s.drop_last());
    }
}

/// Decoding an encoding gives the number back.
pub proof fn lemma_be_value_of_bytes(x: nat, n: nat)
    requires
        x < pow256(n),
    ensures
        be_value(be_bytes(x, n)) == x,
    decreases n,
{
    if n > 0 {
        let s = be_bytes(x, n);
        let head = be_bytes(x / 256, (n - 1) as nat);
        assert(s.drop_last() =~= head);
        lemma_be_value_of_bytes(x / 256, (n - 1) as nat);
    }
}

/// Encoding a decoded string gives the string back.
pub proof fn lemma_be_bytes_of_value(s: Seq<u8>)
    ensures
        be_bytes(be_value(s), s.len()) == s,
    decreases s.len(),
{
    if s.len() > 0 {
        lemma_be_bytes_of_value(s.drop_last());
        let v = be_value(s);
        assert(v / 256 == be_value(s.drop_last()));
        assert(v % 256 == s.last() as nat);
        assert(be_bytes(v, s.len()) =~= s);
    } else {
        assert(be_bytes(be_value(s), 0) =~= s);
    }
}

/// Two numbers below `256^n` with the same `n`-byte encoding are equal.
pub proof fn lemma_be_bytes_injective(x: nat, y: nat, n: nat)
    requires
        x < pow256(n),
        y < pow256(n),
        be_bytes(x, n) == be_bytes(y, n),
    ensures
        x == y,
{
    lemma_be_value_of_bytes(x, n);
    lemma_be_value_of_bytes(y, n);
}

pub proof fn lemma_lex_lt_irreflexive(a: Seq<u8>)
    ensures
        !lex_lt(a, a),
{
    reveal(lex_lt);
}

pub proof fn lemma_lex_lt_asymmetric(a: Seq<u8>, b: Seq<u8>)
    requires
        lex_lt(a, b),
    ensures
        !lex_lt(b, a),
        a != b,
{
    reveal(lex_lt);
    let i = choose|i: int| first_diff(a, b, i);
    if lex_lt(b, a) {
        let j = choose|j: int| first_diff(b, a, j);
        if i < j {
            assert(b[i] == a[i]);
        } else if j < i {
            assert(a[j] == b[j]);
        }
    }
}

pub proof fn lemma_lex_lt_transitive(a: Seq<u8>, b: Seq<u8>, c: Seq<u8>)
    requires
        lex_lt(a, b),
        lex_lt(b, c),
    ensures
        lex_lt(a, c),
{
    reveal(lex_lt);
    let i = choose|i: int| first_diff(a, b, i);
    let j = choose|j: int| first_diff(b, c, j);
    let k = if i <= j { i } else { j };
    assert(first_diff(a, c, k));
}

/// Two different byte strings are ordered one way or the other.
pub proof fn lemma_lex_lt_total(a: Seq<u8>, b: Seq<u8>)
    ensures
        a == b || lex_lt(a, b) || lex_lt(b, a),
    decreases a.len(),
{
    lemma_lex_total_from(a, b, 0);
}

proof fn lemma_lex_total_from(a: Seq<u8>, b: Seq<u8>, i: int)
    requires
        0 <= i <= a.len(),
        i <= b.len(),
        forall|j: int| 0 <= j < i ==> a[j] == b[j],
    ensures
        a == b || lex_lt(a, b) || lex_lt(b, a),
    decreases a.len() - i,
{
    reveal(lex_lt);
    if i == a.len() {
        if i == b.len() {
            assert(a =~= b);
        } else {
            assert(first_diff(a, b, i));
        }
    } else if i == b.len() {
        assert(first_diff(b, a, i));
    } else if a[i] < b[i] {
        assert(first_diff(a, b, i));
    } else if b[i] < a[i] {
        assert(first_diff(b, a, i));
    } else {
        lemma_lex_total_from(a, b, i + 1);
    }
}

/// With heads of one length, the order of two concatenations is the order of
/// the heads, and that of the tails where the heads are equal.
pub proof fn lemma_lex_lt_concat(h1: Seq<u8>, t1: Seq<u8>, h2: Seq<u8>, t2: Seq<u8>)
    requires
        h1.len() == h2.len(),
    ensures
        lex_lt(h1 + t1, h2 + t2) <==> (lex_lt(h1, h2) || (h1 == h2 && lex_lt(t1, t2))),
{
    reveal(lex_lt);
    let a = h1 + t1;
    let b = h2 + t2;
    let n = h1.len() as int;
    if lex_lt(a, b) {
        let i = choose|i: int| first_diff(a, b, i);
        if i < n {
            assert forall|j: int| 0 <= j < i implies h1[j] == h2[j] by {
                assert(a[j] == b[j]);
            }
            assert(a[i] == h1[i] && b[i] == h2[i]);
            assert(first_diff(h1, h2, i));
        } else {
            assert forall|j: int| 0 <= j < n implies h1[j] == h2[j] by {
                assert(a[j] == b[j]);
            }
            assert(h1 =~= h2);
            assert forall|j: int| 0 <= j < i - n implies t1[j] == t2[j] by {
                assert(a[j + n] == b[j + n]);
            }
            if i < a.len() {
                assert(a[i] == t1[i - n] && b[i] == t2[i - n]);
            }
            assert(first_diff(t1, t2, i - n));
        }
    }
    if lex_lt(h1, h2) {
        let i = choose|i: int| first_diff(h1, h2, i);
        assert(first_diff(a, b, i));
    }
    if h1 == h2 && lex_lt(t1, t2) {
        let i = choose|i: int| first_diff(t1, t2, i);
        assert(first_diff(a, b, i + n));
    }
}

/// With heads of one length, two concatenations are equal exactly where the
/// heads are equal and the tails are equal.
pub proof fn lemma_concat_equal(h1: Seq<u8>, t1: Seq<u8>, h2: Seq<u8>, t2: Seq<u8>)
    requires
        h1.len() == h2.len(),
    ensures
        h1 + t1 == h2 + t2 <==> (h1 == h2 && t1 == t2),
{
    if h1 + t1 == h2 + t2 {
        let a = h1 + t1;
        let b = h2 + t2;
        assert(a.len() == b.len());
        assert forall|j: int| 0 <= j < h1.len() implies h1[j] == h2[j] by {
            assert(a[j] == b[j]);
        }
        assert(h1 =~= h2);
        assert forall|j: int| 0 <= j < t1.len() implies t1[j] == t2[j] by {
            assert(a[j + h1.len()] == b[j + h1.len()]);
        }
        assert(t1 =~= t2);
    }
}

/// Big-endian encodings of one width are ordered as the numbers are.
pub proof fn lemma_be_bytes_order(x: nat, y: nat, n: nat)
    requires
        x < pow256(n),
        y < pow256(n),
    ensures
        lex_lt(be_bytes(x, n), be_bytes(y, n)) <==> x < y,
        be_bytes(x, n) == be_bytes(y, n) <==> x == y,
    decreases n,
{
    reveal(lex_lt);
    if n == 0 {
        assert(be_bytes(x, n) =~= be_bytes(y, n));
    } else {
        let m = (n - 1) as nat;
        let hx = be_bytes(x / 256, m);
        let hy = be_bytes(y / 256, m);
        let tx = seq![(x % 256) as u8];
        let ty = seq![(y % 256) as u8];
        lemma_be_bytes_len(x / 256, m);
        lemma_be_bytes_len(y / 256, m);
        lemma_be_bytes_order(x / 256, y / 256, m);
        assert(be_bytes(x, n) =~= hx + tx);
        assert(be_bytes(y, n) =~= hy + ty);
        lemma_lex_lt_concat(hx, tx, hy, ty);
        if x % 256 < y % 256 {
            assert(first_diff(tx, ty, 0));
        }
        if lex_lt(tx, ty) {
            let i = choose|i: int| first_diff(tx, ty, i);
            assert(i == 0);
        }
        if be_bytes(x, n) == be_bytes(y, n) {
            lemma_be_bytes_injective(x, y, n);
        }
    }
}

/// Appends the `n` low-order bytes of `x`, most significant first.
pub fn push_be(buf: &mut Vec<u8>, x: u128, n: usize)
    ensures
        final(buf)@ == old(buf)@ + be_bytes(x as nat, n as nat),
    decreases n,
{
    if n > 0 {
        push_be(buf, x / 256, n - 1);
        let low: u8 = (x % 256) as u8;
        buf.push(low);
        assert(buf@ =~= old(buf)@ + be_bytes(x as nat, n as nat));
    } else {
        assert(buf@ =~= old(buf)@ + be_bytes(x as nat, n as nat));
    }
}

/// The eight bytes of a timestamp, most significant first.
pub fn ts_to_bytes(ts: u64) -> (r: [u8; 8])
    ensures
        r@ == be_bytes(ts as nat, 8),
{
    let t1: u64 = ts / 256;
    let t2: u64 = t1 / 256;
    let t3: u64 = t2 / 256;
    let t4: u64 = t3 / 256;
    let t5: u64 = t4 / 256;
    let t6: u64 = t5 / 256;
    let t7: u64 = t6 / 256;
    let r: [u8; 8] = [
        (t7 % 256) as u8,
        (t6 % 256) as u8,
        (t5 % 256) as u8,
        (t4 % 256) as u8,
        (t3 % 256) as u8,
        (t2 % 256) as u8,
        (t1 % 256) as u8,
        (ts % 256) as u8,
    ];
    proof {
        reveal_with_fuel(be_bytes, 9);
        assert(r@ =~= be_bytes(ts as nat, 8));
    }
    r
}

/// Reads the big-endian number held in `n` bytes of `buf` from `off` on.
pub fn read_be(buf: &Vec<u8>, off: usize, n: usize) -> (r: u128)
    requires
        n <= 16,
        off + n <= buf@.len(),
    ensures
        r as nat == be_value(buf@.subrange(off as int, off + n)),
{
    let total: usize = buf.len();
    let mut acc: u128 = 0;
    let mut i: usize = 0;
    proof {
        lemma_pow256_values();
        assert(buf@.subrange(off as int, off as int) =~= Seq::<u8>::empty());
    }
    while i < n
        invariant
            i <= n <= 16,
            off + n <= total,
            total == buf@.len(),
            acc as nat == be_value(buf@.subrange(off as int, off + i)),
            acc < pow256(i as nat),
            pow256(16) == 0x1_0000_0000_0000_0000_0000_0000_0000_0000,
        decreases n - i,
    {
        proof {
            let s = buf@.subrange(off as int, off + i);
            let s1 = buf@.subrange(off as int, off + i + 1);
            assert(s1.drop_last() =~= s);
            lemma_be_value_bound(s1);
            lemma_pow256_le((i + 1) as nat, 16);
            assert(pow256((i + 1) as nat) == 256 * pow256(i as nat));
        }
        acc = acc * 256 + buf[off + i] as u128;
        i = i + 1;
    }
    acc
}

pub proof fn lemma_pow256_le(a: nat, b: nat)
    requires
        a <= b,
    ensures
        pow256(a) <= pow256(b),
        pow256(a) >= 1,
    decreases b,
{
    if a < b {
        lemma_pow256_le(a, (b - 1) as nat);
    } else if a > 0 {
        lemma_pow256_le((a - 1) as nat, (a - 1) as nat);
    }
}

/// Whether `a` comes strictly before `b` byte by byte.
pub fn bytes_lt(a: &Vec<u8>, b: &Vec<u8>) -> (r: bool)
    ensures
        r == lex_lt(a@, b@),
{
    reveal(lex_lt);
    let mut i: usize = 0;
    while i < a.len() && i < b.len()
        invariant
            i <= a@.len(),
            i <= b@.len(),
            forall|j: int| 0 <= j < i ==> a@[j] == b@[j],
        decreases a@.len() - i,
    {
        if a[i] < b[i] {
            proof {
                reveal(lex_lt);
                assert(first_diff(a@, b@, i as int));
            }
            return true;
        }
        if a[i] > b[i] {
            proof {
                reveal(lex_lt);
                assert(first_diff(b@, a@, i as int));
                lemma_lex_lt_asymmetric(b@, a@);
            }
            return false;
        }
        i = i + 1;
    }
    if i < b.len() {
        assert(first_diff(a@, b@, i as int));
        true
    } else {
        proof {
            if a@.len() == b@.len() {
                assert(a@ =~= b@);
            } else {
                assert(first_diff(b@, a@, i as int));
                lemma_lex_lt_asymmetric(b@, a@);
            }
        }
        false
    }
}

/// Whether two byte strings are equal.
pub fn bytes_eq(a: &Vec<u8>, b: &Vec<u8>) -> (r: bool)
    ensures
        r == (a@ == b@),
{
    if a.len() != b.len() {
        return false;
    }
    let mut i: usize = 0;
    while i < a.len()
        invariant
            a@.len() == b@.len(),
            i <= a@.len(),
            forall|j: int| 0 <= j < i ==> a@[j] == b@[j],
        decreases a@.len() - i,
    {
        if a[i] != b[i] {
            return false;
        }
        i = i + 1;
    }
    assert(a@ =~= b@);
    true
}

/// A copy of a byte string.
pub fn copy_bytes(v: &Vec<u8>) -> (r: Vec<u8>)
    ensures
        r@ == v@,
{
    let mut r: Vec<u8> = Vec::new();
    let mut i: usize = 0;
    while i < v.len()
        invariant
            i <= v@.len(),
            r@ == v@.subrange(0, i as int),
        decreases v@.len() - i,
    {
        r.push(v[i]);
        assert(r@ =~= v@.subrange(0, i + 1));
        i = i + 1;
    }
    assert(v@.subrange(0, v@.len() as int) =~= v@);
    r
}

/// Whether the bytes of `a` from `off` on begin with `b`.
pub fn range_eq(a: &Vec<u8>, off: usize, b: &Vec<u8>) -> (r: bool)
    ensures
        r == (off + b@.len() <= a@.len() && a@.subrange(off as int, off + b@.len()) == b@),
{
    let n: usize = b.len();
    let total: usize = a.len();
    if total < n || off > total - n {
        return false;
    }
    let mut i: usize = 0;
    while i < n
        invariant
            i <= n,
            n == b@.len(),
            total == a@.len(),
            off + n <= total,
            forall|j: int| 0 <= j < i ==> a@[off + j] == b@[j],
        decreases n - i,
    {
        if a[off + i] != b[i] {
            assert(a@.subrange(off as int, off + n)[i as int] == a@[off + i]);
            return false;
        }
        i = i + 1;
    }
    assert(a@.subrange(off as int, off + n) =~= b@);
    true
}

} // verus!
