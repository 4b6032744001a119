//! Big-endian integer encodings and the lexicographic order on byte strings
//! that the index file format and the index key order are built on.

use vstd::prelude::*;

verus! {

/// The four bytes of `x` in big-endian order.
pub open spec fn u32_be(x: u32) -> Seq<u8> {
    seq![(x >> 24) as u8, (x >> 16) as u8, (x >> 8) as u8, x as u8]
}

/// The eight bytes of `x` in big-endian order.
pub open spec fn u64_be(x: u64) -> Seq<u8> {
    seq![
        (x >> 56) as u8,
        (x >> 48) as u8,
        (x >> 40) as u8,
        (x >> 32) as u8,
        (x >> 24) as u8,
        (x >> 16) as u8,
        (x >> 8) as u8,
        x as u8,
    ]
}

/// The value read back from four big-endian bytes.
pub open spec fn be_to_u32(b: Seq<u8>) -> u32
    recommends
        b.len() == 4,
{
    ((b[0] as u32) << 24) | ((b[1] as u32) << 16) | ((b[2] as u32) << 8) | (b[3] as u32)
}

/// The value read back from eight big-endian bytes.
pub open spec fn be_to_u64(b: Seq<u8>) -> u64
    recommends
        b.len() == 8,
{
    ((b[0] as u64) << 56) | ((b[1] as u64) << 48) | ((b[2] as u64) << 40) | ((b[3] as u64) << 32)
        | ((b[4] as u64) << 24) | ((b[5] as u64) << 16) | ((b[6] as u64) << 8) | (b[7] as u64)
}

/// Reading the big-endian bytes of a `u32` gives the value back.
pub proof fn lemma_u32_be_round_trip(x: u32)
    ensures
        be_to_u32(u32_be(x)) == x,
{
    assert((((x >> 24) as u8 as u32) << 24) | (((x >> 16) as u8 as u32) << 16) | (((x
        >> 8) as u8 as u32) << 8) | ((x as u8) as u32) == x) by (bit_vector);
}

/// Reading the big-endian bytes of a `u64` gives the value back.
pub proof fn lemma_u64_be_round_trip(x: u64)
    ensures
        be_to_u64(u64_be(x)) == x,
{
    assert((((x >> 56) as u8 as u64) << 56) | (((x >> 48) as u8 as u64) << 48) | (((x
        >> 40) as u8 as u64) << 40) | (((x >> 32) as u8 as u64) << 32) | (((x
        >> 24) as u8 as u64) << 24) | (((x >> 16) as u8 as u64) << 16) | (((x
        >> 8) as u8 as u64) << 8) | ((x as u8) as u64) == x) by (bit_vector);
}

/// Appends the big-endian bytes of `x` to `out`.
pub fn push_u32_be(out: &mut Vec<u8>, x: u32)
    ensures
        final(out)@ == old(out)@ + u32_be(x),
{
    out.push((x >> 24) as u8);
    out.push((x >> 16) as u8);
    out.push((x >> 8) as u8);
    out.push(x as u8);
    assert(final(out)@ =~= old(out)@ + u32_be(x));
}

/// Appends the big-endian bytes of `x` to `out`.
pub fn push_u64_be(out: &mut Vec<u8>, x: u64)
    ensures
        final(out)@ == old(out)@ + u64_be(x),
{
    out.push((x >> 56) as u8);
    out.push((x >> 48) as u8);
    out.push((x >> 40) as u8);
    out.push((x >> 32) as u8);
    out.push((x >> 24) as u8);
    out.push((x >> 16) as u8);
    out.push((x >> 8) as u8);
    out.push(x as u8);
    assert(final(out)@ =~= old(out)@ + u64_be(x));
}

/// Reads a big-endian `u32` from `b[start..start + 4]`.
pub fn read_u32_be(b: &[u8], start: usize) -> (r: u32)
    requires
        start + 4 <= b@.len(),
    ensures
        r == be_to_u32(b@.subrange(start as int, start as int + 4)),
{
    let r = ((b[start] as u32) << 24) | ((b[start + 1] as u32) << 16) | ((b[start + 2] as u32)
        << 8) | (b[start + 3] as u32);
    proof {
        let s = b@.subrange(start as int, start as int + 4);
        assert(s[0] == b@[start as int] && s[1] == b@[start as int + 1] && s[2] == b@[start as int
            + 2] && s[3] == b@[start as int + 3]);
    }
    r
}

/// Reads a big-endian `u64` from `b[start..start + 8]`.
pub fn read_u64_be(b: &[u8], start: usize) -> (r: u64)
    requires
        start + 8 <= b@.len(),
    ensures
        r == be_to_u64(b@.subrange(start as int, start as int + 8)),
{
    let r = ((b[start] as u64) << 56) | ((b[start + 1] as u64) << 48) | ((b[start + 2] as u64)
        << 40) | ((b[start + 3] as u64) << 32) | ((b[start + 4] as u64) << 24) | ((b[start
        + 5] as u64) << 16) | ((b[start + 6] as u64) << 8) | (b[start + 7] as u64);
    proof {
        let s = b@.subrange(start as int, start as int + 8);
        assert(forall|i: int| 0 <= i < 8 ==> s[i] == b@[start as int + i]);
    }
    r
}

/// Relies on the range-indexing operator of slices: `&b[start..end]` is the
/// subslice between the two bounds.
#[verifier::external_body]
pub(crate) fn slice_range(b: &[u8], start: usize, end: usize) -> (r: &[u8])
    requires
        start <= end <= b@.len(),
    ensures
        r@ == b@.subrange(start as int, end as int),
{
    &b[start..end]
}

/// Strict lexicographic order on byte strings of equal length: the strings
/// agree up to some position at which `a` holds the smaller byte.
pub open spec fn lex_lt(a: Seq<u8>, b: Seq<u8>) -> bool {
    exists|i: int|
        0 <= i < a.len() && i < b.len() && a[i] < b[i] && (forall|j: int|
            0 <= j < i ==> a[j] == b[j])
}

/// The lexicographic order is irreflexive.
pub proof fn lemma_lex_irreflexive(a: Seq<u8>)
    ensures
        !lex_lt(a, a),
{
}

/// On strings of equal length the lexicographic order is asymmetric.
pub proof fn lemma_lex_asymmetric(a: Seq<u8>, b: Seq<u8>)
    requires
        lex_lt(a, b),
    ensures
        !lex_lt(b, a),
{
    let i = choose|i: int|
        0 <= i < a.len() && i < b.len() && a[i] < b[i] && (forall|j: int|
            0 <= j < i ==> a[j] == b[j]);
    assert forall|k: int|
        0 <= k < b.len() && k < a.len() && b[k] < a[k] implies !(forall|j: int|
        0 <= j < k ==> b[j] == a[j]) by {
        if k < i {
        } else if k == i {
        } else {
            assert(b[i] != a[i]);
        }
    }
}

/// The lexicographic order is transitive.
pub proof fn lemma_lex_transitive(a: Seq<u8>, b: Seq<u8>, c: Seq<u8>)
    requires
        lex_lt(a, b),
        lex_lt(b, c),
    ensures
        lex_lt(a, c),
{
    let i = choose|i: int|
        0 <= i < a.len() && i < b.len() && a[i] < b[i] && (forall|j: int|
            0 <= j < i ==> a[j] == b[j]);
    let k = choose|k: int|
        0 <= k < b.len() && k < c.len() && b[k] < c[k] && (forall|j: int|
            0 <= j < k ==> b[j] == c[j]);
    if i < k {
        assert(0 <= i < a.len() && i < c.len() && a[i] < c[i] && (forall|j: int|
            0 <= j < i ==> a[j] == c[j]));
    } else if k < i {
        assert(0 <= k < a.len() && k < c.len() && a[k] < c[k] && (forall|j: int|
            0 <= j < k ==> a[j] == c[j]));
    } else {
        assert(0 <= i < a.len() && i < c.len() && a[i] < c[i] && (forall|j: int|
            0 <= j < i ==> a[j] == c[j]));
    }
}

/// Two distinct byte strings of equal length are ordered one way or the other.
pub proof fn lemma_lex_trichotomy(a: Seq<u8>, b: Seq<u8>)
    requires
        a.len() == b.len(),
        a != b,
    ensures
        lex_lt(a, b) || lex_lt(b, a),
{
    assert(exists|k: int| 0 <= k < a.len() && a[k] != b[k]) by {
        if forall|k: int| 0 <= k < a.len() ==> a[k] == b[k] {
            assert(a =~= b);
        }
    }
    let k = choose|k: int| 0 <= k < a.len() && a[k] != b[k];
    lemma_lex_first_difference(a, b, k);
}

proof fn lemma_lex_first_difference(a: Seq<u8>, b: Seq<u8>, k: int)
    requires
        a.len() == b.len(),
        0 <= k < a.len(),
        a[k] != b[k],
    ensures
        lex_lt(a, b) || lex_lt(b, a),
    decreases k,
{
    if forall|j: int| 0 <= j < k ==> a[j] == b[j] {
        if a[k] < b[k] {
            assert(lex_lt(a, b));
        } else {
            assert(lex_lt(b, a));
        }
    } else {
        let j = choose|j: int| 0 <= j < k && a[j] != b[j];
        lemma_lex_first_difference(a, b, j);
    }
}

/// Compares two 32-byte keys for equality.
pub fn key_eq(a: &[u8; 32], b: &[u8; 32]) -> (r: bool)
    ensures
        r == (a@ == b@),
{
    let mut i: usize = 0;
    while i < 32
        invariant
            0 <= i <= 32,
            forall|j: int| 0 <= j < i ==> a@[j] == b@[j],
        decreases 32 - i,
    {
        if a[i] != b[i] {
            return false;
        }
        i += 1;
    }
    proof {
        assert(a@ =~= b@);
    }
    true
}

/// Decides whether `a` comes strictly before `b` in the lexicographic order.
pub fn key_lt(a: &[u8; 32], b: &[u8; 32]) -> (r: bool)
    ensures
        r == lex_lt(a@, b@),
{
    let mut i: usize = 0;
    while i < 32
        invariant
            0 <= i <= 32,
            forall|j: int| 0 <= j < i ==> a@[j] == b@[j],
        decreases 32 - i,
    {
        if a[i] < b[i] {
            return true;
        }
        if a[i] > b[i] {
            proof {
                assert forall|k: int|
                    0 <= k < a@.len() && k < b@.len() && a@[k] < b@[k] implies !(forall|j: int|
                    0 <= j < k ==> a@[j] == b@[j]) by {
                    if k <= i as int {
                    } else {
                        assert(a@[i as int] != b@[i as int]);
                    }
                }
            }
            return false;
        }
        i += 1;
    }
    false
}

} // verus!
