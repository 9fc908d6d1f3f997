//! Adjacent token pairs: packing a pair into one map key, and counting how
//! often a pair occurs in a token sequence.

use vstd::prelude::*;

verus! {

/// A pair of token ids packed into one 64-bit key: the left id in the high
/// 32 bits, the right id in the low 32 bits.
pub open spec fn pair_key(l: u32, r: u32) -> u64 {
    ((l as u64) << 32) | (r as u64)
}

/// Packing is injective: two keys are equal exactly when their pairs are.
pub proof fn lemma_pair_key_injective(l1: u32, r1: u32, l2: u32, r2: u32)
    ensures
        pair_key(l1, r1) == pair_key(l2, r2) <==> (l1 == l2 && r1 == r2),
{
    assert((((l1 as u64) << 32) | (r1 as u64)) == (((l2 as u64) << 32) | (r2 as u64)) ==> l1 == l2
        && r1 == r2) by (bit_vector);
}

/// The two halves of a packed key are the pair it was packed from.
pub proof fn lemma_pair_key_components(l: u32, r: u32)
    ensures
        (pair_key(l, r) >> 32) as u32 == l,
        pair_key(l, r) as u32 == r,
{
    assert(((((l as u64) << 32) | (r as u64)) >> 32) as u32 == l) by (bit_vector);
    assert(((((l as u64) << 32) | (r as u64)) as u32) == r) by (bit_vector);
}

/// Every 64-bit key is the packing of its two halves.
pub proof fn lemma_pair_key_roundtrip(k: u64)
    ensures
        pair_key((k >> 32) as u32, k as u32) == k,
{
    assert(((((k >> 32) as u32) as u64) << 32) | (((k as u32)) as u64) == k) by (bit_vector);
}

/// Packs a pair of token ids into one 64-bit key.
pub fn encode_pair(l: u32, r: u32) -> (k: u64)
    ensures
        k == pair_key(l, r),
{
    ((l as u64) << 32) | (r as u64)
}

/// How many positions `i` of `s` hold `l` at `i` and `r` at `i + 1`.
pub open spec fn pair_count(s: Seq<u32>, l: u32, r: u32) -> nat
    decreases s.len(),
{
    if s.len() < 2 {
        0
    } else {
        (if s[0] == l && s[1] == r {
            1nat
        } else {
            0nat
        }) + pair_count(s.skip(1), l, r)
    }
}

/// The one occurrence of a pair that spans the junction of two sequences,
/// if the junction holds it.
pub open spec fn junction_count(a: Seq<u32>, b: Seq<u32>, l: u32, r: u32) -> nat {
    if a.len() > 0 && b.len() > 0 && a.last() == l && b.first() == r {
        1
    } else {
        0
    }
}

/// Occurrences in a concatenation: those inside each part, plus the one that
/// may span the junction.
pub proof fn lemma_pair_count_concat(a: Seq<u32>, b: Seq<u32>, l: u32, r: u32)
    ensures
        pair_count(a + b, l, r) == pair_count(a, l, r) + pair_count(b, l, r) + junction_count(
            a,
            b,
            l,
            r,
        ),
    decreases a.len(),
{
    if a.len() == 0 {
        assert(a + b =~= b);
    } else {
        lemma_pair_count_concat(a.skip(1), b, l, r);
        assert((a + b).skip(1) =~= a.skip(1) + b);
        if a.len() == 1 {
            if b.len() == 0 {
                assert(pair_count(a + b, l, r) == 0);
            } else {
                assert((a + b)[0] == a[0] && (a + b)[1] == b[0]);
            }
        }
    }
}

/// No sequence holds more pairs than elements.
pub proof fn lemma_pair_count_le_len(s: Seq<u32>, l: u32, r: u32)
    ensures
        pair_count(s, l, r) <= s.len(),
    decreases s.len(),
{
    if s.len() >= 2 {
        lemma_pair_count_le_len(s.skip(1), l, r);
    }
}

/// A pair seen at one position makes the count positive.
pub proof fn lemma_pair_at_index(s: Seq<u32>, i: int, l: u32, r: u32)
    requires
        0 <= i,
        i + 1 < s.len(),
        s[i] == l,
        s[i + 1] == r,
    ensures
        pair_count(s, l, r) >= 1,
    decreases i,
{
    if i > 0 {
        lemma_pair_at_index(s.skip(1), i - 1, l, r);
    }
}

/// Counts a pair's occurrences by brute force, rescanning the whole
/// sequence: the oracle the incrementally kept index can be checked against.
pub fn count_occurrences(tokens: &Vec<u32>, l: u32, r: u32) -> (c: u32)
    requires
        tokens@.len() < 0xFFFF_FFFF,
    ensures
        c == pair_count(tokens@, l, r),
{
    let n = tokens.len();
    let mut c: u32 = 0;
    if n < 2 {
        return c;
    }
    let mut j: usize = 0;
    while j + 1 < n
        invariant
            n == tokens@.len(),
            2 <= n < 0xFFFF_FFFF,
            j + 1 <= n,
            c == pair_count(tokens@.take(j + 1), l, r),
        decreases n - j,
    {
        proof {
            lemma_pair_count_le_len(tokens@.take(j + 1), l, r);
            let s1 = tokens@.take(j + 1);
            let s2 = tokens@.take(j + 2);
            assert(s2 =~= s1 + seq![tokens@[j as int + 1]]);
            lemma_pair_count_concat(s1, seq![tokens@[j as int + 1]], l, r);
        }
        if tokens[j] == l && tokens[j + 1] == r {
            c += 1;
        }
        j += 1;
    }
    proof {
        assert(tokens@.take(n as int) =~= tokens@);
    }
    c
}

/// A positive count points at a position where the pair occurs.
pub proof fn lemma_pair_count_pos_exists(s: Seq<u32>, l: u32, r: u32)
    requires
        pair_count(s, l, r) >= 1,
    ensures
        exists|i: int| 0 <= i && i + 1 < s.len() && #[trigger] s[i] == l && s[i + 1] == r,
    decreases s.len(),
{
    if s.len() >= 2 {
        if s[0] == l && s[1] == r {
            assert(s[0] == l && s[0int + 1] == r);
        } else {
            lemma_pair_count_pos_exists(s.skip(1), l, r);
            let j = choose|j: int|
                0 <= j && j + 1 < s.skip(1).len() && #[trigger] s.skip(1)[j] == l && s.skip(1)[j
                    + 1] == r;
            assert(s[j + 1] == l && s[j + 2] == r);
            assert(0 <= j + 1 && (j + 1) + 1 < s.len() && s[j + 1] == l && s[(j + 1) + 1] == r);
        }
    }
}

} // verus!
