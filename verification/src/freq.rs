//! The pair-frequency index: a live map from a packed adjacent-pair key to
//! the number of times that pair occurs in the working token sequence.  An
//! entry exists iff its count is positive; a decrement that reaches zero
//! removes the entry.  The map itself is an `indexmap::IndexMap` behind
//! trusted wrappers; everything done with it is verified against their
//! contracts.

use vstd::prelude::*;
use indexmap::IndexMap;
use crate::pairs::{pair_key, pair_count, lemma_pair_key_injective, lemma_pair_count_concat,
    lemma_pair_count_le_len};

verus! {

#[verifier::external_type_specification]
#[verifier::external_body]
#[verifier::reject_recursive_types(K)]
#[verifier::reject_recursive_types(V)]
#[verifier::reject_recursive_types(S)]
pub struct ExIndexMap<K, V, S>(IndexMap<K, V, S>);

/// What an `IndexMap` holds, as a mathematical map from key to value.
pub uninterp spec fn index_map_entries(m: IndexMap<u64, u32>) -> Map<u64, u32>;

/// Relies on `IndexMap::get`: the value stored under the key, if any.
#[verifier::external_body]
fn im_get(m: &IndexMap<u64, u32>, k: u64) -> (r: Option<u32>)
    ensures
        r == (if index_map_entries(*m).contains_key(k) {
            Some(index_map_entries(*m)[k])
        } else {
            None::<u32>
        }),
{
    m.get(&k).copied()
}

/// Relies on `IndexMap::insert`: the key now maps to the value; every other
/// entry keeps its value.
#[verifier::external_body]
fn im_insert(m: &mut IndexMap<u64, u32>, k: u64, v: u32)
    ensures
        index_map_entries(*final(m)) == index_map_entries(*old(m)).insert(k, v),
{
    m.insert(k, v);
}

/// Relies on `IndexMap::swap_remove`: the entry under the key is gone; every
/// other entry keeps its value.
#[verifier::external_body]
fn im_remove(m: &mut IndexMap<u64, u32>, k: u64)
    ensures
        index_map_entries(*final(m)) == index_map_entries(*old(m)).remove(k),
{
    m.swap_remove(&k);
}

/// Relies on `IndexMap::iter`: it yields exactly the map's entries.
#[verifier::external_body]
fn im_entries(m: &IndexMap<u64, u32>) -> (r: Vec<(u64, u32)>)
    ensures
        forall|i: int|
            0 <= i < r@.len() ==> #[trigger] index_map_entries(*m).contains_pair(
                r@[i].0,
                r@[i].1,
            ),
        forall|k: u64|
            #[trigger] index_map_entries(*m).contains_key(k) ==> exists|i: int|
                0 <= i < r@.len() && (#[trigger] r@[i]).0 == k,
{
    m.iter().map(|(k, v)| (*k, *v)).collect()
}

/// Mapping from an adjacent token pair to its occurrence count in the
/// working sequence.  An entry exists iff its count is positive.
pub struct FrequencyIndex {
    counts: IndexMap<u64, u32>,
}

impl View for FrequencyIndex {
    type V = Map<u64, u32>;

    closed spec fn view(&self) -> Map<u64, u32> {
        index_map_entries(self.counts)
    }
}

/// The empty index contents.
pub open spec fn no_counts() -> Map<u64, u32> {
    Map::empty()
}

/// The count an increment of `k` leaves behind: one more than before, or one
/// for a fresh entry.
pub open spec fn bumped(m: Map<u64, u32>, k: u64) -> u32 {
    if m.contains_key(k) {
        (m[k] + 1) as u32
    } else {
        1u32
    }
}

/// The whole map after an increment of `k`.
pub open spec fn inc_map(m: Map<u64, u32>, k: u64) -> Map<u64, u32> {
    m.insert(k, bumped(m, k))
}

/// The whole map after a decrement of `k`: the entry goes when its count
/// reaches zero.
pub open spec fn dec_map(m: Map<u64, u32>, k: u64) -> Map<u64, u32> {
    if m.contains_key(k) && m[k] == 1 {
        m.remove(k)
    } else if m.contains_key(k) {
        m.insert(k, (m[k] - 1) as u32)
    } else {
        m
    }
}

/// The index is exactly consistent with the sequence: a pair has an entry
/// iff it occurs, and the entry is its true occurrence count.
pub open spec fn consistent(m: Map<u64, u32>, s: Seq<u32>) -> bool {
    &&& forall|l: u32, r: u32|
        #[trigger] m.contains_key(pair_key(l, r)) <==> pair_count(s, l, r) > 0
    &&& forall|l: u32, r: u32|
        m.contains_key(#[trigger] pair_key(l, r)) ==> m[pair_key(l, r)] == pair_count(s, l, r)
}

/// The sequence determines the index: two indexes consistent with the same
/// sequence hold exactly the same entries.  Together with `merge`'s ensures
/// this pins the rewritten index to one value, so repeated runs on equal
/// input leave equal indexes.
pub proof fn lemma_consistent_unique(m1: Map<u64, u32>, m2: Map<u64, u32>, s: Seq<u32>)
    requires
        consistent(m1, s),
        consistent(m2, s),
    ensures
        m1 == m2,
{
    assert forall|k: u64| m1.contains_key(k) == m2.contains_key(k) by {
        crate::pairs::lemma_pair_key_roundtrip(k);
        let x = (k >> 32) as u32;
        let y = k as u32;
        assert(m1.contains_key(pair_key(x, y)) <==> pair_count(s, x, y) > 0);
        assert(m2.contains_key(pair_key(x, y)) <==> pair_count(s, x, y) > 0);
    }
    assert forall|k: u64| m1.contains_key(k) implies m1[k] == m2[k] by {
        crate::pairs::lemma_pair_key_roundtrip(k);
        let x = (k >> 32) as u32;
        let y = k as u32;
        assert(m1[pair_key(x, y)] == pair_count(s, x, y));
        assert(m2[pair_key(x, y)] == pair_count(s, x, y));
    }
    assert(m1.dom() =~= m2.dom());
    assert(m1 =~= m2);
}

impl FrequencyIndex {
    /// An empty index, consistent with any sequence shorter than two tokens.
    /// Relies on `IndexMap::new`: the fresh map holds nothing.
    #[verifier::external_body]
    pub fn new() -> (fi: FrequencyIndex)
        ensures
            fi@ == no_counts(),
    {
        FrequencyIndex { counts: IndexMap::new() }
    }

    /// The count stored for a pair; zero when the pair has no entry.
    pub fn get(&self, l: u32, r: u32) -> (c: u32)
        ensures
            c == (if self@.contains_key(pair_key(l, r)) {
                self@[pair_key(l, r)]
            } else {
                0u32
            }),
    {
        match im_get(&self.counts, crate::pairs::encode_pair(l, r)) {
            Some(c) => c,
            None => 0,
        }
    }

    /// Raises a pair's count by one, creating the entry at one if absent.
    pub fn increment(&mut self, l: u32, r: u32)
        requires
            old(self)@.contains_key(pair_key(l, r)) ==> old(self)@[pair_key(l, r)] < u32::MAX,
        ensures
            final(self)@ == inc_map(old(self)@, pair_key(l, r)),
    {
        let k = crate::pairs::encode_pair(l, r);
        let c = match im_get(&self.counts, k) {
            Some(c) => c + 1,
            None => 1,
        };
        im_insert(&mut self.counts, k, c);
    }

    /// Lowers a pair's count by one, removing the entry when it reaches zero.
    pub fn decrement(&mut self, l: u32, r: u32)
        requires
            old(self)@.contains_key(pair_key(l, r)),
            old(self)@[pair_key(l, r)] >= 1,
        ensures
            final(self)@ == dec_map(old(self)@, pair_key(l, r)),
    {
        let k = crate::pairs::encode_pair(l, r);
        let c = match im_get(&self.counts, k) {
            Some(c) => c,
            None => 0,
        };
        if c <= 1 {
            im_remove(&mut self.counts, k);
        } else {
            im_insert(&mut self.counts, k, c - 1);
        }
    }

    /// Every live entry, as plain key-count values.
    pub fn entries(&self) -> (r: Vec<(u64, u32)>)
        ensures
            forall|i: int|
                0 <= i < r@.len() ==> #[trigger] self@.contains_pair(r@[i].0, r@[i].1),
            forall|k: u64|
                #[trigger] self@.contains_key(k) ==> exists|i: int|
                    0 <= i < r@.len() && (#[trigger] r@[i]).0 == k,
    {
        im_entries(&self.counts)
    }
}

/// Builds the index for a sequence by one full scan, counting every adjacent
/// pair.  This is the startup scan; afterwards `merge` keeps the index
/// consistent incrementally.
pub fn build_index(tokens: &Vec<u32>) -> (fi: FrequencyIndex)
    requires
        tokens@.len() < 0xFFFF_FFFF,
    ensures
        consistent(fi@, tokens@),
{
    let mut fi = FrequencyIndex::new();
    let n = tokens.len();
    if n < 2 {
        return fi;
    }
    let mut j: usize = 0;
    while j + 1 < n
        invariant
            n == tokens@.len(),
            2 <= n < 0xFFFF_FFFF,
            j + 1 <= n,
            consistent(fi@, tokens@.take(j + 1)),
        decreases n - j,
    {
        let a = tokens[j];
        let b = tokens[j + 1];
        proof {
            lemma_pair_count_le_len(tokens@.take(j + 1), a, b);
        }
        fi.increment(a, b);
        proof {
            let s1 = tokens@.take(j + 1);
            let s2 = tokens@.take(j + 2);
            assert(s2 =~= s1 + seq![b]);
            assert forall|x: u32, y: u32|
                (#[trigger] fi@.contains_key(pair_key(x, y)) <==> pair_count(s2, x, y) > 0)
                    && (fi@.contains_key(pair_key(x, y)) ==> fi@[pair_key(x, y)] == pair_count(
                    s2,
                    x,
                    y,
                )) by {
                lemma_pair_count_concat(s1, seq![b], x, y);
                lemma_pair_key_injective(x, y, a, b);
            }
        }
        j += 1;
    }
    proof {
        assert(tokens@.take(n as int) =~= tokens@);
    }
    fi
}

} // verus!
