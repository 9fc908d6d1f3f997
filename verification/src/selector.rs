//! Picking the pair to merge next: the live entry with the greatest count,
//! ties broken by the smallest left id and then the smallest right id, so
//! that selection is a function of the index contents alone and training is
//! deterministic.

use vstd::prelude::*;
use crate::pairs::{
    pair_key,
    pair_count,
    lemma_pair_key_components,
    lemma_pair_key_roundtrip,
};
use crate::freq::{FrequencyIndex, no_counts};

verus! {

/// The selection order: `(c1, l1, r1)` ranks no higher than `(c2, l2, r2)`.
/// A greater count wins; on equal counts the smaller left id wins; on equal
/// left ids the smaller right id wins.
pub open spec fn ranked_le(c1: int, l1: u32, r1: u32, c2: int, l2: u32, r2: u32) -> bool {
    ||| c1 < c2
    ||| (c1 == c2 && l2 < l1)
    ||| (c1 == c2 && l1 == l2 && r2 <= r1)
}

/// `(l, r)` occurs in `s` and ranks at least as high as every other pair.
pub open spec fn is_best_pair(s: Seq<u32>, l: u32, r: u32) -> bool {
    &&& pair_count(s, l, r) >= 1
    &&& forall|x: u32, y: u32|
        ranked_le(
            pair_count(s, x, y) as int,
            x,
            y,
            pair_count(s, l, r) as int,
            l,
            r,
        )
}

/// The selection order admits one best pair at most.
pub proof fn lemma_best_unique(s: Seq<u32>, l1: u32, r1: u32, l2: u32, r2: u32)
    requires
        is_best_pair(s, l1, r1),
        is_best_pair(s, l2, r2),
    ensures
        l1 == l2,
        r1 == r2,
{
    assert(ranked_le(pair_count(s, l1, r1) as int, l1, r1, pair_count(s, l2, r2) as int, l2, r2));
    assert(ranked_le(pair_count(s, l2, r2) as int, l2, r2, pair_count(s, l1, r1) as int, l1, r1));
}

/// Scans the live entries and returns the best pair and its count, under
/// the selection order.  An empty index yields the pair `(0, 0)` with count
/// zero.
pub fn select_best(fi: &FrequencyIndex) -> (best: (u32, u32, u32))
    ensures
        fi@ == no_counts() ==> best == (0u32, 0u32, 0u32),
        fi@ != no_counts() ==> fi@.contains_key(pair_key(best.0, best.1)) && fi@[pair_key(
            best.0,
            best.1,
        )] == best.2,
        forall|x: u32, y: u32|
            fi@.contains_key(#[trigger] pair_key(x, y)) ==> ranked_le(
                fi@[pair_key(x, y)] as int,
                x,
                y,
                best.2 as int,
                best.0,
                best.1,
            ),
{
    let entries = fi.entries();
    if entries.len() == 0 {
        proof {
            assert forall|k: u64| !(#[trigger] fi@.contains_key(k)) by {
                if fi@.contains_key(k) {
                    let j = choose|j: int|
                        0 <= j < entries@.len() && (#[trigger] entries@[j]).0 == k;
                }
            }
            assert(fi@ =~= no_counts());
        }
        return (0, 0, 0);
    }
    let first = entries[0];
    let mut bl: u32 = (first.0 >> 32) as u32;
    let mut br: u32 = first.0 as u32;
    let mut bc: u32 = first.1;
    proof {
        lemma_pair_key_roundtrip(first.0);
        assert(fi@.contains_pair(entries@[0].0, entries@[0].1));
    }
    let m = entries.len();
    let mut i: usize = 1;
    while i < m
        invariant
            m == entries@.len(),
            1 <= i <= m,
            fi@.contains_key(pair_key(bl, br)),
            fi@[pair_key(bl, br)] == bc,
            forall|j: int|
                0 <= j < entries@.len() ==> #[trigger] fi@.contains_pair(
                    entries@[j].0,
                    entries@[j].1,
                ),
            forall|j: int|
                0 <= j < i ==> ranked_le(
                    (#[trigger] entries@[j]).1 as int,
                    (entries@[j].0 >> 32) as u32,
                    entries@[j].0 as u32,
                    bc as int,
                    bl,
                    br,
                ),
        decreases m - i,
    {
        let e = entries[i];
        let el: u32 = (e.0 >> 32) as u32;
        let er: u32 = e.0 as u32;
        let ec: u32 = e.1;
        if ec > bc || (ec == bc && (el < bl || (el == bl && er < br))) {
            proof {
                lemma_pair_key_roundtrip(e.0);
                assert(fi@.contains_pair(entries@[i as int].0, entries@[i as int].1));
            }
            bl = el;
            br = er;
            bc = ec;
        }
        i += 1;
    }
    proof {
        assert(fi@ != no_counts()) by {
            assert(fi@.contains_key(pair_key(bl, br)));
            assert(!no_counts().contains_key(pair_key(bl, br)));
        }
        assert forall|x: u32, y: u32| fi@.contains_key(#[trigger] pair_key(x, y)) implies ranked_le(
            fi@[pair_key(x, y)] as int,
            x,
            y,
            bc as int,
            bl,
            br,
        ) by {
            let j = choose|j: int| 0 <= j < entries@.len() && (#[trigger] entries@[j]).0
                == pair_key(x, y);
            assert(fi@.contains_pair(entries@[j].0, entries@[j].1));
            lemma_pair_key_components(x, y);
        }
    }
    (bl, br, bc)
}

} // verus!
