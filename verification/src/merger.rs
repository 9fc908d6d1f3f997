//! Rewriting a token sequence by merging one adjacent pair, greedily from
//! left to right, into a fresh token.  `tokenize` is the plain rewrite,
//! usable as an oracle; `merge` (the production path) additionally keeps the
//! pair-frequency index consistent while it rewrites.

use vstd::prelude::*;
use crate::pairs::{
    pair_key,
    pair_count,
    lemma_pair_key_injective,
    lemma_pair_count_concat,
    lemma_pair_count_le_len,
    lemma_pair_at_index,
};
use crate::freq::{FrequencyIndex, consistent, inc_map, dec_map};

verus! {

/// The greedy left-to-right rewrite of `s`: each non-overlapping occurrence
/// of `(l, r)` becomes the single token `t`, and the scan resumes after the
/// consumed pair, so a run of equal tokens is never re-tested against its
/// own replacement.
pub open spec fn merge_seq(s: Seq<u32>, l: u32, r: u32, t: u32) -> Seq<u32>
    decreases s.len(),
{
    if s.len() >= 2 && s[0] == l && s[1] == r {
        seq![t] + merge_seq(s.skip(2), l, r, t)
    } else if s.len() >= 1 {
        seq![s[0]] + merge_seq(s.skip(1), l, r, t)
    } else {
        Seq::<u32>::empty()
    }
}

/// The rewrite never grows the sequence, and shrinks it whenever the pair
/// occurs at all.
pub proof fn lemma_merge_seq_len(s: Seq<u32>, l: u32, r: u32, t: u32)
    ensures
        merge_seq(s, l, r, t).len() <= s.len(),
        pair_count(s, l, r) >= 1 ==> merge_seq(s, l, r, t).len() < s.len(),
    decreases s.len(),
{
    if s.len() >= 2 && s[0] == l && s[1] == r {
        lemma_merge_seq_len(s.skip(2), l, r, t);
    } else if s.len() >= 1 {
        lemma_merge_seq_len(s.skip(1), l, r, t);
    }
}

/// One merge step of the index bookkeeping, done against the already
/// emitted output `out0` and the remaining input `rest`, whose head is the
/// occurrence being consumed.  States that every update finds its entry
/// live, and that the fully updated index is consistent with the sequence
/// after the step.
#[verifier::rlimit(100)]
proof fn lemma_merge_step(
    m0: Map<u64, u32>,
    out0: Seq<u32>,
    rest: Seq<u32>,
    l: u32,
    r: u32,
    t: u32,
    prev: u32,
    has_prev: bool,
    nx: u32,
    has_next: bool,
)
    requires
        consistent(m0, out0 + rest),
        out0.len() + rest.len() < 0xFFFF_FFFF,
        rest.len() >= 2,
        rest[0] == l,
        rest[1] == r,
        has_prev <==> out0.len() > 0,
        has_prev ==> prev == out0.last(),
        has_next <==> rest.len() > 2,
        has_next ==> nx == rest[2],
        has_prev ==> !(prev == l && l == r),
        l < t,
        r < t,
        has_next ==> nx < t,
    ensures
        ({
            let h = out0 + rest;
            let m1 = if has_prev {
                inc_map(dec_map(m0, pair_key(prev, l)), pair_key(prev, t))
            } else {
                m0
            };
            let m2 = dec_map(m1, pair_key(l, r));
            let m3 = if has_next {
                inc_map(dec_map(m2, pair_key(r, nx)), pair_key(t, nx))
            } else {
                m2
            };
            &&& (has_prev ==> m0.contains_key(pair_key(prev, l)) && m0[pair_key(prev, l)] >= 1)
            &&& (has_prev ==> (dec_map(m0, pair_key(prev, l)).contains_key(pair_key(prev, t))
                ==> dec_map(m0, pair_key(prev, l))[pair_key(prev, t)] < u32::MAX))
            &&& m1.contains_key(pair_key(l, r)) && m1[pair_key(l, r)] >= 1
            &&& (has_next ==> m2.contains_key(pair_key(r, nx)) && m2[pair_key(r, nx)] >= 1)
            &&& (has_next ==> (dec_map(m2, pair_key(r, nx)).contains_key(pair_key(t, nx))
                ==> dec_map(m2, pair_key(r, nx))[pair_key(t, nx)] < u32::MAX))
            &&& consistent(m3, out0 + seq![t] + rest.skip(2))
        }),
{
    let h = out0 + rest;
    let w = rest.skip(2);
    let out1 = out0 + seq![t];
    let h2 = out1 + w;
    assert(rest =~= seq![l, r] + w);

    // The consumed occurrence and the two boundaries are live in the index.
    if has_prev {
        lemma_pair_count_concat(out0, rest, prev, l);
        assert(m0.contains_key(pair_key(prev, l)) && m0[pair_key(prev, l)] == pair_count(
            h,
            prev,
            l,
        ));
        lemma_pair_key_injective(prev, t, prev, l);
        lemma_pair_count_le_len(h, prev, t);
        assert(m0.contains_key(pair_key(prev, t)) ==> m0[pair_key(prev, t)] == pair_count(
            h,
            prev,
            t,
        ));
    }
    lemma_pair_count_concat(out0, rest, l, r);
    assert(m0.contains_key(pair_key(l, r)) && m0[pair_key(l, r)] == pair_count(h, l, r));
    if has_prev {
        lemma_pair_key_injective(l, r, prev, l);
        lemma_pair_key_injective(l, r, prev, t);
    }
    if has_next {
        assert(rest[2] == nx);
        lemma_pair_at_index(rest, 1, r, nx);
        lemma_pair_count_concat(out0, rest, r, nx);
        assert(m0.contains_key(pair_key(r, nx)) && m0[pair_key(r, nx)] == pair_count(h, r, nx));
        lemma_pair_key_injective(r, nx, l, r);
        if has_prev {
            lemma_pair_key_injective(r, nx, prev, l);
            lemma_pair_key_injective(r, nx, prev, t);
        }
        if r == l && nx == r {
            // A run of the same token: the remaining input holds the pair at
            // its first two boundaries, so the count survives both
            // decrements that hit it.
            assert(rest.skip(1)[0] == rest[1] && rest.skip(1)[1] == rest[2]);
            assert(pair_count(rest.skip(1), r, nx) >= 1);
            assert(pair_count(rest, r, nx) >= 2);
        }
        lemma_pair_key_injective(t, nx, r, nx);
        lemma_pair_key_injective(t, nx, l, r);
        lemma_pair_count_le_len(h, t, nx);
        if has_prev {
            lemma_pair_key_injective(t, nx, prev, l);
            lemma_pair_key_injective(t, nx, prev, t);
        }
        assert(m0.contains_key(pair_key(t, nx)) ==> m0[pair_key(t, nx)] == pair_count(h, t, nx));
    }

    // Per key, the updates shift the stored count by exactly the difference
    // between the old and the new sequence's occurrence counts.
    let m1 = if has_prev {
        inc_map(dec_map(m0, pair_key(prev, l)), pair_key(prev, t))
    } else {
        m0
    };
    let m2 = dec_map(m1, pair_key(l, r));
    let m3 = if has_next {
        inc_map(dec_map(m2, pair_key(r, nx)), pair_key(t, nx))
    } else {
        m2
    };
    assert forall|x: u32, y: u32|
        (#[trigger] m3.contains_key(pair_key(x, y)) <==> pair_count(h2, x, y) > 0)
            && (m3.contains_key(pair_key(x, y)) ==> m3[pair_key(x, y)] == pair_count(
            h2,
            x,
            y,
        )) by {
        assert(m0.contains_key(pair_key(x, y)) <==> pair_count(h, x, y) > 0);
        assert(m0.contains_key(pair_key(x, y)) ==> m0[pair_key(x, y)] == pair_count(h, x, y));
        lemma_pair_count_concat(out0, rest, x, y);
        lemma_pair_count_concat(seq![l, r], w, x, y);
        lemma_pair_count_concat(out0, seq![t], x, y);
        lemma_pair_count_concat(out1, w, x, y);
        assert(seq![l, r].skip(1) =~= seq![r]);
        assert(pair_count(seq![r], x, y) == 0);
        assert(seq![l, r][0] == l && seq![l, r][1] == r);
        assert(pair_count(seq![l, r], x, y) == (if l == x && r == y {
            1nat
        } else {
            0nat
        }));
        lemma_pair_key_injective(x, y, l, r);
        lemma_pair_key_injective(x, y, prev, l);
        lemma_pair_key_injective(x, y, prev, t);
        lemma_pair_key_injective(x, y, r, nx);
        lemma_pair_key_injective(x, y, t, nx);
    }
}

/// The incremental rewrite engine.  Rewrites `tokens_in` exactly as
/// `tokenize` does, and at the same time keeps the frequency index
/// consistent with the sequence it is building: each consumed occurrence of
/// `(l, r)` costs one decrement of the pair itself, plus one decrement and
/// one increment for the destroyed and created boundary on each side.  The
/// boundary on the left is taken from the already emitted output, not the
/// raw input, which is what keeps the index exact when merges touch.
///
/// `t` must be fresh: strictly greater than every token in play.
pub fn merge(tokens_in: &Vec<u32>, l: u32, r: u32, t: u32, fi: &mut FrequencyIndex) -> (tokens_out:
    Vec<u32>)
    requires
        tokens_in@.len() < 0xFFFF_FFFF,
        consistent(old(fi)@, tokens_in@),
        forall|j: int| 0 <= j < tokens_in@.len() ==> tokens_in@[j] < t,
        l < t,
        r < t,
    ensures
        tokens_out@ == merge_seq(tokens_in@, l, r, t),
        consistent(final(fi)@, tokens_out@),
        tokens_out@.len() <= tokens_in@.len(),
        forall|j: int| 0 <= j < tokens_out@.len() ==> tokens_out@[j] <= t,
{
    let n = tokens_in.len();
    let mut tokens_out: Vec<u32> = Vec::new();
    let mut i: usize = 0;
    proof {
        assert(tokens_in@.skip(0) =~= tokens_in@);
        assert(Seq::<u32>::empty() + merge_seq(tokens_in@, l, r, t) =~= merge_seq(
            tokens_in@,
            l,
            r,
            t,
        ));
        assert(Seq::<u32>::empty() + tokens_in@ =~= tokens_in@);
    }
    while i < n
        invariant
            n == tokens_in@.len(),
            n < 0xFFFF_FFFF,
            i <= n,
            l < t,
            r < t,
            forall|j: int| 0 <= j < tokens_in@.len() ==> tokens_in@[j] < t,
            tokens_out@.len() <= i,
            forall|j: int| 0 <= j < tokens_out@.len() ==> tokens_out@[j] <= t,
            merge_seq(tokens_in@, l, r, t) == tokens_out@ + merge_seq(
                tokens_in@.skip(i as int),
                l,
                r,
                t,
            ),
            consistent(fi@, tokens_out@ + tokens_in@.skip(i as int)),
            tokens_out@.len() > 0 && i < n ==> !(tokens_out@.last() == l && tokens_in@[i as int]
                == r),
        decreases n - i,
    {
        let ghost rest = tokens_in@.skip(i as int);
        let ghost out0 = tokens_out@;
        if i + 1 < n && tokens_in[i] == l && tokens_in[i + 1] == r {
            let ghost m0 = fi@;
            let has_prev = tokens_out.len() > 0;
            let prev: u32 = if has_prev {
                tokens_out[tokens_out.len() - 1]
            } else {
                0
            };
            let has_next = i + 2 < n;
            let next: u32 = if has_next {
                tokens_in[i + 2]
            } else {
                0
            };
            proof {
                assert(rest[0] == tokens_in@[i as int] && rest[1] == tokens_in@[i as int + 1]);
                if has_next {
                    assert(rest[2] == tokens_in@[i as int + 2]);
                }
                lemma_merge_step(m0, out0, rest, l, r, t, prev, has_prev, next, has_next);
            }
            if has_prev {
                fi.decrement(prev, l);
                fi.increment(prev, t);
            }
            fi.decrement(l, r);
            tokens_out.push(t);
            if has_next {
                fi.decrement(r, next);
                fi.increment(t, next);
            }
            i += 2;
            proof {
                assert(tokens_out@ =~= out0 + seq![t]);
                assert(tokens_in@.skip(i as int) =~= rest.skip(2));
                assert(tokens_out@ + merge_seq(rest.skip(2), l, r, t) =~= out0 + (seq![t]
                    + merge_seq(rest.skip(2), l, r, t)));
                assert(tokens_out@ + tokens_in@.skip(i as int) =~= out0 + seq![t] + rest.skip(2));
            }
        } else {
            tokens_out.push(tokens_in[i]);
            proof {
                assert(rest[0] == tokens_in@[i as int]);
                assert(rest.skip(1) =~= tokens_in@.skip(i + 1));
                assert(tokens_out@ + merge_seq(tokens_in@.skip(i + 1), l, r, t) =~= out0 + (seq![
                    rest[0],
                ] + merge_seq(rest.skip(1), l, r, t)));
                assert(tokens_out@ + tokens_in@.skip(i + 1) =~= out0 + rest);
            }
            i += 1;
        }
    }
    proof {
        assert(tokens_in@.skip(n as int) =~= Seq::<u32>::empty());
        assert(tokens_out@ + Seq::<u32>::empty() =~= tokens_out@);
        lemma_merge_seq_len(tokens_in@, l, r, t);
    }
    tokens_out
}

/// The plain rewrite, without frequency bookkeeping: every occurrence of
/// `(l, r)` becomes `new_token`, greedily from left to right.
pub fn tokenize(tokens_in: &Vec<u32>, l: u32, r: u32, new_token: u32) -> (tokens_out: Vec<u32>)
    ensures
        tokens_out@ == merge_seq(tokens_in@, l, r, new_token),
{
    let n = tokens_in.len();
    let mut tokens_out: Vec<u32> = Vec::new();
    let mut i: usize = 0;
    proof {
        assert(tokens_in@.skip(0) =~= tokens_in@);
        assert(Seq::<u32>::empty() + merge_seq(tokens_in@, l, r, new_token) =~= merge_seq(
            tokens_in@,
            l,
            r,
            new_token,
        ));
    }
    while i < n
        invariant
            n == tokens_in@.len(),
            i <= n,
            merge_seq(tokens_in@, l, r, new_token) == tokens_out@ + merge_seq(
                tokens_in@.skip(i as int),
                l,
                r,
                new_token,
            ),
        decreases n - i,
    {
        let ghost rest = tokens_in@.skip(i as int);
        let ghost out0 = tokens_out@;
        if i + 1 < n && tokens_in[i] == l && tokens_in[i + 1] == r {
            tokens_out.push(new_token);
            proof {
                assert(rest[0] == tokens_in@[i as int] && rest[1] == tokens_in@[i as int + 1]);
                assert(rest.skip(2) =~= tokens_in@.skip(i + 2));
                assert(tokens_out@ + merge_seq(tokens_in@.skip(i + 2), l, r, new_token) =~= out0
                    + (seq![new_token] + merge_seq(rest.skip(2), l, r, new_token)));
            }
            i += 2;
        } else {
            tokens_out.push(tokens_in[i]);
            proof {
                assert(rest[0] == tokens_in@[i as int]);
                assert(rest.skip(1) =~= tokens_in@.skip(i + 1));
                assert(tokens_out@ + merge_seq(tokens_in@.skip(i + 1), l, r, new_token) =~= out0
                    + (seq![rest[0]] + merge_seq(rest.skip(1), l, r, new_token)));
            }
            i += 1;
        }
    }
    proof {
        assert(tokens_in@.skip(n as int) =~= Seq::<u32>::empty());
        assert(tokens_out@ + Seq::<u32>::empty() =~= tokens_out@);
    }
    tokens_out
}

} // verus!
