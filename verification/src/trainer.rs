//! The training loop: seed the vocabulary with the 256 leaves, build the
//! frequency index by one full scan, then repeatedly select the best pair,
//! append its rule and rewrite the sequence, until no pair occurs more than
//! once.  The trained model is pinned down exactly by `train_result`, so two
//! runs on the same bytes cannot differ.

use vstd::prelude::*;
use crate::pairs::{pair_key, pair_count, lemma_pair_count_pos_exists};
use crate::vocab::{MergeRule, Vocabulary, base_rules};
use crate::freq::{FrequencyIndex, consistent, build_index, no_counts};
use crate::selector::{ranked_le, is_best_pair, lemma_best_unique, select_best};
use crate::merger::{merge_seq, merge, lemma_merge_seq_len};
use crate::decoder::{
    spec_decode_seq,
    lemma_decode_base,
    lemma_decode_seq_stable,
    lemma_merge_preserves_decode,
};

verus! {

/// A byte sequence as base tokens.
pub open spec fn bytes_to_tokens(b: Seq<u8>) -> Seq<u32> {
    b.map_values(|x: u8| x as u32)
}

/// Whether another merge round is due: some pair is best and occurs more
/// than once.
pub open spec fn has_merge(s: Seq<u32>) -> bool {
    exists|p: (u32, u32)| is_best_pair(s, p.0, p.1) && pair_count(s, p.0, p.1) >= 2
}

/// The pair the next round merges.
pub open spec fn next_merge_pair(s: Seq<u32>) -> (u32, u32) {
    choose|p: (u32, u32)| is_best_pair(s, p.0, p.1) && pair_count(s, p.0, p.1) >= 2
}

/// The model training reaches from a vocabulary and a working sequence:
/// while a merge is due, append the best pair's rule and rewrite, then
/// freeze.  Each round strictly shortens the sequence, so training always
/// converges.
pub open spec fn train_result(v: Seq<MergeRule>, s: Seq<u32>) -> (Seq<MergeRule>, Seq<u32>)
    decreases s.len(),
    via train_result_decreases
{
    if has_merge(s) {
        let p = next_merge_pair(s);
        train_result(
            v.push(MergeRule { left: p.0, right: Some(p.1) }),
            merge_seq(s, p.0, p.1, v.len() as u32),
        )
    } else {
        (v, s)
    }
}

#[via_fn]
proof fn train_result_decreases(v: Seq<MergeRule>, s: Seq<u32>) {
    if has_merge(s) {
        let p = next_merge_pair(s);
        assert(is_best_pair(s, p.0, p.1) && pair_count(s, p.0, p.1) >= 2);
        lemma_merge_seq_len(s, p.0, p.1, v.len() as u32);
    }
}

/// Training only appends: whatever it starts from stays in place, rule for
/// rule, so an id is never reused or reassigned and the vocabulary never
/// shrinks.
pub proof fn lemma_training_only_appends(v: Seq<MergeRule>, s: Seq<u32>)
    ensures
        train_result(v, s).0.len() >= v.len(),
        forall|j: int| 0 <= j < v.len() ==> train_result(v, s).0[j] == v[j],
        has_merge(s) ==> train_result(v, s).0.len() > v.len(),
    decreases s.len(),
{
    if has_merge(s) {
        let p = next_merge_pair(s);
        assert(is_best_pair(s, p.0, p.1) && pair_count(s, p.0, p.1) >= 2);
        lemma_merge_seq_len(s, p.0, p.1, v.len() as u32);
        let v2 = v.push(MergeRule { left: p.0, right: Some(p.1) });
        let s2 = merge_seq(s, p.0, p.1, v.len() as u32);
        lemma_training_only_appends(v2, s2);
        assert forall|j: int| 0 <= j < v.len() implies train_result(v, s).0[j] == v[j] by {
            assert(train_result(v2, s2).0[j] == v2[j]);
            assert(v2[j] == v[j]);
        }
    }
}

/// One merge round appends exactly one rule — the best pair's — with the
/// next free id, and leaves every existing rule untouched.
pub proof fn lemma_round_appends_one(v: Seq<MergeRule>, s: Seq<u32>)
    requires
        has_merge(s),
    ensures
        ({
            let p = next_merge_pair(s);
            let v2 = v.push(MergeRule { left: p.0, right: Some(p.1) });
            &&& train_result(v, s) == train_result(v2, merge_seq(s, p.0, p.1, v.len() as u32))
            &&& v2.len() == v.len() + 1
            &&& forall|j: int| 0 <= j < v.len() ==> v2[j] == v[j]
        }),
{
}

/// Training is already finished exactly when no merge is due: the state is
/// a fixpoint iff no best pair occurs more than once.
pub proof fn lemma_fixpoint_iff_no_merge(v: Seq<MergeRule>, s: Seq<u32>)
    ensures
        train_result(v, s) == (v, s) <==> !has_merge(s),
{
    if has_merge(s) {
        lemma_training_only_appends(v, s);
    }
}

/// Training halts exactly on convergence: a sequence in which no pair
/// occurs more than once is left untouched, together with its vocabulary.
pub proof fn lemma_converged_is_fixpoint(v: Seq<MergeRule>, s: Seq<u32>)
    requires
        forall|x: u32, y: u32| pair_count(s, x, y) <= 1,
    ensures
        train_result(v, s) == (v, s),
{
    if has_merge(s) {
        let p = next_merge_pair(s);
        assert(is_best_pair(s, p.0, p.1) && pair_count(s, p.0, p.1) >= 2);
        assert(pair_count(s, p.0, p.1) <= 1);
    }
}

/// Identical inputs train to identical models: the result is a function of
/// the bytes alone, with no dependence on map iteration order or any other
/// ambient state.
pub proof fn lemma_train_deterministic(b1: Seq<u8>, b2: Seq<u8>)
    requires
        b1 == b2,
    ensures
        train_result(base_rules(), bytes_to_tokens(b1)) == train_result(
            base_rules(),
            bytes_to_tokens(b2),
        ),
{
}

/// Trains a model from raw bytes.  The result is the final vocabulary and
/// token sequence, which:
/// - are exactly `train_result` of the input, so training is deterministic;
/// - decode back to the input bytes, byte for byte;
/// - hold no adjacent pair more than once (the convergence condition);
/// - grow the vocabulary only by appending, never touching the leaves.
pub fn train(bytes: &Vec<u8>) -> (model: (Vocabulary, Vec<u32>))
    requires
        bytes@.len() < 0xFFFF_0000,
    ensures
        model.0.wf(),
        (model.0@, model.1@) == train_result(base_rules(), bytes_to_tokens(bytes@)),
        spec_decode_seq(model.0@, model.1@) == bytes@,
        forall|x: u32, y: u32| pair_count(model.1@, x, y) <= 1,
        forall|j: int| 0 <= j < model.1@.len() ==> (#[trigger] model.1@[j]) < model.0@.len(),
        model.1@.len() <= bytes@.len(),
        model.0@.len() >= 256,
{
    let mut vocab = Vocabulary::new_base();
    let mut toks = tokens_of_bytes(bytes);
    let mut fi = build_index(&toks);
    proof {
        lemma_decode_base(vocab@, bytes@);
    }
    loop
        invariant_except_break
            vocab.wf(),
            256 <= vocab@.len(),
            vocab@.len() + toks@.len() <= 256 + bytes@.len(),
            toks@.len() <= bytes@.len(),
            bytes@.len() < 0xFFFF_0000,
            forall|j: int| 0 <= j < toks@.len() ==> (#[trigger] toks@[j]) < vocab@.len(),
            consistent(fi@, toks@),
            spec_decode_seq(vocab@, toks@) == bytes@,
            train_result(vocab@, toks@) == train_result(base_rules(), bytes_to_tokens(bytes@)),
        ensures
            vocab.wf(),
            256 <= vocab@.len(),
            toks@.len() <= bytes@.len(),
            forall|j: int| 0 <= j < toks@.len() ==> (#[trigger] toks@[j]) < vocab@.len(),
            spec_decode_seq(vocab@, toks@) == bytes@,
            (vocab@, toks@) == train_result(base_rules(), bytes_to_tokens(bytes@)),
            forall|x: u32, y: u32| pair_count(toks@, x, y) <= 1,
        decreases toks@.len(),
    {
        let best = select_best(&fi);
        let (bl, br, bc) = (best.0, best.1, best.2);
        if bc <= 1 {
            proof {
                assert forall|x: u32, y: u32| pair_count(toks@, x, y) <= 1 by {
                    if pair_count(toks@, x, y) > 1 {
                        assert(fi@.contains_key(pair_key(x, y)));
                        assert(fi@ != no_counts());
                        assert(ranked_le(
                            fi@[pair_key(x, y)] as int,
                            x,
                            y,
                            bc as int,
                            bl,
                            br,
                        ));
                    }
                }
                if has_merge(toks@) {
                    let p = next_merge_pair(toks@);
                    assert(is_best_pair(toks@, p.0, p.1) && pair_count(toks@, p.0, p.1) >= 2);
                }
            }
            break ;
        }
        proof {
            // The winner really is the best pair of the sequence.
            assert(fi@ != no_counts()) by {
                if fi@ == no_counts() {
                    assert(bc == 0);
                }
            }
            assert(pair_count(toks@, bl, br) == bc);
            assert forall|x: u32, y: u32|
                ranked_le(
                    pair_count(toks@, x, y) as int,
                    x,
                    y,
                    pair_count(toks@, bl, br) as int,
                    bl,
                    br,
                ) by {
                if pair_count(toks@, x, y) > 0 {
                    assert(fi@.contains_key(pair_key(x, y)));
                }
            }
            assert(is_best_pair(toks@, bl, br));
            // Both merged tokens occur in the sequence, so they are live ids.
            lemma_pair_count_pos_exists(toks@, bl, br);
            let iw = choose|i: int|
                0 <= i && i + 1 < toks@.len() && #[trigger] toks@[i] == bl && toks@[i + 1] == br;
            assert(toks@[iw] < vocab@.len() && toks@[iw + 1] < vocab@.len());
        }
        let ghost v0 = vocab@;
        let t = vocab.append(bl, br);
        let ghost v1 = vocab@;
        proof {
            lemma_decode_seq_stable(v0, v1, toks@);
        }
        let new_toks = merge(&toks, bl, br, t, &mut fi);
        proof {
            lemma_merge_preserves_decode(v1, toks@, bl, br, t);
            lemma_merge_seq_len(toks@, bl, br, t);
            // One unfolding of `train_result` at the state before this round.
            let w = (bl, br);
            assert(is_best_pair(toks@, w.0, w.1) && pair_count(toks@, w.0, w.1) >= 2);
            assert(has_merge(toks@));
            let p = next_merge_pair(toks@);
            assert(is_best_pair(toks@, p.0, p.1) && pair_count(toks@, p.0, p.1) >= 2);
            lemma_best_unique(toks@, p.0, p.1, bl, br);
            assert(p == (bl, br));
        }
        toks = new_toks;
    }
    (vocab, toks)
}

/// Casts raw bytes to their base tokens.
pub fn tokens_of_bytes(bytes: &Vec<u8>) -> (toks: Vec<u32>)
    ensures
        toks@ == bytes_to_tokens(bytes@),
{
    let n = bytes.len();
    let mut toks: Vec<u32> = Vec::new();
    let mut i: usize = 0;
    while i < n
        invariant
            n == bytes@.len(),
            i <= n,
            toks@ == bytes_to_tokens(bytes@.take(i as int)),
        decreases n - i,
    {
        toks.push(bytes[i] as u32);
        proof {
            assert(toks@ =~= bytes_to_tokens(bytes@.take(i + 1)));
        }
        i += 1;
    }
    proof {
        assert(bytes@.take(n as int) =~= bytes@);
    }
    toks
}

} // verus!
