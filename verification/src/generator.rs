//! The stochastic sampler: walk the frozen vocabulary from a random start
//! token, emitting each visited token's bytes, and step to a random rule
//! whose left child is the current token.  When no rule continues a merge
//! token, fall back to its right child and retry; a leaf with no
//! continuation ends the walk.

use vstd::prelude::*;
use crate::vocab::{MergeRule, Vocabulary, vocab_wf};
use crate::decoder::{spec_decode, decode, lemma_decode_nonempty};

verus! {

/// The emitted segments are exactly the expansions of the walked tokens, in
/// order, and each step of the walk moves to a continuation candidate of the
/// fallback descent from the token just emitted.
pub open spec fn walk_emits(v: Seq<MergeRule>, walk: Seq<u32>, segments: Seq<Vec<u8>>) -> bool {
    &&& walk.len() == segments.len()
    &&& forall|i: int|
        0 <= i < walk.len() ==> ((#[trigger] walk[i]) as int) < v.len() && (segments[i])@
            == spec_decode(v, walk[i] as int)
    &&& forall|i: int|
        0 <= i < walk.len() - 1 ==> spec_candidates(
            v,
            spec_descend(v, #[trigger] walk[i]),
        ).contains(walk[i + 1])
}

/// Extending a walk by one emitted token keeps it a walk: the new segment
/// is the token's expansion and the step into it came from the candidates of
/// the previous token's descent.
proof fn lemma_walk_step(
    v: Seq<MergeRule>,
    w0: Seq<u32>,
    s0: Seq<Vec<u8>>,
    tok: u32,
    piece: Vec<u8>,
)
    requires
        walk_emits(v, w0, s0),
        (tok as int) < v.len(),
        piece@ == spec_decode(v, tok as int),
        w0.len() > 0 ==> spec_candidates(v, spec_descend(v, w0.last())).contains(tok),
    ensures
        walk_emits(v, w0.push(tok), s0.push(piece)),
{
    assert(w0.push(tok).len() == s0.push(piece).len());
    assert forall|i: int|
        0 <= i < w0.push(tok).len() implies ((#[trigger] w0.push(tok)[i]) as int) < v.len() && (
        s0.push(piece)[i])@ == spec_decode(v, w0.push(tok)[i] as int) by {
        if i < w0.len() {
            assert(s0.push(piece)[i] == s0[i]);
            assert(w0.push(tok)[i] == w0[i]);
            assert((s0[i])@ == spec_decode(v, w0[i] as int));
        } else {
            assert(w0.push(tok)[i] == tok && s0.push(piece)[i] == piece);
        }
    }
    assert forall|i: int|
        0 <= i < w0.push(tok).len() - 1 implies spec_candidates(
        v,
        spec_descend(v, #[trigger] w0.push(tok)[i]),
    ).contains(w0.push(tok)[i + 1]) by {
        if i < w0.len() - 1 {
            assert(w0.push(tok)[i] == w0[i] && w0.push(tok)[i + 1] == w0[i + 1]);
            assert(spec_candidates(v, spec_descend(v, w0[i])).contains(w0[i + 1]));
        } else {
            assert(w0.push(tok)[i] == w0.last() && w0.push(tok)[i + 1] == tok);
        }
    }
}

/// The continuation candidates of a token: the right child of every rule
/// whose left child is the token, in rule order.  Leaves contribute nothing.
pub open spec fn spec_candidates(v: Seq<MergeRule>, tok: u32) -> Seq<u32>
    decreases v.len(),
{
    if v.len() == 0 {
        Seq::<u32>::empty()
    } else {
        spec_candidates(v.drop_last(), tok) + (if v.last().left == tok && v.last().right is Some {
            seq![v.last().right->0]
        } else {
            Seq::<u32>::empty()
        })
    }
}

/// A vocabulary of leaves alone offers no continuation to any token.
pub proof fn lemma_leaf_vocab_no_candidates(v: Seq<MergeRule>, tok: u32)
    requires
        forall|j: int| 0 <= j < v.len() ==> (#[trigger] v[j]).right is None,
    ensures
        spec_candidates(v, tok).len() == 0,
    decreases v.len(),
{
    if v.len() > 0 {
        lemma_leaf_vocab_no_candidates(v.drop_last(), tok);
    }
}

/// Collects a token's continuation candidates.
pub fn candidates(vocab: &Vocabulary, tok: u32) -> (cands: Vec<u32>)
    requires
        vocab.wf(),
    ensures
        cands@ == spec_candidates(vocab@, tok),
        forall|j: int| 0 <= j < cands@.len() ==> (#[trigger] cands@[j]) < vocab@.len(),
{
    let ghost v = vocab@;
    let n = vocab.len();
    let mut cands: Vec<u32> = Vec::new();
    let mut i: usize = 0;
    proof {
        assert(v.take(0) =~= Seq::<MergeRule>::empty());
        assert(cands@ =~= spec_candidates(v.take(0), tok));
    }
    while i < n
        invariant
            vocab.wf(),
            v == vocab@,
            n == v.len(),
            i <= n,
            cands@ == spec_candidates(v.take(i as int), tok),
            forall|j: int| 0 <= j < cands@.len() ==> (#[trigger] cands@[j]) < v.len(),
        decreases n - i,
    {
        let ghost c0 = cands@;
        if !vocab.is_leaf(i as u32) && vocab.left(i as u32) == tok {
            match vocab.right(i as u32) {
                Option::Some(rr) => {
                    cands.push(rr);
                },
                Option::None => {
                    proof {
                        assert(false);
                    }
                },
            }
        }
        proof {
            let tk = v.take(i + 1);
            assert(tk.drop_last() =~= v.take(i as int));
            assert(tk.last() == v[i as int]);
            if v[i as int].left == tok && v[i as int].right is Some {
                assert(cands@ =~= spec_candidates(v.take(i as int), tok) + seq![
                    v[i as int].right->0,
                ]);
            } else {
                assert(cands@ =~= spec_candidates(v.take(i as int), tok) + Seq::<u32>::empty());
            }
        }
        i += 1;
    }
    proof {
        assert(v.take(n as int) =~= v);
    }
    cands
}

/// Where the fallback descent from a token ends: the first token on its
/// right-child chain that has candidates or is a leaf.
pub open spec fn spec_descend(v: Seq<MergeRule>, tok: u32) -> u32
    decreases tok,
    when vocab_wf(v) && (tok as int) < v.len()
{
    if spec_candidates(v, tok).len() > 0 || v[tok as int].right is None {
        tok
    } else {
        spec_descend(v, v[tok as int].right->0)
    }
}

/// Follows right children from `start` until a token with candidates or a
/// leaf is reached.  Right children are strictly smaller ids, so the
/// descent always ends.
pub fn descend(vocab: &Vocabulary, start: u32) -> (tok: u32)
    requires
        vocab.wf(),
        (start as int) < vocab@.len(),
    ensures
        tok == spec_descend(vocab@, start),
        (tok as int) < vocab@.len(),
        spec_candidates(vocab@, tok).len() > 0 || vocab@[tok as int].right is None,
{
    let mut tok = start;
    loop
        invariant
            vocab.wf(),
            (tok as int) < vocab@.len(),
            spec_descend(vocab@, tok) == spec_descend(vocab@, start),
        ensures
            tok == spec_descend(vocab@, start),
            (tok as int) < vocab@.len(),
            spec_candidates(vocab@, tok).len() > 0 || vocab@[tok as int].right is None,
        decreases tok,
    {
        let cands = candidates(vocab, tok);
        if cands.len() > 0 {
            break ;
        }
        match vocab.right(tok) {
            Option::None => {
                break ;
            },
            Option::Some(rr) => {
                tok = rr;
            },
        }
    }
    tok
}

/// Relies on `rand::random_range`: a draw from a nonempty range lies in it.
#[verifier::external_body]
fn random_below(n: usize) -> (drawn: usize)
    requires
        n > 0,
    ensures
        drawn < n,
{
    rand::random_range(0..n)
}

/// One random walk over the vocabulary: pick a random start token, then up
/// to 100 times emit the current token's bytes and move to a random
/// continuation, descending along right children when none exists.  The
/// segments are the expansions of such a walk, which ends only at the
/// iteration cap or at a token whose descent offers no continuation; over a
/// leaves-only vocabulary the walk emits exactly one single-byte segment and
/// stops.
pub fn generate(vocab: &Vocabulary) -> (segments: Vec<Vec<u8>>)
    requires
        vocab.wf(),
    ensures
        1 <= segments@.len() <= 100,
        forall|i: int| 0 <= i < segments@.len() ==> (#[trigger] segments@[i])@.len() >= 1,
        exists|walk: Seq<u32>|
            #[trigger] walk_emits(vocab@, walk, segments@) && (walk.len() == 100
                || spec_candidates(vocab@, spec_descend(vocab@, walk.last())).len() == 0),
        vocab@.len() == 256 ==> segments@.len() == 1 && segments@[0]@.len() == 1,
{
    let ghost v = vocab@;
    let mut segments: Vec<Vec<u8>> = Vec::new();
    let ghost mut walk = Seq::<u32>::empty();
    let start = random_below(vocab.len());
    let mut tok: u32 = start as u32;
    while segments.len() < 100
        invariant_except_break
            vocab.wf(),
            v == vocab@,
            (tok as int) < v.len(),
            segments@.len() <= 100,
            walk_emits(v, walk, segments@),
            walk.len() > 0 ==> spec_candidates(v, spec_descend(v, walk.last())).contains(tok),
            forall|i: int| 0 <= i < segments@.len() ==> (#[trigger] segments@[i])@.len() >= 1,
            v.len() == 256 ==> segments@.len() == 0,
        ensures
            1 <= segments@.len() <= 100,
            walk_emits(v, walk, segments@),
            segments@.len() == 100 || spec_candidates(v, spec_descend(v, walk.last())).len()
                == 0,
            forall|i: int| 0 <= i < segments@.len() ==> (#[trigger] segments@[i])@.len() >= 1,
            v.len() == 256 ==> segments@.len() == 1 && segments@[0]@.len() == 1,
        decreases 100 - segments@.len(),
    {
        let piece = decode(vocab, tok);
        proof {
            lemma_decode_nonempty(v, tok as int);
        }
        let ghost s0 = segments@;
        let ghost w0 = walk;
        let ghost pv = piece;
        segments.push(piece);
        proof {
            walk = w0.push(tok);
            lemma_walk_step(v, w0, s0, tok, pv);
            assert(segments@ =~= s0.push(pv));
            assert(walk.last() == tok);
        }
        let down = descend(vocab, tok);
        let cands = candidates(vocab, down);
        if cands.len() == 0 {
            proof {
                assert(spec_candidates(v, spec_descend(v, walk.last())).len() == 0);
                if v.len() == 256 {
                    assert(segments@.len() == 1);
                    assert(v[tok as int].right is None);
                    assert(segments@[0]@ == spec_decode(v, tok as int));
                    assert(spec_decode(v, tok as int) == seq![tok as u8]);
                }
            }
            break ;
        }
        proof {
            if v.len() == 256 {
                lemma_leaf_vocab_no_candidates(v, down);
            }
        }
        let pick = random_below(cands.len());
        proof {
            assert(spec_candidates(v, down)[pick as int] == cands@[pick as int]);
            assert(spec_candidates(v, spec_descend(v, walk.last())).contains(
                cands@[pick as int],
            ));
        }
        tok = cands[pick];
    }
    proof {
        assert(exists|w: Seq<u32>|
            #[trigger] walk_emits(v, w, segments@) && (w.len() == 100 || spec_candidates(
                v,
                spec_descend(v, w.last()),
            ).len() == 0)) by {
            assert(walk_emits(v, walk, segments@) && (walk.len() == 100 || spec_candidates(
                v,
                spec_descend(v, walk.last()),
            ).len() == 0));
        }
    }
    segments
}

} // verus!
