//! Expanding tokens back into bytes over a frozen vocabulary.  The expansion
//! of a token is defined recursively; the executable decoder runs an
//! explicit work stack instead of recursing, so its memory use does not
//! depend on the call stack.

use vstd::prelude::*;
use crate::vocab::{MergeRule, Vocabulary, vocab_wf};
use crate::merger::merge_seq;

verus! {

/// The bytes a token stands for: a leaf is its own byte value; a merge
/// entry expands to its left child's bytes followed by its right child's.
pub open spec fn spec_decode(v: Seq<MergeRule>, id: int) -> Seq<u8>
    decreases id,
    when 0 <= id < v.len() && vocab_wf(v)
{
    match v[id].right {
        Option::Some(rr) => spec_decode(v, v[id].left as int) + spec_decode(v, rr as int),
        Option::None => seq![id as u8],
    }
}

/// The bytes a whole token sequence stands for, in order.
pub open spec fn spec_decode_seq(v: Seq<MergeRule>, s: Seq<u32>) -> Seq<u8>
    decreases s.len(),
{
    if s.len() == 0 {
        Seq::<u8>::empty()
    } else {
        spec_decode(v, s[0] as int) + spec_decode_seq(v, s.skip(1))
    }
}

/// A one-token sequence decodes to that token's bytes.
pub proof fn lemma_decode_seq_one(v: Seq<MergeRule>, x: u32)
    ensures
        spec_decode_seq(v, seq![x]) == spec_decode(v, x as int),
{
    assert(seq![x].skip(1) =~= Seq::<u32>::empty());
    assert(spec_decode_seq(v, Seq::<u32>::empty()) == Seq::<u8>::empty());
    assert(seq![x][0] == x);
    assert(spec_decode(v, x as int) + Seq::<u8>::empty() =~= spec_decode(v, x as int));
}

/// Every token expands to at least one byte.
pub proof fn lemma_decode_nonempty(v: Seq<MergeRule>, id: int)
    requires
        vocab_wf(v),
        0 <= id < v.len(),
    ensures
        spec_decode(v, id).len() >= 1,
    decreases id,
{
    if v[id].right is Some {
        lemma_decode_nonempty(v, v[id].left as int);
    }
}

/// Decoding distributes over concatenation of token sequences.
pub proof fn lemma_decode_seq_concat(v: Seq<MergeRule>, a: Seq<u32>, b: Seq<u32>)
    ensures
        spec_decode_seq(v, a + b) == spec_decode_seq(v, a) + spec_decode_seq(v, b),
    decreases a.len(),
{
    if a.len() == 0 {
        assert(a + b =~= b);
        assert(spec_decode_seq(v, a) + spec_decode_seq(v, b) =~= spec_decode_seq(v, b));
    } else {
        lemma_decode_seq_concat(v, a.skip(1), b);
        assert((a + b).skip(1) =~= a.skip(1) + b);
        assert((a + b)[0] == a[0]);
        assert(spec_decode(v, a[0] as int) + (spec_decode_seq(v, a.skip(1)) + spec_decode_seq(
            v,
            b,
        )) =~= (spec_decode(v, a[0] as int) + spec_decode_seq(v, a.skip(1))) + spec_decode_seq(
            v,
            b,
        ));
    }
}

/// Appending rules to the vocabulary never changes what the old tokens
/// expand to.
pub proof fn lemma_decode_stable(v1: Seq<MergeRule>, v2: Seq<MergeRule>, id: int)
    requires
        vocab_wf(v1),
        vocab_wf(v2),
        v1.len() <= v2.len(),
        forall|j: int| 0 <= j < v1.len() ==> v2[j] == v1[j],
        0 <= id < v1.len(),
    ensures
        spec_decode(v2, id) == spec_decode(v1, id),
    decreases id,
{
    if v1[id].right is Some {
        lemma_decode_stable(v1, v2, v1[id].left as int);
        lemma_decode_stable(v1, v2, v1[id].right->0 as int);
    }
}

/// `lemma_decode_stable`, over a whole token sequence.
pub proof fn lemma_decode_seq_stable(v1: Seq<MergeRule>, v2: Seq<MergeRule>, s: Seq<u32>)
    requires
        vocab_wf(v1),
        vocab_wf(v2),
        v1.len() <= v2.len(),
        forall|j: int| 0 <= j < v1.len() ==> v2[j] == v1[j],
        forall|j: int| 0 <= j < s.len() ==> (#[trigger] s[j]) < v1.len(),
    ensures
        spec_decode_seq(v2, s) == spec_decode_seq(v1, s),
    decreases s.len(),
{
    if s.len() > 0 {
        lemma_decode_stable(v1, v2, s[0] as int);
        lemma_decode_seq_stable(v1, v2, s.skip(1));
    }
}

/// The base tokens of a byte sequence decode to exactly those bytes.
pub proof fn lemma_decode_base(v: Seq<MergeRule>, b: Seq<u8>)
    requires
        vocab_wf(v),
    ensures
        spec_decode_seq(v, b.map_values(|x: u8| x as u32)) == b,
    decreases b.len(),
{
    let s = b.map_values(|x: u8| x as u32);
    if b.len() == 0 {
        assert(spec_decode_seq(v, s) =~= b);
    } else {
        lemma_decode_base(v, b.skip(1));
        assert(s.skip(1) =~= b.skip(1).map_values(|x: u8| x as u32));
        assert(s[0] == b[0] as u32);
        assert(spec_decode(v, s[0] as int) == seq![b[0]]);
        assert(spec_decode(v, s[0] as int) + spec_decode_seq(v, s.skip(1)) =~= b);
    }
}

/// Merging a pair into the token the new rule names leaves the decoded
/// bytes of the sequence unchanged.
pub proof fn lemma_merge_preserves_decode(v: Seq<MergeRule>, s: Seq<u32>, l: u32, r: u32, t: u32)
    requires
        vocab_wf(v),
        (t as int) < v.len(),
        v[t as int].left == l,
        v[t as int].right == Some(r),
        forall|j: int| 0 <= j < s.len() ==> (#[trigger] s[j]) < t,
    ensures
        spec_decode_seq(v, merge_seq(s, l, r, t)) == spec_decode_seq(v, s),
    decreases s.len(),
{
    if s.len() >= 2 && s[0] == l && s[1] == r {
        lemma_merge_preserves_decode(v, s.skip(2), l, r, t);
        lemma_decode_seq_concat(v, seq![t], merge_seq(s.skip(2), l, r, t));
        lemma_decode_seq_one(v, t);
        assert(s.skip(1) =~= seq![r] + s.skip(2));
        lemma_decode_seq_concat(v, seq![r], s.skip(2));
        lemma_decode_seq_one(v, r);
        assert(spec_decode(v, t as int) == spec_decode(v, l as int) + spec_decode(v, r as int));
        assert(spec_decode(v, l as int) + (spec_decode(v, r as int) + spec_decode_seq(
            v,
            s.skip(2),
        )) =~= (spec_decode(v, l as int) + spec_decode(v, r as int)) + spec_decode_seq(
            v,
            s.skip(2),
        ));
    } else if s.len() >= 1 {
        lemma_merge_preserves_decode(v, s.skip(1), l, r, t);
        lemma_decode_seq_concat(v, seq![s[0]], merge_seq(s.skip(1), l, r, t));
        lemma_decode_seq_one(v, s[0]);
        assert(merge_seq(s, l, r, t) == seq![s[0]] + merge_seq(s.skip(1), l, r, t));
    } else {
        assert(merge_seq(s, l, r, t) =~= s);
    }
}

/// The bytes still on the stack, nearest to emission first (the stack's top
/// is its last element).
pub open spec fn stack_decode(v: Seq<MergeRule>, st: Seq<u32>) -> Seq<u8>
    decreases st.len(),
{
    if st.len() == 0 {
        Seq::<u8>::empty()
    } else {
        spec_decode(v, st.last() as int) + stack_decode(v, st.drop_last())
    }
}

/// The number of rule expansions a token still costs; the decoder's loop
/// measure.
pub open spec fn decode_size(v: Seq<MergeRule>, id: int) -> nat
    decreases id,
    when 0 <= id < v.len() && vocab_wf(v)
{
    match v[id].right {
        Option::Some(rr) => 1 + decode_size(v, v[id].left as int) + decode_size(v, rr as int),
        Option::None => 1,
    }
}

/// Pushing a token puts its bytes and its cost in front of the stack's.
pub proof fn lemma_stack_push(v: Seq<MergeRule>, st: Seq<u32>, x: u32)
    ensures
        stack_decode(v, st.push(x)) == spec_decode(v, x as int) + stack_decode(v, st),
        stack_size(v, st.push(x)) == decode_size(v, x as int) + stack_size(v, st),
{
    assert(st.push(x).last() == x);
    assert(st.push(x).drop_last() =~= st);
}

/// The loop measure over a whole stack.
pub open spec fn stack_size(v: Seq<MergeRule>, st: Seq<u32>) -> nat
    decreases st.len(),
{
    if st.len() == 0 {
        0
    } else {
        decode_size(v, st.last() as int) + stack_size(v, st.drop_last())
    }
}

/// Expands one token into the bytes it stands for, with an explicit work
/// stack in place of recursion: pop a token; a leaf emits its byte, a merge
/// entry pushes its right child and then its left, so the left side is
/// expanded first.
pub fn decode(vocab: &Vocabulary, id: u32) -> (bytes: Vec<u8>)
    requires
        vocab.wf(),
        (id as int) < vocab@.len(),
    ensures
        bytes@ == spec_decode(vocab@, id as int),
{
    let ghost v = vocab@;
    let mut stack: Vec<u32> = Vec::new();
    let mut bytes: Vec<u8> = Vec::new();
    stack.push(id);
    proof {
        assert(stack@.drop_last() =~= Seq::<u32>::empty());
        assert(stack@.last() == id);
        assert(stack_decode(v, Seq::<u32>::empty()) == Seq::<u8>::empty());
        assert(spec_decode(v, id as int) + Seq::<u8>::empty() =~= spec_decode(v, id as int));
        assert(bytes@ + stack_decode(v, stack@) =~= spec_decode(v, id as int));
    }
    while stack.len() > 0
        invariant
            vocab.wf(),
            v == vocab@,
            forall|j: int| 0 <= j < stack@.len() ==> (#[trigger] stack@[j]) < v.len(),
            bytes@ + stack_decode(v, stack@) == spec_decode(v, id as int),
        decreases stack_size(v, stack@),
    {
        let ghost st0 = stack@;
        let cur = stack[stack.len() - 1];
        stack.pop();
        proof {
            assert(stack@ =~= st0.drop_last());
            assert(st0.last() == cur);
        }
        match vocab.right(cur) {
            Option::None => {
                bytes.push(cur as u8);
                proof {
                    assert(spec_decode(v, cur as int) =~= seq![cur as u8]);
                    assert(bytes@ + stack_decode(v, stack@) =~= (bytes@.drop_last() + (seq![
                        cur as u8,
                    ] + stack_decode(v, stack@))));
                }
            },
            Option::Some(rr) => {
                let lf = vocab.left(cur);
                stack.push(rr);
                stack.push(lf);
                proof {
                    let st1 = st0.drop_last().push(rr);
                    let st2 = st1.push(lf);
                    assert(stack@ =~= st2);
                    lemma_stack_push(v, st0.drop_last(), rr);
                    lemma_stack_push(v, st1, lf);
                    assert(spec_decode(v, lf as int) + (spec_decode(v, rr as int) + stack_decode(
                        v,
                        st0.drop_last(),
                    )) =~= (spec_decode(v, lf as int) + spec_decode(v, rr as int)) + stack_decode(
                        v,
                        st0.drop_last(),
                    ));
                }
            },
        }
    }
    proof {
        assert(bytes@ + stack_decode(v, stack@) =~= bytes@);
    }
    bytes
}

/// Expands a whole token sequence, concatenating the per-token expansions
/// in order.
pub fn decode_sequence(vocab: &Vocabulary, tokens: &Vec<u32>) -> (bytes: Vec<u8>)
    requires
        vocab.wf(),
        forall|j: int| 0 <= j < tokens@.len() ==> (#[trigger] tokens@[j]) < vocab@.len(),
    ensures
        bytes@ == spec_decode_seq(vocab@, tokens@),
{
    let ghost v = vocab@;
    let n = tokens.len();
    let mut bytes: Vec<u8> = Vec::new();
    let mut i: usize = 0;
    proof {
        assert(tokens@.take(0) =~= Seq::<u32>::empty());
        assert(bytes@ =~= spec_decode_seq(v, tokens@.take(0)));
    }
    while i < n
        invariant
            vocab.wf(),
            v == vocab@,
            n == tokens@.len(),
            i <= n,
            forall|j: int| 0 <= j < tokens@.len() ==> (#[trigger] tokens@[j]) < v.len(),
            bytes@ == spec_decode_seq(v, tokens@.take(i as int)),
        decreases n - i,
    {
        let mut piece = decode(vocab, tokens[i]);
        let ghost b0 = bytes@;
        bytes.append(&mut piece);
        proof {
            lemma_decode_seq_concat(v, tokens@.take(i as int), seq![tokens@[i as int]]);
            assert(tokens@.take(i + 1) =~= tokens@.take(i as int) + seq![tokens@[i as int]]);
            lemma_decode_seq_one(v, tokens@[i as int]);
            assert(bytes@ =~= b0 + spec_decode(v, tokens@[i as int] as int));
        }
        i += 1;
    }
    proof {
        assert(tokens@.take(n as int) =~= tokens@);
    }
    bytes
}

} // verus!
