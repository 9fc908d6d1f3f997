//! The vocabulary: an append-only table of merge rules.  A token id is its
//! index in the table.  Ids below 256 are the seeded leaf entries, one per
//! raw byte value; every later entry merges two strictly smaller ids.

use vstd::prelude::*;

verus! {

/// One vocabulary entry.  A leaf (raw byte) has no right child; a merge
/// entry expands to `left` followed by `right`.
#[derive(Clone, Copy, Debug)]
pub struct MergeRule {
    pub left: u32,
    pub right: Option<u32>,
}

/// The 256 leaf entries every vocabulary starts from.
pub open spec fn base_rules() -> Seq<MergeRule> {
    Seq::new(256, |i: int| MergeRule { left: i as u32, right: None })
}

/// Well-formedness: the first 256 entries are the leaves for the raw byte
/// values, and every later entry points at two strictly smaller ids, so
/// expanding an entry always terminates.
pub open spec fn vocab_wf(v: Seq<MergeRule>) -> bool {
    &&& 256 <= v.len() <= u32::MAX
    &&& forall|i: int| 0 <= i < 256 ==> (#[trigger] v[i]).left == i && v[i].right is None
    &&& forall|i: int|
        256 <= i < v.len() ==> (#[trigger] v[i]).left < i && v[i].right is Some && v[i].right->0
            < i
}

/// Append-only table of merge rules, seeded with the 256 leaves.
pub struct Vocabulary {
    rules: Vec<MergeRule>,
}

impl View for Vocabulary {
    type V = Seq<MergeRule>;

    closed spec fn view(&self) -> Seq<MergeRule> {
        self.rules@
    }
}

impl Vocabulary {
    pub open spec fn wf(&self) -> bool {
        vocab_wf(self@)
    }

    /// A fresh vocabulary holding exactly the 256 leaf entries.
    pub fn new_base() -> (v: Vocabulary)
        ensures
            v.wf(),
            v@ == base_rules(),
    {
        let mut rules: Vec<MergeRule> = Vec::new();
        let mut i: usize = 0;
        while i < 256
            invariant
                i <= 256,
                rules@.len() == i,
                forall|j: int|
                    0 <= j < i ==> (#[trigger] rules@[j]).left == j && rules@[j].right is None,
            decreases 256 - i,
        {
            rules.push(MergeRule { left: i as u32, right: None });
            i += 1;
        }
        let v = Vocabulary { rules };
        proof {
            assert(v@ =~= base_rules());
        }
        v
    }

    /// How many rules the table holds; the next appended rule gets this id.
    pub fn len(&self) -> (n: usize)
        ensures
            n == self@.len(),
    {
        self.rules.len()
    }

    /// The left child of a rule.
    pub fn left(&self, id: u32) -> (l: u32)
        requires
            (id as int) < self@.len(),
        ensures
            l == self@[id as int].left,
    {
        self.rules[id as usize].left
    }

    /// The right child of a rule, if it has one.
    pub fn right(&self, id: u32) -> (r: Option<u32>)
        requires
            (id as int) < self@.len(),
        ensures
            r == self@[id as int].right,
    {
        self.rules[id as usize].right
    }

    /// Whether a rule is a leaf, i.e. stands for a single raw byte.
    pub fn is_leaf(&self, id: u32) -> (b: bool)
        requires
            (id as int) < self@.len(),
        ensures
            b == (self@[id as int].right is None),
    {
        self.rules[id as usize].right.is_none()
    }

    /// Adds a merge rule for an adjacent pair.  The new rule's id is the
    /// table's length before the append; nothing already in the table moves
    /// or changes, so ids are never reused.
    pub fn append(&mut self, left: u32, right: u32) -> (id: u32)
        requires
            old(self).wf(),
            (left as int) < old(self)@.len(),
            (right as int) < old(self)@.len(),
            old(self)@.len() < u32::MAX,
        ensures
            final(self).wf(),
            id == old(self)@.len(),
            final(self)@ == old(self)@.push(MergeRule { left, right: Some(right) }),
    {
        let id = self.rules.len() as u32;
        self.rules.push(MergeRule { left, right: Some(right) });
        id
    }
}

} // verus!
