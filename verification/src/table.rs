//! The ordered table of learned merge rules.

use crate::word::{Pair, BYTE_IDS};
use vstd::prelude::*;

verus! {

/// What can be wrong with a request.
#[derive(Clone, Copy, Debug, PartialEq, Eq, Structural)]
pub enum BpeError {
    /// The requested vocabulary is smaller than the 256 byte ids.
    InvalidConfig,
    /// The ids of a table's rules are not 256, 257, 258, ... in this order.
    CorruptMergeTable,
}

/// A learned rule: `pair` is replaced by `new_id`.
#[derive(Clone, Copy, Debug, PartialEq, Eq)]
pub struct MergeRule {
    pub pair: Pair,
    pub new_id: u32,
}

/// The rules in the order in which they were learned.
#[derive(Clone, Debug, PartialEq, Eq)]
pub struct MergeTable {
    pub rules: Vec<MergeRule>,
}

impl View for MergeTable {
    type V = Seq<MergeRule>;

    open spec fn view(&self) -> Seq<MergeRule> {
        self.rules@
    }
}

/// Rule `i` introduces the id `256 + i`.
pub open spec fn well_formed(rules: Seq<MergeRule>) -> bool {
    forall|i: int| 0 <= i < rules.len() ==> (#[trigger] rules[i]).new_id == 256 + i
}

/// The rule that position `index` of a table gives to `pair`.
pub open spec fn rule_at(index: int, pair: Pair) -> MergeRule {
    MergeRule { pair, new_id: (256 + index) as u32 }
}

/// The table that a list of pairs in learned order stands for.
pub open spec fn rules_of(pairs: Seq<Pair>) -> Seq<MergeRule> {
    Seq::new(pairs.len(), |i: int| rule_at(i, pairs[i]))
}

/// In a well-formed table the ids are strictly increasing, hence distinct,
/// and none of them is a byte id.
pub proof fn lemma_ids_increasing(rules: Seq<MergeRule>, i: int, j: int)
    requires
        well_formed(rules),
        0 <= i < j < rules.len(),
    ensures
        256 <= rules[i].new_id < rules[j].new_id,
{
}

impl MergeTable {
    /// The table without rules.
    pub fn new() -> (t: MergeTable)
        ensures
            t@.len() == 0,
            well_formed(t@),
    {
        MergeTable { rules: Vec::new() }
    }

    /// The number of rules.
    pub fn len(&self) -> (n: usize)
        ensures
            n == self@.len(),
    {
        self.rules.len()
    }

    /// The number of distinct token ids: the byte ids and one per rule.
    pub fn vocab_size(&self) -> (n: u64)
        requires
            self@.len() <= u32::MAX,
        ensures
            n == 256 + self@.len(),
    {
        256u64 + self.rules.len() as u64
    }

    /// Whether rule `i` introduces the id `256 + i`, for every `i`.
    pub fn is_well_formed(&self) -> (ok: bool)
        ensures
            ok == well_formed(self@),
    {
        let n: usize = self.rules.len();
        let mut i: usize = 0;
        while i < n
            invariant
                n == self@.len(),
                i <= n,
                forall|k: int| 0 <= k < i ==> (#[trigger] self@[k]).new_id == 256 + k,
            decreases n - i,
        {
            let id: u32 = self.rules[i].new_id;
            if id < BYTE_IDS || (id - BYTE_IDS) as usize != i {
                assert(self@[i as int].new_id != 256 + i);
                return false;
            }
            i += 1;
        }
        true
    }

    /// The pairs of the rules in learned order: all that has to be stored
    /// of a well-formed table.
    pub fn pairs(&self) -> (r: Vec<Pair>)
        ensures
            r@.len() == self@.len(),
            forall|i: int| 0 <= i < r@.len() ==> r@[i] == self@[i].pair,
            well_formed(self@) ==> rules_of(r@) == self@,
    {
        let n: usize = self.rules.len();
        let mut r: Vec<Pair> = Vec::with_capacity(n);
        let mut i: usize = 0;
        while i < n
            invariant
                n == self@.len(),
                i <= n,
                r@.len() == i,
                forall|k: int| 0 <= k < i ==> r@[k] == self@[k].pair,
            decreases n - i,
        {
            r.push(self.rules[i].pair);
            i += 1;
        }
        proof {
            if well_formed(self@) {
                assert forall|k: int| 0 <= k < n implies rules_of(r@)[k] == self@[k] by {
                    assert(self@[k].new_id == 256 + k);
                }
                assert(rules_of(r@) =~= self@);
            }
        }
        r
    }

    /// The table of a list of pairs in learned order: pair `i` gets the id
    /// `256 + i`. There is none where the ids would not fit in 32 bits.
    pub fn from_pairs(pairs: &[Pair]) -> (r: Option<MergeTable>)
        ensures
            r.is_some() <==> pairs@.len() + 255 <= u32::MAX,
            r.is_some() ==> r.unwrap()@ == rules_of(pairs@) && well_formed(r.unwrap()@),
    {
        let n: usize = pairs.len();
        if n > 0xFFFF_FF00 {
            return None;
        }
        let mut rules: Vec<MergeRule> = Vec::with_capacity(n);
        let mut i: usize = 0;
        while i < n
            invariant
                n == pairs@.len(),
                n <= 0xFFFF_FF00,
                i <= n,
                rules@.len() == i,
                forall|k: int| 0 <= k < i ==> rules@[k] == rule_at(k, pairs@[k]),
            decreases n - i,
        {
            rules.push(MergeRule { pair: pairs[i], new_id: BYTE_IDS + i as u32 });
            i += 1;
        }
        proof {
            assert(rules@ =~= rules_of(pairs@));
        }
        Some(MergeTable { rules })
    }
}

} // verus!
