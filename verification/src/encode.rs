//! Tokenizing bytes with a finished merge table.

use crate::table::{well_formed, BpeError, MergeRule, MergeTable};
use crate::word::{byte_ids, lemma_merged_len, merge_ids, merged, Word};
use vstd::prelude::*;

verus! {

/// The ids after the rules were applied in table order, each by one greedy
/// pass that substitutes the rule's own id.
pub open spec fn encoded(ids: Seq<u32>, rules: Seq<MergeRule>) -> Seq<u32>
    decreases rules.len(),
{
    if rules.len() == 0 {
        ids
    } else {
        merged(encoded(ids, rules.drop_last()), rules.last().pair, rules.last().new_id)
    }
}

/// Applying rules never lengthens a sequence of ids.
pub proof fn lemma_encoded_len(ids: Seq<u32>, rules: Seq<MergeRule>)
    ensures
        encoded(ids, rules).len() <= ids.len(),
    decreases rules.len(),
{
    if rules.len() > 0 {
        lemma_encoded_len(ids, rules.drop_last());
        lemma_merged_len(encoded(ids, rules.drop_last()), rules.last().pair, rules.last().new_id);
    }
}

/// Applies the rules of `table` to `ids`, in table order.
pub fn apply_rules(ids: Vec<u32>, table: &MergeTable) -> (out: Vec<u32>)
    ensures
        out@ == encoded(ids@, table@),
        out@.len() <= ids@.len(),
{
    let ghost start = ids@;
    let mut tokens = ids;
    let n: usize = table.rules.len();
    let mut k: usize = 0;
    proof {
        assert(table@.subrange(0, 0) =~= Seq::<MergeRule>::empty());
    }
    while k < n
        invariant
            n == table@.len(),
            k <= n,
            tokens@ == encoded(start, table@.subrange(0, k as int)),
        decreases n - k,
    {
        let rule = table.rules[k];
        tokens = merge_ids(&tokens, rule.pair, rule.new_id);
        proof {
            assert(table@.subrange(0, k + 1).drop_last() =~= table@.subrange(0, k as int));
        }
        k += 1;
    }
    proof {
        assert(table@.subrange(0, n as int) =~= table@);
        lemma_encoded_len(start, table@);
    }
    tokens
}

/// The token ids of `text` under `table`. A table whose rule ids are not
/// 256, 257, ... in order is refused.
pub fn encode(text: &[u8], table: &MergeTable) -> (r: Result<Vec<u32>, BpeError>)
    ensures
        match r {
            Ok(tokens) => well_formed(table@) && tokens@ == encoded(byte_ids(text@), table@)
                && tokens@.len() <= text@.len(),
            Err(e) => !well_formed(table@) && e == BpeError::CorruptMergeTable,
        },
{
    if !table.is_well_formed() {
        return Err(BpeError::CorruptMergeTable);
    }
    let word = Word::from_bytes(text);
    Ok(apply_rules(word.ids, table))
}

} // verus!
