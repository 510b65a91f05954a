//! Choice of the pair to merge next: the highest frequency, and among equal
//! frequencies the smallest pair.

use crate::counts::{counts_entries, listed, pair_counts};
use crate::word::Pair;
use ahash::AHashMap;
use vstd::prelude::*;

verus! {

/// The order of pairs: by the left id, then by the right id.
pub open spec fn pair_le(p: Pair, q: Pair) -> bool {
    p.0 < q.0 || (p.0 == q.0 && p.1 <= q.1)
}

/// An entry with pair `p` and frequency `f` is preferred to, or the same as,
/// one with pair `q` and frequency `g`.
pub open spec fn preferred(p: Pair, f: i32, q: Pair, g: i32) -> bool {
    g < f || (g == f && pair_le(p, q))
}

/// `p` is the pair that the frequency map `m` selects.
pub open spec fn is_best(m: Map<Pair, i32>, p: Pair) -> bool {
    m.contains_key(p) && forall|q: Pair| m.contains_key(q) ==> preferred(p, m[p], q, #[trigger] m[q])
}

/// The selected pair of a frequency map; none where the map is empty.
pub open spec fn best_pair(m: Map<Pair, i32>) -> Option<Pair> {
    if exists|p: Pair| is_best(m, p) {
        Some(choose|p: Pair| is_best(m, p))
    } else {
        None
    }
}

/// A frequency map selects at most one pair.
pub proof fn lemma_best_unique(m: Map<Pair, i32>, p: Pair, q: Pair)
    requires
        is_best(m, p),
        is_best(m, q),
    ensures
        p == q,
{
    assert(preferred(p, m[p], q, m[q]));
    assert(preferred(q, m[q], p, m[p]));
}

/// The selected pair is the one that is preferred to every other key.
pub proof fn lemma_best_pair_is_best(m: Map<Pair, i32>, p: Pair)
    ensures
        best_pair(m) == Some(p) <==> is_best(m, p),
        best_pair(m).is_none() <==> forall|q: Pair| !is_best(m, q),
{
    if is_best(m, p) {
        lemma_best_unique(m, p, choose|x: Pair| is_best(m, x));
    }
}

/// The preferred entry of a list: none for an empty list, else the index of
/// the entry that is preferred to every other.
pub fn best_entry(entries: &Vec<(Pair, i32)>) -> (r: Option<usize>)
    ensures
        r.is_none() <==> entries@.len() == 0,
        match r {
            Some(b) => b < entries@.len() && forall|j: int|
                0 <= j < entries@.len() ==> preferred(
                    entries@[b as int].0,
                    entries@[b as int].1,
                    #[trigger] entries@[j].0,
                    entries@[j].1,
                ),
            None => true,
        },
{
    let n: usize = entries.len();
    if n == 0 {
        return None;
    }
    let mut b: usize = 0;
    let mut i: usize = 1;
    while i < n
        invariant
            n == entries@.len(),
            1 <= i <= n,
            b < i,
            forall|j: int|
                0 <= j < i ==> preferred(
                    entries@[b as int].0,
                    entries@[b as int].1,
                    #[trigger] entries@[j].0,
                    entries@[j].1,
                ),
        decreases n - i,
    {
        let (p, f) = entries[i];
        let (q, g) = entries[b];
        if f > g || (f == g && (p.0 < q.0 || (p.0 == q.0 && p.1 <= q.1))) {
            b = i;
        }
        i += 1;
    }
    Some(b)
}

/// Selects the pair to merge: a pure function of the frequency map, whatever
/// the order in which the map hands out its entries.
pub fn select_pair(m: &AHashMap<Pair, i32>) -> (r: Option<Pair>)
    ensures
        r == best_pair(pair_counts(*m)),
        r.is_none() <==> pair_counts(*m).dom() =~= Set::<Pair>::empty(),
{
    let entries = counts_entries(m);
    let ghost map = pair_counts(*m);
    match best_entry(&entries) {
        None => {
            proof {
                assert forall|p: Pair| !map.contains_key(p) by {
                    if map.contains_key(p) {
                        assert(listed(entries@, entries@.len() as int, p));
                    }
                }
            }
            None
        },
        Some(b) => {
            let p: Pair = entries[b].0;
            proof {
                assert(map.contains_pair(entries@[b as int].0, entries@[b as int].1));
                assert forall|q: Pair| map.contains_key(q) implies preferred(p, map[p], q, #[trigger] map[q]) by {
                    assert(listed(entries@, entries@.len() as int, q));
                    let j = choose|j: int|
                        0 <= j < entries@.len() && j < entries@.len() && #[trigger] entries@[j].0 == q;
                    assert(map.contains_pair(entries@[j].0, entries@[j].1));
                }
                assert(is_best(map, p));
                lemma_best_unique(map, p, choose|x: Pair| is_best(map, x));
            }
            Some(p)
        },
    }
}

} // verus!
