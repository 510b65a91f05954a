//! Weighted frequencies of adjacent pairs over a corpus, held in hash maps
//! and combined by an exact, order-independent reduction.
//!
//! Frequencies are 32-bit two's-complement numbers: every sum is taken
//! modulo 2^32, so that any order and grouping of the additions gives the
//! same map.

use crate::word::{occurs, occurs_at, Pair, Word};
use ahash::AHashMap;
use rayon::iter::{IndexedParallelIterator, IntoParallelRefIterator, ParallelIterator};
use vstd::prelude::*;

verus! {

/// The 32-bit two's-complement number that is congruent to `x` modulo 2^32.
pub open spec fn wrap32(x: int) -> i32 {
    ((x + 0x8000_0000) % 0x1_0000_0000 - 0x8000_0000) as i32
}

/// The weight that one word contributes to `pair`: `count` for each position
/// at which the pair stands (overlapping positions included).
pub open spec fn word_total(w: Seq<u32>, count: i32, pair: Pair) -> int
    decreases w.len(),
{
    if w.len() < 2 {
        0
    } else {
        word_total(w.drop_last(), count, pair) + if occurs_at(w, pair, w.len() - 2) {
            count as int
        } else {
            0
        }
    }
}

/// The weight of `pair` over the whole corpus, as an unbounded integer.
pub open spec fn total(words: Seq<Seq<u32>>, counts: Seq<i32>, pair: Pair) -> int
    recommends
        words.len() == counts.len(),
    decreases words.len(),
{
    if words.len() == 0 {
        0
    } else {
        total(words.drop_last(), counts.drop_last(), pair) + word_total(
            words.last(),
            counts[words.len() - 1],
            pair,
        )
    }
}

/// `pair` stands in some word whose count is not zero.
pub open spec fn counted(words: Seq<Seq<u32>>, counts: Seq<i32>, pair: Pair) -> bool {
    exists|i: int| counted_at(words, counts, pair, i)
}

/// `pair` stands in word `i`, whose count is not zero.
pub open spec fn counted_at(words: Seq<Seq<u32>>, counts: Seq<i32>, pair: Pair, i: int) -> bool {
    0 <= i < words.len() && counts[i] != 0 && occurs(words[i], pair)
}

/// The frequency map of one word.
pub open spec fn word_count_map(w: Seq<u32>, count: i32) -> Map<Pair, i32> {
    Map::new(|p: Pair| count != 0 && occurs(w, p), |p: Pair| wrap32(word_total(w, count, p)))
}

/// The frequency map of a corpus: its keys are the pairs that stand in a word
/// with a count other than zero, and each value is the pair's weight.
pub open spec fn count_map(words: Seq<Seq<u32>>, counts: Seq<i32>) -> Map<Pair, i32> {
    Map::new(|p: Pair| counted(words, counts, p), |p: Pair| wrap32(total(words, counts, p)))
}

/// The value of `m` at `p`, and zero where `m` has no such key.
pub open spec fn value_or_zero(m: Map<Pair, i32>, p: Pair) -> i32 {
    if m.contains_key(p) {
        m[p]
    } else {
        0
    }
}

/// The elementwise sum of two frequency maps.
pub open spec fn merged_counts(a: Map<Pair, i32>, b: Map<Pair, i32>) -> Map<Pair, i32> {
    Map::new(
        |p: Pair| a.contains_key(p) || b.contains_key(p),
        |p: Pair| wrap32(value_or_zero(a, p) + value_or_zero(b, p)),
    )
}

/// The views of a sequence of words.
pub open spec fn word_views(words: Seq<Word>) -> Seq<Seq<u32>> {
    Seq::new(words.len(), |i: int| words[i]@)
}

/// The counts with every entry outside `part` set to zero: the share of the
/// corpus that falls to one side of a partition of the word indices.
pub open spec fn part_counts(counts: Seq<i32>, part: Set<int>) -> Seq<i32> {
    Seq::new(counts.len(), |i: int| if part.contains(i) { counts[i] } else { 0i32 })
}

/// Wrapping respects addition.
pub proof fn lemma_wrap32_add(a: int, b: int)
    ensures
        wrap32(wrap32(a) + wrap32(b)) == wrap32(a + b),
        wrap32(wrap32(a) + b) == wrap32(a + b),
        i32::MIN <= a <= i32::MAX ==> wrap32(a) == a,
{
    let r: int = 0x1_0000_0000;
    let h: int = 0x8000_0000;
    let qa = (a + h) / r;
    let qb = (b + h) / r;
    assert(a + h == r * qa + (a + h) % r) by {
        vstd::arithmetic::div_mod::lemma_fundamental_div_mod(a + h, r);
    }
    assert(b + h == r * qb + (b + h) % r) by {
        vstd::arithmetic::div_mod::lemma_fundamental_div_mod(b + h, r);
    }
    let wa = wrap32(a) as int;
    let wb = wrap32(b) as int;
    assert(wa == a - r * qa);
    assert(wb == b - r * qb);
    assert((wa + wb + h) % r == (a + b + h) % r) by {
        vstd::arithmetic::div_mod::lemma_mod_multiples_vanish(-(qa + qb), a + b + h, r);
        assert(r * (-(qa + qb)) + (a + b + h) == wa + wb + h) by (nonlinear_arith)
            requires
                wa == a - r * qa,
                wb == b - r * qb,
        ;
    }
    assert((wa + b + h) % r == (a + b + h) % r) by {
        vstd::arithmetic::div_mod::lemma_mod_multiples_vanish(-qa, a + b + h, r);
        assert(r * (-qa) + (a + b + h) == wa + b + h) by (nonlinear_arith)
            requires
                wa == a - r * qa,
        ;
    }
}

/// A word in which the pair does not stand, or whose count is zero, adds
/// nothing to the pair's weight.
pub proof fn lemma_word_total_zero(w: Seq<u32>, count: i32, pair: Pair)
    requires
        count == 0 || !occurs(w, pair),
    ensures
        word_total(w, count, pair) == 0,
    decreases w.len(),
{
    if w.len() >= 2 {
        let front = w.drop_last();
        if count != 0 {
            assert(!occurs_at(w, pair, w.len() - 2));
            assert forall|i: int| !occurs_at(front, pair, i) by {
                if occurs_at(front, pair, i) {
                    assert(occurs_at(w, pair, i));
                }
            }
        }
        lemma_word_total_zero(front, count, pair);
    }
}

/// A pair that is not counted anywhere in the corpus has weight zero.
pub proof fn lemma_total_zero(words: Seq<Seq<u32>>, counts: Seq<i32>, pair: Pair)
    requires
        words.len() == counts.len(),
        !counted(words, counts, pair),
    ensures
        total(words, counts, pair) == 0,
    decreases words.len(),
{
    if words.len() > 0 {
        let n = words.len() - 1;
        assert(!counted_at(words, counts, pair, n));
        lemma_word_total_zero(words.last(), counts[n], pair);
        assert forall|i: int| !counted_at(words.drop_last(), counts.drop_last(), pair, i) by {
            if counted_at(words.drop_last(), counts.drop_last(), pair, i) {
                assert(counted_at(words, counts, pair, i));
            }
        }
        lemma_total_zero(words.drop_last(), counts.drop_last(), pair);
    }
}

/// Counting one more word is merging its own map into the corpus's map.
pub proof fn lemma_count_map_push(words: Seq<Seq<u32>>, counts: Seq<i32>, w: Seq<u32>, count: i32)
    requires
        words.len() == counts.len(),
    ensures
        count_map(words.push(w), counts.push(count)) == merged_counts(
            count_map(words, counts),
            word_count_map(w, count),
        ),
{
    let ws = words.push(w);
    let cs = counts.push(count);
    let lhs = count_map(ws, cs);
    let rhs = merged_counts(count_map(words, counts), word_count_map(w, count));
    assert(ws.drop_last() =~= words);
    assert(cs.drop_last() =~= counts);
    assert forall|p: Pair| #[trigger] lhs.contains_key(p) == rhs.contains_key(p) by {
        if counted(ws, cs, p) {
            let i = choose|i: int| counted_at(ws, cs, p, i);
            if i < words.len() {
                assert(counted_at(words, counts, p, i));
            }
        }
        if counted(words, counts, p) {
            let i = choose|i: int| counted_at(words, counts, p, i);
            assert(counted_at(ws, cs, p, i));
        }
        if count != 0 && occurs(w, p) {
            assert(counted_at(ws, cs, p, words.len() as int));
        }
    }
    assert forall|p: Pair| lhs.contains_key(p) implies #[trigger] lhs[p] == rhs[p] by {
        if !counted(words, counts, p) {
            lemma_total_zero(words, counts, p);
        }
        if !(count != 0 && occurs(w, p)) {
            lemma_word_total_zero(w, count, p);
        }
        lemma_wrap32_add(total(words, counts, p), word_total(w, count, p));
        lemma_wrap32_add(0, 0);
    }
    assert(lhs =~= rhs);
}


#[verifier::external_type_specification]
#[verifier::external_body]
pub struct ExRandomState(ahash::RandomState);

#[verifier::external_type_specification]
#[verifier::external_body]
#[verifier::reject_recursive_types(K)]
#[verifier::reject_recursive_types(V)]
#[verifier::reject_recursive_types(S)]
pub struct ExAHashMap<K, V, S>(AHashMap<K, V, S>);

/// What a frequency map holds: its keys with their values.
pub uninterp spec fn pair_counts(m: AHashMap<(u32, u32), i32>) -> Map<(u32, u32), i32>;

/// `AHashMap::new`: a map that holds nothing.
#[verifier::external_body]
fn counts_new() -> (r: AHashMap<Pair, i32>)
    ensures
        forall|p: Pair| !pair_counts(r).contains_key(p),
{
    AHashMap::new()
}

/// `AHashMap::get`: the value stored under `p`, if the map has that key.
#[verifier::external_body]
fn counts_get(m: &AHashMap<Pair, i32>, p: Pair) -> (r: Option<i32>)
    ensures
        r == (if pair_counts(*m).contains_key(p) {
            Some(pair_counts(*m)[p])
        } else {
            None::<i32>
        }),
{
    m.get(&p).copied()
}

/// `AHashMap::insert`: afterwards `p` maps to `v` and every other key is as
/// it was.
#[verifier::external_body]
fn counts_insert(m: &mut AHashMap<Pair, i32>, p: Pair, v: i32)
    ensures
        pair_counts(*final(m)) == pair_counts(*old(m)).insert(p, v),
{
    m.insert(p, v);
}

/// `HashMap::iter`, which an `AHashMap` offers through `Deref`: every entry
/// of the map exactly once, in an order that is left open.
#[verifier::external_body]
pub(crate) fn counts_entries(m: &AHashMap<Pair, i32>) -> (r: Vec<(Pair, i32)>)
    ensures
        forall|i: int| 0 <= i < r@.len() ==> pair_counts(*m).contains_pair(r@[i].0, r@[i].1),
        forall|p: Pair| pair_counts(*m).contains_key(p) ==> listed(r@, r@.len() as int, p),
        forall|i: int, j: int| 0 <= i < j < r@.len() ==> r@[i].0 != r@[j].0,
{
    m.iter().map(|(k, v)| (*k, *v)).collect()
}

/// rayon's `par_iter`, `zip`, `map` and `collect`: the frequency map of each
/// word, computed in parallel and handed back in the order of the words.
#[verifier::external_body]
fn par_local_counts(words: &[Word], counts: &[i32]) -> (r: Vec<AHashMap<Pair, i32>>)
    requires
        words@.len() == counts@.len(),
    ensures
        r@.len() == words@.len(),
        forall|i: int| 0 <= i < r@.len() ==> pair_counts(r@[i]) == word_count_map(words@[i]@, counts@[i]),
{
    words.par_iter().zip(counts.par_iter()).map(|(w, c)| local_counts(w, *c)).collect()
}

/// `p` is the key of one of the first `k` entries.
pub open spec fn listed(entries: Seq<(Pair, i32)>, k: int, p: Pair) -> bool {
    exists|j: int| 0 <= j < k && j < entries.len() && #[trigger] entries[j].0 == p
}

/// Adds `v` to the frequency of `p`, which starts at zero where the map does
/// not have the key yet.
pub fn add_count(m: &mut AHashMap<Pair, i32>, p: Pair, v: i32)
    ensures
        pair_counts(*final(m)) == pair_counts(*old(m)).insert(
            p,
            wrap32(value_or_zero(pair_counts(*old(m)), p) + v),
        ),
{
    let cur: i32 = match counts_get(m, p) {
        Some(c) => c,
        None => 0,
    };
    counts_insert(m, p, cur.wrapping_add(v));
}

/// The frequency map of one word with its count.
pub fn local_counts(w: &Word, count: i32) -> (m: AHashMap<Pair, i32>)
    ensures
        pair_counts(m) == word_count_map(w@, count),
{
    let mut m = counts_new();
    let n: usize = w.ids.len();
    if n < 2 || count == 0 {
        proof {
            assert forall|p: Pair| !(count != 0 && occurs(w@, p)) by {
                if count != 0 && occurs(w@, p) {
                    let i = choose|i: int| occurs_at(w@, p, i);
                    assert(occurs_at(w@, p, i));
                }
            }
            assert(pair_counts(m) =~= word_count_map(w@, count));
        }
        return m;
    }
    let ps = w.pairs();
    let mut i: usize = 0;
    proof {
        assert forall|p: Pair| !occurs(w@.subrange(0, 1), p) by {
            if occurs(w@.subrange(0, 1), p) {
                let k = choose|k: int| occurs_at(w@.subrange(0, 1), p, k);
                assert(occurs_at(w@.subrange(0, 1), p, k));
            }
        }
        assert(pair_counts(m) =~= word_count_map(w@.subrange(0, 1), count));
    }
    while i + 1 < n
        invariant
            n == w@.len(),
            n >= 2,
            count != 0,
            i + 1 <= n,
            ps@.len() == n - 1,
            forall|k: int| 0 <= k < ps@.len() ==> ps@[k] == (w@[k], w@[k + 1]),
            pair_counts(m) == word_count_map(w@.subrange(0, i + 1), count),
        decreases n - i,
    {
        let p: Pair = ps[i];
        add_count(&mut m, p, count);
        proof {
            let short = w@.subrange(0, i + 1);
            let long = w@.subrange(0, i + 2);
            assert(long.drop_last() =~= short);
            assert(occurs_at(long, p, i as int));
            let after = word_count_map(long, count);
            assert forall|q: Pair| #[trigger] pair_counts(m).contains_key(q) == after.contains_key(q) by {
                if occurs(long, q) {
                    let k = choose|k: int| occurs_at(long, q, k);
                    if k < i {
                        assert(occurs_at(short, q, k));
                    }
                }
                if occurs(short, q) {
                    let k = choose|k: int| occurs_at(short, q, k);
                    assert(occurs_at(long, q, k));
                }
            }
            assert forall|q: Pair| pair_counts(m).contains_key(q) implies #[trigger] pair_counts(m)[q]
                == after[q] by {
                if q == p {
                    if !occurs(short, p) {
                        lemma_word_total_zero(short, count, p);
                    }
                    lemma_wrap32_add(word_total(short, count, p), count as int);
                    lemma_wrap32_add(0, count as int);
                } else {
                    assert(!occurs_at(long, q, long.len() - 2));
                }
            }
            assert(pair_counts(m) =~= after);
        }
        i += 1;
    }
    proof {
        assert(w@.subrange(0, n as int) =~= w@);
    }
    m
}

/// Merges the frequency map `part` into `acc` by elementwise summation; the
/// order in which the entries of `part` are visited does not show in the
/// result.
pub fn merge_counts(acc: AHashMap<Pair, i32>, part: &AHashMap<Pair, i32>) -> (r: AHashMap<Pair, i32>)
    ensures
        pair_counts(r) == merged_counts(pair_counts(acc), pair_counts(*part)),
{
    let ghost a = pair_counts(acc);
    let ghost b = pair_counts(*part);
    let mut acc = acc;
    let entries = counts_entries(part);
    let n: usize = entries.len();
    let mut k: usize = 0;
    while k < n
        invariant
            n == entries@.len(),
            k <= n,
            forall|i: int| 0 <= i < entries@.len() ==> b.contains_pair(entries@[i].0, entries@[i].1),
            forall|p: Pair| b.contains_key(p) ==> listed(entries@, entries@.len() as int, p),
            forall|i: int, j: int| 0 <= i < j < entries@.len() ==> entries@[i].0 != entries@[j].0,
            forall|p: Pair| #[trigger]
                pair_counts(acc).contains_key(p) == (a.contains_key(p) || listed(entries@, k as int, p)),
            forall|p: Pair|
                pair_counts(acc).contains_key(p) ==> #[trigger] pair_counts(acc)[p] == (if listed(
                    entries@,
                    k as int,
                    p,
                ) {
                    wrap32(value_or_zero(a, p) + b[p])
                } else {
                    a[p]
                }),
        decreases n - k,
    {
        let (p, v) = entries[k];
        proof {
            assert(b.contains_pair(entries@[k as int].0, entries@[k as int].1));
            if listed(entries@, k as int, p) {
                let j = choose|j: int| 0 <= j < k && j < entries@.len() && #[trigger] entries@[j].0 == p;
                assert(entries@[j].0 != entries@[k as int].0);
            }
        }
        add_count(&mut acc, p, v);
        proof {
            assert(entries@[k as int].0 == p);
            assert(listed(entries@, k + 1, p));
            assert forall|q: Pair| listed(entries@, k + 1, q) == (q == p || listed(entries@, k as int, q)) by {
                if listed(entries@, k + 1, q) {
                    let j = choose|j: int| 0 <= j < k + 1 && j < entries@.len() && #[trigger] entries@[j].0 == q;
                    if j < k {
                        assert(listed(entries@, k as int, q));
                    }
                }
                if listed(entries@, k as int, q) {
                    let j = choose|j: int| 0 <= j < k && j < entries@.len() && #[trigger] entries@[j].0 == q;
                    assert(entries@[j].0 == q);
                }
            }
        }
        k += 1;
    }
    proof {
        assert forall|p: Pair| listed(entries@, n as int, p) == b.contains_key(p) by {
            if listed(entries@, n as int, p) {
                let j = choose|j: int| 0 <= j < n && j < entries@.len() && #[trigger] entries@[j].0 == p;
                assert(b.contains_pair(entries@[j].0, entries@[j].1));
            }
        }
        assert(pair_counts(acc) =~= merged_counts(a, b));
    }
    acc
}


/// The frequency map of the corpus, with the per-word maps computed in
/// parallel and then merged in the order of the words.
pub fn count_pairs_parallel(words: &[Word], counts: &[i32]) -> (r: AHashMap<Pair, i32>)
    requires
        words@.len() == counts@.len(),
    ensures
        pair_counts(r) == count_map(word_views(words@), counts@),
{
    let locals = par_local_counts(words, counts);
    let mut acc = counts_new();
    let ghost views = word_views(words@);
    let mut i: usize = 0;
    proof {
        lemma_count_map_empty();
        assert(views.subrange(0, 0) =~= Seq::<Seq<u32>>::empty());
        assert(counts@.subrange(0, 0) =~= Seq::<i32>::empty());
        assert(pair_counts(acc) =~= Map::<Pair, i32>::empty());
    }
    while i < locals.len()
        invariant
            views == word_views(words@),
            locals@.len() == words@.len(),
            words@.len() == counts@.len(),
            i <= locals@.len(),
            forall|j: int|
                0 <= j < locals@.len() ==> pair_counts(locals@[j]) == word_count_map(
                    words@[j]@,
                    counts@[j],
                ),
            pair_counts(acc) == count_map(views.subrange(0, i as int), counts@.subrange(0, i as int)),
        decreases locals@.len() - i,
    {
        acc = merge_counts(acc, &locals[i]);
        proof {
            lemma_count_map_push(
                views.subrange(0, i as int),
                counts@.subrange(0, i as int),
                words@[i as int]@,
                counts@[i as int],
            );
            assert(views.subrange(0, i as int).push(words@[i as int]@) =~= views.subrange(0, i + 1));
            assert(counts@.subrange(0, i as int).push(counts@[i as int]) =~= counts@.subrange(0, i + 1));
        }
        i += 1;
    }
    proof {
        assert(views.subrange(0, i as int) =~= views);
        assert(counts@.subrange(0, i as int) =~= counts@);
    }
    acc
}

/// The frequency map of the corpus, counted word by word on one thread.
pub fn count_pairs(words: &[Word], counts: &[i32]) -> (r: AHashMap<Pair, i32>)
    requires
        words@.len() == counts@.len(),
    ensures
        pair_counts(r) == count_map(word_views(words@), counts@),
{
    let mut acc = counts_new();
    let ghost views = word_views(words@);
    let mut i: usize = 0;
    proof {
        lemma_count_map_empty();
        assert(views.subrange(0, 0) =~= Seq::<Seq<u32>>::empty());
        assert(counts@.subrange(0, 0) =~= Seq::<i32>::empty());
        assert(pair_counts(acc) =~= Map::<Pair, i32>::empty());
    }
    while i < words.len()
        invariant
            views == word_views(words@),
            words@.len() == counts@.len(),
            i <= words@.len(),
            pair_counts(acc) == count_map(views.subrange(0, i as int), counts@.subrange(0, i as int)),
        decreases words@.len() - i,
    {
        let local = local_counts(&words[i], counts[i]);
        acc = merge_counts(acc, &local);
        proof {
            lemma_count_map_push(
                views.subrange(0, i as int),
                counts@.subrange(0, i as int),
                words@[i as int]@,
                counts@[i as int],
            );
            assert(views.subrange(0, i as int).push(words@[i as int]@) =~= views.subrange(0, i + 1));
            assert(counts@.subrange(0, i as int).push(counts@[i as int]) =~= counts@.subrange(0, i + 1));
        }
        i += 1;
    }
    proof {
        assert(views.subrange(0, i as int) =~= views);
        assert(counts@.subrange(0, i as int) =~= counts@);
    }
    acc
}

/// An empty corpus has an empty frequency map.
pub proof fn lemma_count_map_empty()
    ensures
        count_map(Seq::<Seq<u32>>::empty(), Seq::<i32>::empty()) == Map::<Pair, i32>::empty(),
{
    let m = count_map(Seq::<Seq<u32>>::empty(), Seq::<i32>::empty());
    assert forall|p: Pair| !m.contains_key(p) by {
        if counted(Seq::<Seq<u32>>::empty(), Seq::<i32>::empty(), p) {
            let i = choose|i: int| counted_at(Seq::<Seq<u32>>::empty(), Seq::<i32>::empty(), p, i);
            assert(counted_at(Seq::<Seq<u32>>::empty(), Seq::<i32>::empty(), p, i));
        }
    }
    assert(m =~= Map::<Pair, i32>::empty());
}

/// The weight of a pair is the sum of its weights on the two sides of any
/// partition of the word indices.
pub proof fn lemma_total_partition(words: Seq<Seq<u32>>, counts: Seq<i32>, part: Set<int>, pair: Pair)
    requires
        words.len() == counts.len(),
    ensures
        total(words, part_counts(counts, part), pair) + total(
            words,
            part_counts(counts, part.complement()),
            pair,
        ) == total(words, counts, pair),
    decreases words.len(),
{
    if words.len() > 0 {
        let n = words.len() - 1;
        assert(part_counts(counts, part).drop_last() =~= part_counts(counts.drop_last(), part));
        assert(part_counts(counts, part.complement()).drop_last() =~= part_counts(
            counts.drop_last(),
            part.complement(),
        ));
        lemma_total_partition(words.drop_last(), counts.drop_last(), part, pair);
        lemma_word_total_zero(words.last(), 0, pair);
    }
}

/// Exactness of the reduction: for any partition of the word indices into
/// two parts, merging the frequency maps of the parts gives the frequency map
/// of the whole corpus.
pub proof fn lemma_partition_exact(words: Seq<Seq<u32>>, counts: Seq<i32>, part: Set<int>)
    requires
        words.len() == counts.len(),
    ensures
        merged_counts(
            count_map(words, part_counts(counts, part)),
            count_map(words, part_counts(counts, part.complement())),
        ) == count_map(words, counts),
{
    let ca = part_counts(counts, part);
    let cb = part_counts(counts, part.complement());
    let a = count_map(words, ca);
    let b = count_map(words, cb);
    let whole = count_map(words, counts);
    let m = merged_counts(a, b);
    assert forall|p: Pair| #[trigger] m.contains_key(p) == whole.contains_key(p) by {
        if counted(words, counts, p) {
            let i = choose|i: int| counted_at(words, counts, p, i);
            if part.contains(i) {
                assert(counted_at(words, ca, p, i));
            } else {
                assert(counted_at(words, cb, p, i));
            }
        }
        if counted(words, ca, p) {
            let i = choose|i: int| counted_at(words, ca, p, i);
            assert(counted_at(words, counts, p, i));
        }
        if counted(words, cb, p) {
            let i = choose|i: int| counted_at(words, cb, p, i);
            assert(counted_at(words, counts, p, i));
        }
    }
    assert forall|p: Pair| m.contains_key(p) implies #[trigger] m[p] == whole[p] by {
        lemma_total_partition(words, counts, part, p);
        if !counted(words, ca, p) {
            lemma_total_zero(words, ca, p);
        }
        if !counted(words, cb, p) {
            lemma_total_zero(words, cb, p);
        }
        lemma_wrap32_add(total(words, ca, p), total(words, cb, p));
        lemma_wrap32_add(0, 0);
    }
    assert(m =~= whole);
}

/// Exactness of the reduction over chunks: the frequency map of two
/// corpora laid end to end is the merge of their frequency maps.
pub proof fn lemma_count_map_concat(
    words_a: Seq<Seq<u32>>,
    counts_a: Seq<i32>,
    words_b: Seq<Seq<u32>>,
    counts_b: Seq<i32>,
)
    requires
        words_a.len() == counts_a.len(),
        words_b.len() == counts_b.len(),
    ensures
        count_map(words_a + words_b, counts_a + counts_b) == merged_counts(
            count_map(words_a, counts_a),
            count_map(words_b, counts_b),
        ),
    decreases words_b.len(),
{
    let a = count_map(words_a, counts_a);
    if words_b.len() == 0 {
        assert(words_a + words_b =~= words_a);
        assert(counts_a + counts_b =~= counts_a);
        assert(words_b =~= Seq::<Seq<u32>>::empty());
        assert(counts_b =~= Seq::<i32>::empty());
        lemma_count_map_empty();
        lemma_wrap32_add(0, 0);
        assert forall|p: Pair| a.contains_key(p) implies #[trigger] a[p] == wrap32(a[p] + 0) by {
            lemma_wrap32_add(a[p] as int, 0);
        }
        assert(merged_counts(a, Map::<Pair, i32>::empty()) =~= a);
    } else {
        let front_w = words_b.drop_last();
        let front_c = counts_b.drop_last();
        let w = words_b.last();
        let c = counts_b.last();
        lemma_count_map_concat(words_a, counts_a, front_w, front_c);
        lemma_count_map_push(words_a + front_w, counts_a + front_c, w, c);
        lemma_count_map_push(front_w, front_c, w, c);
        assert((words_a + front_w).push(w) =~= words_a + words_b);
        assert((counts_a + front_c).push(c) =~= counts_a + counts_b);
        assert(front_w.push(w) =~= words_b);
        assert(front_c.push(c) =~= counts_b);
        lemma_merged_counts_associative(a, count_map(front_w, front_c), word_count_map(w, c));
    }
}

/// Where the weight of a counted pair fits in 32 bits, its frequency in the
/// map is that weight itself.
pub proof fn lemma_count_map_in_range(words: Seq<Seq<u32>>, counts: Seq<i32>, pair: Pair)
    requires
        counted(words, counts, pair),
        i32::MIN <= total(words, counts, pair) <= i32::MAX,
    ensures
        count_map(words, counts).contains_key(pair),
        count_map(words, counts)[pair] == total(words, counts, pair),
{
    lemma_wrap32_add(total(words, counts, pair), 0);
}

/// Merging frequency maps is commutative.
pub proof fn lemma_merged_counts_commutative(a: Map<Pair, i32>, b: Map<Pair, i32>)
    ensures
        merged_counts(a, b) == merged_counts(b, a),
{
    assert(merged_counts(a, b) =~= merged_counts(b, a));
}

/// Merging frequency maps is associative.
pub proof fn lemma_merged_counts_associative(a: Map<Pair, i32>, b: Map<Pair, i32>, c: Map<Pair, i32>)
    ensures
        merged_counts(merged_counts(a, b), c) == merged_counts(a, merged_counts(b, c)),
{
    let l = merged_counts(merged_counts(a, b), c);
    let r = merged_counts(a, merged_counts(b, c));
    assert forall|p: Pair| l.contains_key(p) implies #[trigger] l[p] == r[p] by {
        let x = value_or_zero(a, p) as int;
        let y = value_or_zero(b, p) as int;
        let z = value_or_zero(c, p) as int;
        lemma_wrap32_add(0, 0);
        assert(value_or_zero(merged_counts(a, b), p) == wrap32(x + y));
        assert(value_or_zero(merged_counts(b, c), p) == wrap32(y + z));
        lemma_wrap32_add(x + y, z);
        lemma_wrap32_add(z, x + y);
        lemma_wrap32_add(x, y + z);
        lemma_wrap32_add(y + z, x);
        lemma_wrap32_add(x, 0);
        lemma_wrap32_add(z, 0);
    }
    assert(l =~= r);
}

} // verus!
