//! Learning a merge table: building the corpus of distinct words, and the
//! loop that counts, selects and merges until the vocabulary is full or no
//! pair is left.

use crate::counts::{
    count_map, count_pairs_parallel, counted, counted_at, lemma_wrap32_add, word_views, wrap32,
};
use crate::select::{best_pair, is_best, select_pair};
use crate::table::{rule_at, well_formed, BpeError, MergeRule, MergeTable};
use crate::word::{
    byte_ids, ids_below, lemma_merged_ids_below, lemma_merged_keeps_absent, lemma_merged_removes_pair,
    merge_ids, merged, occurs, occurs_at, Pair, Word, BYTE_IDS,
};
use vstd::prelude::*;

verus! {

/// The words of a text: its maximal runs of characters that are not
/// whitespace, each as its UTF-8 bytes, from left to right.
pub uninterp spec fn whitespace_words(text: Seq<char>) -> Seq<Seq<u8>>;

/// `str::split_whitespace`, each piece handed back as its bytes.
#[verifier::external_body]
fn split_words(text: &String) -> (r: Vec<Vec<u8>>)
    ensures
        byte_views(r@) == whitespace_words(text@),
{
    text.split_whitespace().map(|w| w.as_bytes().to_vec()).collect()
}

/// The views of a sequence of byte strings.
pub open spec fn byte_views(words: Seq<Vec<u8>>) -> Seq<Seq<u8>> {
    Seq::new(words.len(), |i: int| words[i]@)
}

/// The views of a sequence of texts.
pub open spec fn text_views(texts: Seq<String>) -> Seq<Seq<char>> {
    Seq::new(texts.len(), |i: int| texts[i]@)
}

/// The words of all texts, in the order of the texts.
pub open spec fn word_stream(texts: Seq<Seq<char>>) -> Seq<Seq<u8>>
    decreases texts.len(),
{
    if texts.len() == 0 {
        Seq::empty()
    } else {
        word_stream(texts.drop_last()) + whitespace_words(texts.last())
    }
}

/// The distinct words of a stream, in the order of their first appearance.
pub open spec fn distinct(stream: Seq<Seq<u8>>) -> Seq<Seq<u8>>
    decreases stream.len(),
{
    if stream.len() == 0 {
        Seq::empty()
    } else {
        let before = distinct(stream.drop_last());
        if before.contains(stream.last()) {
            before
        } else {
            before.push(stream.last())
        }
    }
}

/// How often `w` stands in the stream.
pub open spec fn occurrences(stream: Seq<Seq<u8>>, w: Seq<u8>) -> int
    decreases stream.len(),
{
    if stream.len() == 0 {
        0
    } else {
        occurrences(stream.drop_last(), w) + if stream.last() == w {
            1int
        } else {
            0int
        }
    }
}

/// The words of the corpus: the distinct words of the stream as token ids.
pub open spec fn corpus_words(stream: Seq<Seq<u8>>) -> Seq<Seq<u32>> {
    Seq::new(distinct(stream).len(), |i: int| byte_ids(distinct(stream)[i]))
}

/// The count of each word of the corpus: how often it stands in the stream.
pub open spec fn corpus_counts(stream: Seq<Seq<u8>>) -> Seq<i32> {
    Seq::new(distinct(stream).len(), |i: int| wrap32(occurrences(stream, distinct(stream)[i])))
}

/// No word stands twice among the distinct words.
pub proof fn lemma_distinct_no_duplicates(stream: Seq<Seq<u8>>)
    ensures
        forall|i: int, j: int|
            0 <= i < j < distinct(stream).len() ==> distinct(stream)[i] != distinct(stream)[j],
    decreases stream.len(),
{
    if stream.len() > 0 {
        lemma_distinct_no_duplicates(stream.drop_last());
        let before = distinct(stream.drop_last());
        let d = distinct(stream);
        assert forall|i: int, j: int| 0 <= i < j < d.len() implies d[i] != d[j] by {
            if j == before.len() {
                assert(before.contains(before[i]));
            }
        }
    }
}

/// A word that is not among the distinct words does not stand in the stream.
pub proof fn lemma_absent_word(stream: Seq<Seq<u8>>, w: Seq<u8>)
    requires
        !distinct(stream).contains(w),
    ensures
        occurrences(stream, w) == 0,
    decreases stream.len(),
{
    if stream.len() > 0 {
        let before = distinct(stream.drop_last());
        if before.contains(stream.last()) {
            assert(stream.last() != w);
        } else {
            assert(distinct(stream).last() == stream.last());
            assert(distinct(stream)[before.len() as int] == stream.last());
            if before.contains(w) {
                let k = choose|k: int| 0 <= k < before.len() && before[k] == w;
                assert(distinct(stream)[k] == w);
            }
        }
        lemma_absent_word(stream.drop_last(), w);
    }
}

/// Byte strings with the same token ids are the same.
pub proof fn lemma_byte_ids_injective(a: Seq<u8>, b: Seq<u8>)
    requires
        byte_ids(a) == byte_ids(b),
    ensures
        a == b,
{
    assert(a.len() == byte_ids(a).len());
    assert(b.len() == byte_ids(b).len());
    assert forall|i: int| 0 <= i < a.len() implies a[i] == b[i] by {
        assert(byte_ids(a)[i] == a[i] as u32);
        assert(byte_ids(b)[i] == b[i] as u32);
    }
    assert(a =~= b);
}

/// Whether the ids are those of the bytes.
pub fn same_word(ids: &Vec<u32>, bytes: &Vec<u8>) -> (r: bool)
    ensures
        r == (ids@ == byte_ids(bytes@)),
{
    if ids.len() != bytes.len() {
        return false;
    }
    let n: usize = ids.len();
    let mut i: usize = 0;
    while i < n
        invariant
            n == ids@.len(),
            n == bytes@.len(),
            i <= n,
            forall|k: int| 0 <= k < i ==> ids@[k] == bytes@[k] as u32,
        decreases n - i,
    {
        if ids[i] != bytes[i] as u32 {
            assert(byte_ids(bytes@)[i as int] != ids@[i as int]);
            return false;
        }
        i += 1;
    }
    proof {
        assert(ids@ =~= byte_ids(bytes@));
    }
    true
}

/// The index of the word with the ids of `bytes`, if there is one.
pub fn find_word(words: &Vec<Word>, bytes: &Vec<u8>) -> (r: Option<usize>)
    ensures
        match r {
            Some(j) => j < words@.len() && words@[j as int]@ == byte_ids(bytes@),
            None => forall|j: int| 0 <= j < words@.len() ==> words@[j]@ != byte_ids(bytes@),
        },
{
    let mut j: usize = 0;
    while j < words.len()
        invariant
            j <= words@.len(),
            forall|k: int| 0 <= k < j ==> words@[k]@ != byte_ids(bytes@),
        decreases words@.len() - j,
    {
        if same_word(&words[j].ids, bytes) {
            return Some(j);
        }
        j += 1;
    }
    None
}

/// Builds the corpus of a stream of words: each distinct word once, in the
/// order of first appearance, with the number of its occurrences.
pub fn build_corpus(stream: &Vec<Vec<u8>>) -> (r: (Vec<Word>, Vec<i32>))
    ensures
        word_views(r.0@) == corpus_words(byte_views(stream@)),
        r.1@ == corpus_counts(byte_views(stream@)),
        r.0@.len() == r.1@.len(),
{
    let mut words: Vec<Word> = Vec::new();
    let mut counts: Vec<i32> = Vec::new();
    let ghost all = byte_views(stream@);
    let mut i: usize = 0;
    proof {
        assert(all.subrange(0, 0) =~= Seq::<Seq<u8>>::empty());
        assert(word_views(words@) =~= corpus_words(all.subrange(0, 0)));
        assert(counts@ =~= corpus_counts(all.subrange(0, 0)));
    }
    while i < stream.len()
        invariant
            all == byte_views(stream@),
            i <= stream@.len(),
            word_views(words@) == corpus_words(all.subrange(0, i as int)),
            counts@ == corpus_counts(all.subrange(0, i as int)),
        decreases stream@.len() - i,
    {
        let ghost seen = all.subrange(0, i as int);
        let ghost next = all.subrange(0, i + 1);
        let ghost w = stream@[i as int]@;
        let ghost d = distinct(seen);
        proof {
            assert(next.drop_last() =~= seen);
            assert(next.last() == w);
            assert(words@.len() == word_views(words@).len());
            assert(counts@.len() == d.len());
            lemma_distinct_no_duplicates(seen);
            assert forall|k: int| 0 <= k < d.len() implies words@[k]@ == byte_ids(d[k]) by {
                assert(word_views(words@)[k] == corpus_words(seen)[k]);
            }
        }
        match find_word(&words, &stream[i]) {
            Some(j) => {
                let c: i32 = counts[j];
                counts.set(j, c.wrapping_add(1));
                proof {
                    lemma_byte_ids_injective(d[j as int], w);
                    assert(d.contains(w));
                    assert(distinct(next) == d);
                    assert forall|k: int| 0 <= k < d.len() implies counts@[k] == corpus_counts(next)[k] by {
                        if k == j {
                            lemma_wrap32_add(occurrences(seen, w), 1);
                        } else {
                            assert(d[k] != d[j as int]);
                        }
                    }
                    assert(counts@ =~= corpus_counts(next));
                    assert(word_views(words@) =~= corpus_words(next));
                }
            },
            None => {
                words.push(Word::from_bytes(stream[i].as_slice()));
                counts.push(1);
                proof {
                    if d.contains(w) {
                        let k = choose|k: int| 0 <= k < d.len() && d[k] == w;
                        assert(words@[k]@ == byte_ids(w));
                    }
                    assert(distinct(next) == d.push(w));
                    lemma_absent_word(seen, w);
                    lemma_wrap32_add(1, 0);
                    assert forall|k: int| 0 <= k < d.len() + 1 implies counts@[k] == corpus_counts(next)[k] by {
                        if k < d.len() {
                            assert(d.contains(d[k]));
                            assert(d[k] != w);
                        }
                    }
                    assert(counts@ =~= corpus_counts(next));
                    assert(word_views(words@) =~= corpus_words(next));
                }
            },
        }
        i += 1;
    }
    proof {
        assert(all.subrange(0, i as int) =~= all);
        assert(word_views(words@).len() == words@.len());
    }
    (words, counts)
}

/// Every word after one merge pass.
pub open spec fn merged_words(words: Seq<Seq<u32>>, pair: Pair, new_id: u32) -> Seq<Seq<u32>> {
    Seq::new(words.len(), |i: int| merged(words[i], pair, new_id))
}

/// The state of training: the words as they now are, and the rules so far.
pub struct TrainState {
    pub words: Seq<Seq<u32>>,
    pub rules: Seq<MergeRule>,
}

/// The state that the words and the table of a running training stand for.
pub open spec fn state_of(words: Seq<Word>, rules: Seq<MergeRule>) -> TrainState {
    TrainState { words: word_views(words), rules }
}

/// One step of training: the selected pair becomes the next rule and is
/// merged in every word. There is no step where no pair is left.
pub open spec fn step(state: TrainState, counts: Seq<i32>) -> Option<TrainState> {
    match best_pair(count_map(state.words, counts)) {
        None => None,
        Some(pair) => Some(
            TrainState {
                words: merged_words(state.words, pair, (256 + state.rules.len()) as u32),
                rules: state.rules.push(rule_at(state.rules.len() as int, pair)),
            },
        ),
    }
}

/// The state after at most `n` steps from the initial corpus: training
/// stays where it is once no pair is left.
pub open spec fn run(words: Seq<Seq<u32>>, counts: Seq<i32>, n: nat) -> TrainState
    decreases n,
{
    if n == 0 {
        TrainState { words, rules: Seq::empty() }
    } else {
        let before = run(words, counts, (n - 1) as nat);
        match step(before, counts) {
            None => before,
            Some(after) => after,
        }
    }
}

/// The rules that training on a stream of words learns in at most `n` steps.
pub open spec fn learned(stream: Seq<Seq<u8>>, n: nat) -> Seq<MergeRule> {
    run(corpus_words(stream), corpus_counts(stream), n).rules
}

/// After `n` steps there are at most `n` rules, rule `i` has the id
/// `256 + i`, and the corpus has as many words as before.
pub proof fn lemma_run_bounds(words: Seq<Seq<u32>>, counts: Seq<i32>, n: nat)
    requires
        256 + n <= u32::MAX,
    ensures
        run(words, counts, n).rules.len() <= n,
        well_formed(run(words, counts, n).rules),
        run(words, counts, n).words.len() == words.len(),
    decreases n,
{
    if n > 0 {
        lemma_run_bounds(words, counts, (n - 1) as nat);
    }
}

/// Once no pair is left, further steps change nothing.
pub proof fn lemma_run_stays(words: Seq<Seq<u32>>, counts: Seq<i32>, k: nat, n: nat)
    requires
        k <= n,
        step(run(words, counts, k), counts).is_none(),
    ensures
        run(words, counts, n) == run(words, counts, k),
    decreases n,
{
    if n > k {
        lemma_run_stays(words, counts, k, (n - 1) as nat);
    }
}

/// What holds of every state that training reaches from words of byte ids:
/// rule `i` has the id `256 + i` and a pair of older ids, the words hold
/// only ids that exist so far, and no pair of a rule stands in any word.
pub open spec fn consistent(state: TrainState) -> bool {
    &&& well_formed(state.rules)
    &&& forall|w: int|
        0 <= w < state.words.len() ==> ids_below(#[trigger] state.words[w], 256 + state.rules.len() as int)
    &&& forall|j: int|
        0 <= j < state.rules.len() ==> (#[trigger] state.rules[j]).pair.0 < 256 + j
            && state.rules[j].pair.1 < 256 + j
    &&& forall|j: int, w: int|
        0 <= j < state.rules.len() && 0 <= w < state.words.len() ==> !occurs(
            #[trigger] state.words[w],
            (#[trigger] state.rules[j]).pair,
        )
}

/// No pair has two rules.
pub open spec fn pairs_distinct(rules: Seq<MergeRule>) -> bool {
    forall|i: int, j: int| 0 <= i < j < rules.len() ==> rules[i].pair != rules[j].pair
}

/// A step keeps a state consistent, and the pair that it learns has no
/// rule yet.
pub proof fn lemma_step_consistent(state: TrainState, counts: Seq<i32>)
    requires
        consistent(state),
        256 + state.rules.len() <= u32::MAX,
        step(state, counts).is_some(),
    ensures
        consistent(step(state, counts).unwrap()),
        forall|j: int|
            0 <= j < state.rules.len() ==> (#[trigger] state.rules[j]).pair != step(
                state,
                counts,
            ).unwrap().rules.last().pair,
{
    let m = count_map(state.words, counts);
    let pair = best_pair(m).unwrap();
    let after = step(state, counts).unwrap();
    let n = state.rules.len() as int;
    let new_id = (256 + n) as u32;
    assert(is_best(m, pair));
    assert(counted(state.words, counts, pair));
    let at = choose|i: int| counted_at(state.words, counts, pair, i);
    assert(counted_at(state.words, counts, pair, at));
    let k = choose|k: int| occurs_at(state.words[at], pair, k);
    assert(occurs_at(state.words[at], pair, k));
    assert(ids_below(state.words[at], 256 + n));
    assert(pair.0 < 256 + n && pair.1 < 256 + n);
    assert forall|j: int| 0 <= j < n implies (#[trigger] state.rules[j]).pair != pair by {
        assert(!occurs(state.words[at], state.rules[j].pair));
    }
    assert forall|j: int| 0 <= j < after.rules.len() implies (#[trigger] after.rules[j]).new_id == 256
        + j && after.rules[j].pair.0 < 256 + j && after.rules[j].pair.1 < 256 + j by {
        if j < n {
            assert(after.rules[j] == state.rules[j]);
        }
    }
    assert forall|w: int| 0 <= w < after.words.len() implies ids_below(
        #[trigger] after.words[w],
        256 + after.rules.len() as int,
    ) by {
        assert(ids_below(state.words[w], 256 + n));
        lemma_merged_ids_below(state.words[w], pair, new_id, 256 + n + 1);
    }
    assert forall|j: int, w: int|
        0 <= j < after.rules.len() && 0 <= w < after.words.len() implies !occurs(
        #[trigger] after.words[w],
        (#[trigger] after.rules[j]).pair,
    ) by {
        if j < n {
            assert(after.rules[j] == state.rules[j]);
            assert(!occurs(state.words[w], state.rules[j].pair));
            lemma_merged_keeps_absent(state.words[w], pair, new_id, state.rules[j].pair);
        } else {
            lemma_merged_removes_pair(state.words[w], pair, new_id);
        }
    }
}

/// Training on words of byte ids learns every pair at most once, and what
/// it reaches is consistent.
pub proof fn lemma_run_consistent(words: Seq<Seq<u32>>, counts: Seq<i32>, n: nat)
    requires
        forall|w: int| 0 <= w < words.len() ==> ids_below(#[trigger] words[w], 256),
        256 + n <= u32::MAX,
    ensures
        consistent(run(words, counts, n)),
        pairs_distinct(run(words, counts, n).rules),
    decreases n,
{
    if n > 0 {
        lemma_run_consistent(words, counts, (n - 1) as nat);
        lemma_run_bounds(words, counts, (n - 1) as nat);
        let before = run(words, counts, (n - 1) as nat);
        if step(before, counts).is_some() {
            lemma_step_consistent(before, counts);
            let after = step(before, counts).unwrap();
            assert forall|i: int, j: int| 0 <= i < j < after.rules.len() implies after.rules[i].pair
                != after.rules[j].pair by {
                assert(after.rules[i] == before.rules[i]);
                if j < before.rules.len() {
                    assert(after.rules[j] == before.rules[j]);
                }
            }
        }
    }
}

/// A table learned from a stream of words has no pair twice.
pub proof fn lemma_learned_pairs_distinct(stream: Seq<Seq<u8>>, n: nat)
    requires
        256 + n <= u32::MAX,
    ensures
        pairs_distinct(learned(stream, n)),
{
    let words = corpus_words(stream);
    assert forall|w: int| 0 <= w < words.len() implies ids_below(#[trigger] words[w], 256) by {
        let bytes = distinct(stream)[w];
        assert forall|i: int| 0 <= i < words[w].len() implies words[w][i] < 256 by {
            assert(words[w][i] == bytes[i] as u32);
        }
    }
    lemma_run_consistent(words, corpus_counts(stream), n);
}

/// What one step of training did.
#[derive(Clone, Copy, Debug, PartialEq, Eq)]
pub enum StepOutcome {
    /// A rule was learned and merged into every word.
    Merged(MergeRule),
    /// No word has two tokens left: there is nothing to merge.
    NoMergeableInput,
}

/// One merge pass over every word of the corpus.
pub fn merge_all(words: &mut Vec<Word>, pair: Pair, new_id: u32)
    ensures
        word_views(final(words)@) == merged_words(word_views(old(words)@), pair, new_id),
        final(words)@.len() == old(words)@.len(),
{
    let ghost start = word_views(words@);
    let n: usize = words.len();
    let mut i: usize = 0;
    while i < n
        invariant
            n == words@.len(),
            n == start.len(),
            i <= n,
            forall|k: int| 0 <= k < i ==> words@[k]@ == merged(start[k], pair, new_id),
            forall|k: int| i <= k < n ==> words@[k]@ == start[k],
        decreases n - i,
    {
        let out = merge_ids(&words[i].ids, pair, new_id);
        words.set(i, Word { ids: out });
        i += 1;
    }
    proof {
        assert(word_views(words@) =~= merged_words(start, pair, new_id));
    }
}

/// One step of training: counts the pairs, selects one, appends its rule
/// with the next free id and merges it in every word; or reports that no
/// pair is left and changes nothing.
pub fn train_step(words: &mut Vec<Word>, counts: &Vec<i32>, table: &mut MergeTable) -> (r: StepOutcome)
    requires
        old(words)@.len() == counts@.len(),
        256 + old(table)@.len() <= u32::MAX,
    ensures
        match step(state_of(old(words)@, old(table)@), counts@) {
            None => r == StepOutcome::NoMergeableInput && *final(words) == *old(words) && *final(table)
                == *old(table),
            Some(after) => r == StepOutcome::Merged(after.rules.last()) && word_views(final(words)@)
                == after.words && final(table)@ == after.rules,
        },
        final(words)@.len() == old(words)@.len(),
{
    let freq = count_pairs_parallel(words.as_slice(), counts.as_slice());
    match select_pair(&freq) {
        None => StepOutcome::NoMergeableInput,
        Some(pair) => {
            let new_id: u32 = BYTE_IDS + table.rules.len() as u32;
            let rule = MergeRule { pair, new_id };
            table.rules.push(rule);
            merge_all(words, pair, new_id);
            StepOutcome::Merged(rule)
        },
    }
}

/// Trains on a stream of words until the vocabulary has `vocab_size` ids or
/// no pair is left. A vocabulary below the 256 byte ids is refused; one of
/// exactly 256 gives the empty table.
pub fn train_words(stream: &Vec<Vec<u8>>, vocab_size: u32) -> (r: Result<MergeTable, BpeError>)
    ensures
        match r {
            Ok(table) => vocab_size >= 256 && table@ == learned(
                byte_views(stream@),
                (vocab_size - 256) as nat,
            ) && table@.len() <= vocab_size - 256 && well_formed(table@) && pairs_distinct(table@),
            Err(e) => vocab_size < 256 && e == BpeError::InvalidConfig,
        },
{
    if vocab_size < BYTE_IDS {
        return Err(BpeError::InvalidConfig);
    }
    let target: u32 = vocab_size - BYTE_IDS;
    let (mut words, counts) = build_corpus(stream);
    let mut table = MergeTable::new();
    let ghost words0 = word_views(words@);
    let mut done: u32 = 0;
    let mut stalled: bool = false;
    proof {
        assert(table@ =~= Seq::<MergeRule>::empty());
    }
    while done < target && !stalled
        invariant
            target == vocab_size - 256,
            done <= target,
            words0 == corpus_words(byte_views(stream@)),
            counts@ == corpus_counts(byte_views(stream@)),
            words@.len() == counts@.len(),
            table@.len() == done,
            state_of(words@, table@) == run(words0, counts@, done as nat),
            stalled ==> step(run(words0, counts@, done as nat), counts@).is_none(),
        decreases target - done + (if stalled { 0int } else { 1int }),
    {
        match train_step(&mut words, &counts, &mut table) {
            StepOutcome::NoMergeableInput => {
                stalled = true;
            },
            StepOutcome::Merged(_) => {
                done += 1;
            },
        }
    }
    proof {
        if stalled {
            lemma_run_stays(words0, counts@, done as nat, target as nat);
        }
        lemma_run_bounds(words0, counts@, target as nat);
        lemma_learned_pairs_distinct(byte_views(stream@), target as nat);
    }
    Ok(table)
}

/// Trains on texts: their whitespace-separated words form the stream.
pub fn train(texts: &Vec<String>, vocab_size: u32) -> (r: Result<MergeTable, BpeError>)
    ensures
        match r {
            Ok(table) => vocab_size >= 256 && table@ == learned(
                word_stream(text_views(texts@)),
                (vocab_size - 256) as nat,
            ) && table@.len() <= vocab_size - 256 && well_formed(table@) && pairs_distinct(table@),
            Err(e) => vocab_size < 256 && e == BpeError::InvalidConfig,
        },
{
    let mut stream: Vec<Vec<u8>> = Vec::new();
    let ghost views = text_views(texts@);
    let mut i: usize = 0;
    proof {
        assert(views.subrange(0, 0) =~= Seq::<Seq<char>>::empty());
        assert(byte_views(stream@) =~= word_stream(views.subrange(0, 0)));
    }
    while i < texts.len()
        invariant
            views == text_views(texts@),
            i <= texts@.len(),
            byte_views(stream@) == word_stream(views.subrange(0, i as int)),
        decreases texts@.len() - i,
    {
        let mut piece = split_words(&texts[i]);
        let ghost before = stream@;
        let ghost added = piece@;
        stream.append(&mut piece);
        proof {
            assert(views.subrange(0, i + 1).drop_last() =~= views.subrange(0, i as int));
            assert(views.subrange(0, i + 1).last() == texts@[i as int]@);
            assert(byte_views(before + added) =~= byte_views(before) + byte_views(added));
        }
        i += 1;
    }
    proof {
        assert(views.subrange(0, i as int) =~= views);
    }
    train_words(&stream, vocab_size)
}

} // verus!
