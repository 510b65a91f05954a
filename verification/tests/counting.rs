use ahash::AHashMap;
use bpe_core::counts::{add_count, count_pairs, count_pairs_parallel, local_counts, merge_counts};
use bpe_core::select::{best_entry, select_pair};
use bpe_core::word::{merge_ids, Word};

fn word(text: &str) -> Word {
    Word::from_bytes(text.as_bytes())
}

fn map_of(entries: &[((u32, u32), i32)]) -> AHashMap<(u32, u32), i32> {
    let mut m = AHashMap::new();
    for (k, v) in entries {
        m.insert(*k, *v);
    }
    m
}

#[test]
fn word_from_bytes_maps_each_byte_to_its_id() {
    assert_eq!(Word::from_bytes(&[0, 97, 255]).ids, vec![0, 97, 255]);
    assert_eq!(Word::from_bytes(&[]).ids, Vec::<u32>::new());
}

#[test]
fn pairs_lists_adjacent_pairs() {
    assert_eq!(word("aaab").pairs(), vec![(97, 97), (97, 97), (97, 98)]);
    assert_eq!(word("a").pairs(), Vec::new());
    assert_eq!(word("").pairs(), Vec::new());
}

#[test]
fn merge_pair_replaces_non_overlapping_occurrences() {
    let mut w = word("aaab");
    w.merge_pair((97, 97), 256);
    assert_eq!(w.ids, vec![256, 97, 98]);
    let mut odd = Word { ids: vec![7, 7, 7, 7, 7] };
    odd.merge_pair((7, 7), 300);
    assert_eq!(odd.ids, vec![300, 300, 7]);
}

#[test]
fn merge_pair_without_occurrence_changes_nothing() {
    let mut w = word("abcabc");
    w.merge_pair((98, 97), 256);
    assert_eq!(w, word("abcabc"));
    let mut single = word("a");
    single.merge_pair((97, 97), 256);
    assert_eq!(single, word("a"));
    let mut empty = word("");
    empty.merge_pair((97, 97), 256);
    assert_eq!(empty, word(""));
}

#[test]
fn merge_pair_distinguishes_left_and_right() {
    let mut w = Word { ids: vec![2, 1, 2] };
    w.merge_pair((1, 2), 9);
    assert_eq!(w.ids, vec![2, 9]);
}

#[test]
fn merge_ids_shrinks_when_the_pair_occurs() {
    let out = merge_ids(&vec![1, 2, 3, 1, 2], (1, 2), 500);
    assert_eq!(out, vec![500, 3, 500]);
}

#[test]
fn local_counts_weights_each_position() {
    let m = local_counts(&word("aaab"), 3);
    assert_eq!(m, map_of(&[((97, 97), 6), ((97, 98), 3)]));
}

#[test]
fn local_counts_skips_zero_counts_and_short_words() {
    assert!(local_counts(&word("aaab"), 0).is_empty());
    assert!(local_counts(&word("a"), 5).is_empty());
    assert!(local_counts(&word(""), 5).is_empty());
}

#[test]
fn add_count_starts_at_zero_and_accumulates() {
    let mut m = AHashMap::new();
    add_count(&mut m, (1, 2), 5);
    add_count(&mut m, (1, 2), -2);
    add_count(&mut m, (2, 1), 7);
    assert_eq!(m, map_of(&[((1, 2), 3), ((2, 1), 7)]));
}

#[test]
fn add_count_wraps_around() {
    let mut m = AHashMap::new();
    add_count(&mut m, (1, 2), i32::MAX);
    add_count(&mut m, (1, 2), 1);
    assert_eq!(m.get(&(1, 2)), Some(&i32::MIN));
}

#[test]
fn merge_counts_sums_elementwise() {
    let a = map_of(&[((1, 2), 3), ((2, 3), 4)]);
    let b = map_of(&[((2, 3), 10), ((5, 6), 1)]);
    let merged = merge_counts(a, &b);
    assert_eq!(merged, map_of(&[((1, 2), 3), ((2, 3), 14), ((5, 6), 1)]));
}

#[test]
fn merge_counts_is_commutative_and_associative() {
    let a = map_of(&[((1, 2), 3), ((2, 3), i32::MAX)]);
    let b = map_of(&[((2, 3), 10), ((5, 6), 1)]);
    let c = map_of(&[((1, 2), -3), ((2, 3), 7)]);
    assert_eq!(merge_counts(a.clone(), &b), merge_counts(b.clone(), &a));
    let left = merge_counts(merge_counts(a.clone(), &b), &c);
    let right = merge_counts(a, &merge_counts(b, &c));
    assert_eq!(left, right);
}

#[test]
fn count_pairs_parallel_sums_over_the_corpus() {
    let words = vec![word("aaab"), word("ab"), word("x"), word("ba")];
    let counts = vec![3, 2, 9, 0];
    let m = count_pairs_parallel(&words, &counts);
    assert_eq!(m, map_of(&[((97, 97), 6), ((97, 98), 5)]));
}

#[test]
fn count_pairs_parallel_agrees_with_sequential() {
    let words: Vec<Word> =
        ["hello", "world", "help", "hold", "low", "lower", "", "o"].iter().map(|s| word(s)).collect();
    let counts = vec![5, 3, 0, 2, 7, 1, 4, 4];
    assert_eq!(count_pairs_parallel(&words, &counts), count_pairs(&words, &counts));
}

#[test]
fn count_pairs_of_any_partition_merge_to_the_whole() {
    let words: Vec<Word> = ["hello", "world", "help", "hold", "low", "lower"].iter().map(|s| word(s)).collect();
    let counts = vec![5, 3, 1, 2, 7, 1];
    let whole = count_pairs(&words, &counts);
    for cut in 0..=words.len() {
        let left = count_pairs_parallel(&words[..cut], &counts[..cut]);
        let right = count_pairs_parallel(&words[cut..], &counts[cut..]);
        assert_eq!(merge_counts(left.clone(), &right), whole);
        assert_eq!(merge_counts(right, &left), whole);
    }
    // A partition into even and odd indices.
    let even: Vec<i32> = counts.iter().enumerate().map(|(i, c)| if i % 2 == 0 { *c } else { 0 }).collect();
    let odd: Vec<i32> = counts.iter().enumerate().map(|(i, c)| if i % 2 == 1 { *c } else { 0 }).collect();
    assert_eq!(merge_counts(count_pairs(&words, &even), &count_pairs(&words, &odd)), whole);
}

#[test]
fn count_pairs_of_empty_corpus_is_empty() {
    assert!(count_pairs_parallel(&[], &[]).is_empty());
    assert!(count_pairs(&[], &[]).is_empty());
}

#[test]
fn count_pairs_wraps_modulo_two_to_the_32() {
    let words = vec![word("ab"), word("ab")];
    let counts = vec![i32::MAX, 1];
    assert_eq!(count_pairs(&words, &counts).get(&(97, 98)), Some(&i32::MIN));
    assert_eq!(count_pairs_parallel(&words, &counts).get(&(97, 98)), Some(&i32::MIN));
}

#[test]
fn count_pairs_keeps_a_key_whose_weights_cancel() {
    let words = vec![word("ab"), word("ab")];
    let counts = vec![4, -4];
    assert_eq!(count_pairs(&words, &counts), map_of(&[((97, 98), 0)]));
}

#[test]
fn select_pair_takes_the_highest_frequency() {
    let m = map_of(&[((5, 5), 1), ((9, 9), 7), ((1, 1), 3)]);
    assert_eq!(select_pair(&m), Some((9, 9)));
}

#[test]
fn select_pair_breaks_ties_by_the_smallest_pair() {
    let m = map_of(&[((2, 1), 4), ((1, 9), 4), ((1, 3), 4), ((0, 0), 1)]);
    assert_eq!(select_pair(&m), Some((1, 3)));
}

#[test]
fn select_pair_of_empty_map_is_none() {
    assert_eq!(select_pair(&AHashMap::new()), None);
}

#[test]
fn select_pair_does_not_depend_on_insertion_order() {
    let mut entries: Vec<((u32, u32), i32)> = (0u32..200).map(|i| ((i % 17, i), (i % 5) as i32)).collect();
    let forward = select_pair(&map_of(&entries));
    entries.reverse();
    let backward = select_pair(&map_of(&entries));
    assert_eq!(forward, backward);
    assert_eq!(forward, Some((0, 34)));
}

#[test]
fn best_entry_gives_the_index_of_the_preferred_entry() {
    assert_eq!(best_entry(&vec![((3, 3), 1), ((2, 2), 5), ((1, 1), 5), ((0, 0), 4)]), Some(2));
    assert_eq!(best_entry(&vec![((3, 3), -1)]), Some(0));
    assert_eq!(best_entry(&Vec::new()), None);
}
