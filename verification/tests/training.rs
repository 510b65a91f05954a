use bpe_core::table::{BpeError, MergeRule, MergeTable};
use bpe_core::train::{build_corpus, merge_all, train, train_step, train_words, StepOutcome};
use bpe_core::word::Word;

fn texts(items: &[&str]) -> Vec<String> {
    items.iter().map(|s| s.to_string()).collect()
}

fn rule(left: u32, right: u32, new_id: u32) -> MergeRule {
    MergeRule { pair: (left, right), new_id }
}

#[test]
fn train_pins_the_table_of_a_repeated_word() {
    let table = train(&texts(&["aaab", "aaab", "aaab"]), 258).unwrap();
    assert_eq!(table.rules, vec![rule(97, 97, 256), rule(97, 98, 257)]);
}

#[test]
fn train_breaks_ties_by_the_smallest_pair() {
    // (98, 97) and (97, 98) both have weight 1: the smaller pair is learned.
    let table = train(&texts(&["ba ab"]), 257).unwrap();
    assert_eq!(table.rules, vec![rule(97, 98, 256)]);
}

#[test]
fn train_on_empty_corpus_gives_empty_table() {
    let table = train(&Vec::new(), 300).unwrap();
    assert_eq!(table.rules, Vec::new());
    assert_eq!(table.len(), 0);
}

#[test]
fn train_stops_when_no_pair_is_left() {
    let table = train(&texts(&["ab"]), 300).unwrap();
    assert_eq!(table.rules, vec![rule(97, 98, 256)]);
}

#[test]
fn train_never_exceeds_the_requested_vocabulary() {
    let corpus = texts(&["the quick brown fox", "jumps over the lazy dog", "the end"]);
    for vocab_size in [256u32, 257, 260, 270, 400] {
        let table = train(&corpus, vocab_size).unwrap();
        assert!(table.len() as u32 <= vocab_size - 256);
        assert!(table.is_well_formed());
    }
}

#[test]
fn train_refuses_a_vocabulary_below_the_byte_ids() {
    assert_eq!(train(&texts(&["aaab"]), 255), Err(BpeError::InvalidConfig));
    assert_eq!(train(&texts(&["aaab"]), 0), Err(BpeError::InvalidConfig));
    assert_eq!(train_words(&vec![b"aaab".to_vec()], 100), Err(BpeError::InvalidConfig));
}

#[test]
fn train_with_exactly_the_byte_ids_learns_nothing() {
    let table = train(&texts(&["aaab aaab"]), 256).unwrap();
    assert_eq!(table.rules, Vec::new());
}

#[test]
fn train_splits_on_every_kind_of_whitespace() {
    // Tab, newline and an em space separate words: no word has two bytes.
    let table = train(&texts(&["a\tb\nc\u{2003}d  e"]), 300).unwrap();
    assert_eq!(table.rules, Vec::new());
    // Without a separator the same letters form one word.
    let joined = train(&texts(&["ab"]), 300).unwrap();
    assert_eq!(joined.len(), 1);
}

#[test]
fn train_counts_words_across_texts() {
    // "ab" stands twice, "cd" three times: (99, 100) is learned first.
    let table = train(&texts(&["ab cd", "cd ab", "cd"]), 258).unwrap();
    assert_eq!(table.rules, vec![rule(99, 100, 256), rule(97, 98, 257)]);
}

#[test]
fn train_words_agrees_with_train() {
    let stream: Vec<Vec<u8>> = vec![b"aaab".to_vec(), b"aaab".to_vec(), b"aaab".to_vec()];
    let from_words = train_words(&stream, 258).unwrap();
    let from_texts = train(&texts(&["aaab aaab", "aaab"]), 258).unwrap();
    assert_eq!(from_words, from_texts);
}

#[test]
fn build_corpus_keeps_first_appearance_order_and_counts() {
    let stream: Vec<Vec<u8>> =
        vec![b"b".to_vec(), b"a".to_vec(), b"b".to_vec(), b"c".to_vec(), b"b".to_vec(), b"a".to_vec()];
    let (words, counts) = build_corpus(&stream);
    assert_eq!(
        words,
        vec![Word { ids: vec![98] }, Word { ids: vec![97] }, Word { ids: vec![99] }]
    );
    assert_eq!(counts, vec![3, 2, 1]);
}

#[test]
fn build_corpus_of_nothing_is_empty() {
    let (words, counts) = build_corpus(&Vec::new());
    assert!(words.is_empty());
    assert!(counts.is_empty());
}

#[test]
fn build_corpus_uses_the_bytes_of_the_word() {
    let (words, counts) = build_corpus(&vec!["é".as_bytes().to_vec()]);
    assert_eq!(words, vec![Word { ids: vec![0xC3, 0xA9] }]);
    assert_eq!(counts, vec![1]);
}

#[test]
fn merge_all_rewrites_every_word() {
    let mut words = vec![Word { ids: vec![1, 2, 3] }, Word { ids: vec![2, 1, 2] }, Word { ids: vec![] }];
    merge_all(&mut words, (1, 2), 300);
    assert_eq!(
        words,
        vec![Word { ids: vec![300, 3] }, Word { ids: vec![2, 300] }, Word { ids: vec![] }]
    );
}

#[test]
fn train_step_learns_one_rule_or_reports_exhaustion() {
    let mut words = vec![Word { ids: vec![97, 97, 97, 98] }];
    let counts = vec![3];
    let mut table = MergeTable::new();
    let first = train_step(&mut words, &counts, &mut table);
    assert_eq!(first, StepOutcome::Merged(rule(97, 97, 256)));
    assert_eq!(words, vec![Word { ids: vec![256, 97, 98] }]);
    let second = train_step(&mut words, &counts, &mut table);
    assert_eq!(second, StepOutcome::Merged(rule(97, 98, 257)));
    let third = train_step(&mut words, &counts, &mut table);
    assert_eq!(third, StepOutcome::Merged(rule(256, 257, 258)));
    assert_eq!(words, vec![Word { ids: vec![258] }]);
    let fourth = train_step(&mut words, &counts, &mut table);
    assert_eq!(fourth, StepOutcome::NoMergeableInput);
    assert_eq!(words, vec![Word { ids: vec![258] }]);
    assert_eq!(table.len(), 3);
}

#[test]
fn train_learns_no_pair_twice() {
    let corpus = texts(&["abababab abab ab", "baba baba", "aaaa bbbb abba"]);
    let table = train(&corpus, 300).unwrap();
    let pairs = table.pairs();
    for i in 0..pairs.len() {
        for j in 0..i {
            assert_ne!(pairs[i], pairs[j]);
        }
    }
}
