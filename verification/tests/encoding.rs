use bpe_core::encode::{apply_rules, encode};
use bpe_core::table::{BpeError, MergeRule, MergeTable};
use bpe_core::train::train;

fn rule(left: u32, right: u32, new_id: u32) -> MergeRule {
    MergeRule { pair: (left, right), new_id }
}

fn sample_table() -> MergeTable {
    train(&vec!["aaab".to_string(), "aaab".to_string(), "aaab".to_string()], 258).unwrap()
}

#[test]
fn encode_with_the_trained_table_is_shorter() {
    let tokens = encode(b"aaab", &sample_table()).unwrap();
    assert!(tokens.len() < 4);
    assert_eq!(tokens, vec![256, 257]);
}

#[test]
fn encode_is_deterministic() {
    let table = sample_table();
    let text = b"aaab baaab aab";
    assert_eq!(encode(text, &table), encode(text, &table));
}

#[test]
fn encode_never_lengthens() {
    let table = sample_table();
    let inputs: [&[u8]; 5] = [b"a", b"aa", b"ab", b"xyz", b"aaaaabab aaab"];
    for text in inputs {
        assert!(encode(text, &table).unwrap().len() <= text.len());
    }
}

#[test]
fn encode_of_empty_text_is_empty() {
    assert_eq!(encode(b"", &sample_table()), Ok(Vec::new()));
}

#[test]
fn encode_with_empty_table_gives_the_bytes() {
    assert_eq!(encode(&[0u8, 255, 97], &MergeTable::new()), Ok(vec![0, 255, 97]));
}

#[test]
fn encode_applies_rules_in_table_order() {
    // The second rule only matches what the first one has produced.
    let table = MergeTable { rules: vec![rule(97, 98, 256), rule(256, 99, 257)] };
    assert_eq!(encode(b"abcab", &table), Ok(vec![257, 256]));
}

#[test]
fn encode_is_greedy_from_the_left() {
    let table = MergeTable { rules: vec![rule(97, 97, 256)] };
    assert_eq!(encode(b"aaa", &table), Ok(vec![256, 97]));
    assert_eq!(encode(b"aaaa", &table), Ok(vec![256, 256]));
}

#[test]
fn encode_refuses_a_table_that_does_not_start_at_256() {
    let table = MergeTable { rules: vec![rule(97, 98, 257)] };
    assert_eq!(encode(b"ab", &table), Err(BpeError::CorruptMergeTable));
}

#[test]
fn encode_refuses_ids_that_are_not_increasing() {
    let table = MergeTable { rules: vec![rule(97, 98, 256), rule(98, 99, 256)] };
    assert_eq!(encode(b"abc", &table), Err(BpeError::CorruptMergeTable));
    let gap = MergeTable { rules: vec![rule(97, 98, 256), rule(98, 99, 258)] };
    assert_eq!(encode(b"abc", &gap), Err(BpeError::CorruptMergeTable));
    let low = MergeTable { rules: vec![rule(97, 98, 5)] };
    assert_eq!(encode(b"abc", &low), Err(BpeError::CorruptMergeTable));
}

#[test]
fn apply_rules_uses_each_rule_own_id() {
    let table = MergeTable { rules: vec![rule(1, 2, 900)] };
    assert_eq!(apply_rules(vec![1, 2, 1, 2, 3], &table), vec![900, 900, 3]);
}

#[test]
fn table_round_trips_through_its_pairs() {
    let table = sample_table();
    let pairs = table.pairs();
    assert_eq!(pairs, vec![(97, 97), (97, 98)]);
    assert_eq!(MergeTable::from_pairs(&pairs), Some(table));
}

#[test]
fn table_from_pairs_numbers_from_256() {
    let table = MergeTable::from_pairs(&[(1, 2), (3, 4), (256, 257)]).unwrap();
    assert_eq!(table.rules, vec![rule(1, 2, 256), rule(3, 4, 257), rule(256, 257, 258)]);
    assert!(table.is_well_formed());
    assert_eq!(table.vocab_size(), 259);
    assert_eq!(MergeTable::new().vocab_size(), 256);
}
