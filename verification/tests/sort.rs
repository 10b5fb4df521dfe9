use leaderboard_index::record::{normalize, Category, CategoryList, PlayerRecord};
use leaderboard_index::sort::{sort_records, sorted_positions};
use leaderboard_index::text::key_le;

fn record(name: &str, key: &str) -> PlayerRecord {
    PlayerRecord::new(name.to_string(), key.to_string())
}

fn names(records: &[PlayerRecord]) -> Vec<String> {
    records.iter().map(|r| r.display_name.clone()).collect()
}

#[test]
fn example_sorts_to_alice_bob_bobby() {
    let lists = vec![CategoryList {
        category: Category::Overall,
        entries: vec![("bob".to_string(), 100), ("Alice".to_string(), 50), ("bobby".to_string(), 75)],
    }];
    let sorted = sort_records(&normalize(&lists).unwrap());
    assert_eq!(names(&sorted), vec!["Alice", "bob", "bobby"]);
    let keys: Vec<&str> = sorted.iter().map(|r| r.sort_key.as_str()).collect();
    assert_eq!(keys, vec!["alice", "bob", "bobby"]);
}

#[test]
fn equal_keys_keep_their_input_order() {
    let records = vec![
        record("Zed", "zed"),
        record("BOB", "bob"),
        record("bob", "bob"),
        record("Amy", "amy"),
        record("Bob", "bob"),
    ];
    assert_eq!(sorted_positions(&records), vec![3, 1, 2, 4, 0]);
    assert_eq!(names(&sort_records(&records)), vec!["Amy", "BOB", "bob", "Bob", "Zed"]);
}

#[test]
fn keys_are_compared_byte_by_byte() {
    let records = vec![
        record("e", "é"),
        record("d", "z"),
        record("c", "ab"),
        record("b", "a"),
        record("a", ""),
        record("f", "B"),
    ];
    assert_eq!(names(&sort_records(&records)), vec!["a", "f", "b", "c", "d", "e"]);
}

#[test]
fn sorted_keys_never_decrease() {
    let mut records = Vec::new();
    let mut seed: u32 = 12345;
    for i in 0..500 {
        seed = seed.wrapping_mul(1103515245).wrapping_add(12345);
        let key = format!("{}", (seed >> 16) % 97);
        records.push(record(&format!("p{}", i), &key));
    }
    let sorted = sort_records(&records);
    assert_eq!(sorted.len(), records.len());
    for pair in sorted.windows(2) {
        assert!(pair[0].sort_key.as_bytes() <= pair[1].sort_key.as_bytes());
        if pair[0].sort_key == pair[1].sort_key {
            let a: usize = pair[0].display_name[1..].parse().unwrap();
            let b: usize = pair[1].display_name[1..].parse().unwrap();
            assert!(a < b);
        }
    }
    let mut expected = records.clone();
    expected.sort_by(|a, b| a.sort_key.cmp(&b.sort_key));
    assert_eq!(sorted, expected);
}

#[test]
fn nothing_and_one_record_sort_to_themselves() {
    assert_eq!(sort_records(&vec![]), vec![]);
    let one = vec![record("x", "x")];
    assert_eq!(sort_records(&one), one);
}

#[test]
fn key_order_is_dictionary_order_of_bytes() {
    assert!(key_le("", ""));
    assert!(key_le("", "a"));
    assert!(!key_le("a", ""));
    assert!(key_le("a", "ab"));
    assert!(!key_le("ab", "a"));
    assert!(key_le("ab", "b"));
    assert!(key_le("z", "é"));
    assert!(!key_le("é", "z"));
    assert!(key_le("same", "same"));
}
