use leaderboard_index::builder::build_index_with;
use leaderboard_index::cache_reader::{
    find_prefix, read_entry, read_member, read_prefix_cache, same_bytes, StoredEntry, StoredPlayer,
};
use leaderboard_index::record::{Category, CategoryList};

fn player(name: &str, value: u32) -> StoredPlayer {
    StoredPlayer { name: name.as_bytes().to_vec(), value }
}

fn stored(prefix: &str, players: &[(&str, u32)]) -> StoredEntry {
    StoredEntry {
        prefix: prefix.as_bytes().to_vec(),
        top: players.iter().map(|(name, value)| player(name, *value)).collect(),
    }
}

#[test]
fn built_cache_reads_back_in_order() {
    let lists = vec![CategoryList {
        category: Category::Overall,
        entries: vec![
            ("bob".to_string(), 100),
            ("Alice".to_string(), 50),
            ("bobby".to_string(), 75),
            ("Émile".to_string(), 300),
            ("émilie".to_string(), 200),
        ],
    }];
    let file = build_index_with(&lists, 0, 2).unwrap();
    let cache = read_prefix_cache(&file).unwrap();
    assert_eq!(
        cache,
        vec![
            stored("b", &[("bob", 100), ("bobby", 75)]),
            stored("bo", &[("bob", 100), ("bobby", 75)]),
            stored("é", &[("Émile", 300), ("émilie", 200)]),
            stored("ém", &[("Émile", 300), ("émilie", 200)]),
        ]
    );
    assert_eq!(find_prefix(&cache, "bo"), Some(1));
    assert_eq!(find_prefix(&cache, "é"), Some(2));
    assert_eq!(find_prefix(&cache, "e"), None);
    assert_eq!(find_prefix(&cache, "a"), None);
    assert_eq!(find_prefix(&vec![], ""), None);
}

#[test]
fn first_entry_of_a_prefix_is_found() {
    let cache = vec![stored("x", &[]), stored("y", &[("a", 1)]), stored("x", &[("b", 2)])];
    assert_eq!(find_prefix(&cache, "x"), Some(0));
    assert_eq!(find_prefix(&cache, "y"), Some(1));
}

#[test]
fn empty_cache_reads_back_empty() {
    let file = build_index_with(&vec![], 3, 1).unwrap();
    assert_eq!(read_prefix_cache(&file), Some(vec![]));
}

#[test]
fn cut_cache_region_is_refused() {
    let lists = vec![CategoryList {
        category: Category::Overall,
        entries: vec![("ab".to_string(), 300)],
    }];
    let file = build_index_with(&lists, 0, 1).unwrap();
    assert!(read_prefix_cache(&file).is_some());
    for len in 0..file.len() {
        if len >= 44 {
            assert_eq!(read_prefix_cache(&file[..len]), None, "cut at {}", len);
        }
    }
    assert_eq!(read_prefix_cache(&file[..15]), None);
    let mut wrong = file.clone();
    wrong[12] = 0xff;
    wrong[13] = 0xff;
    assert_eq!(read_prefix_cache(&wrong), None);
}

#[test]
fn members_and_entries_read_from_bytes() {
    assert_eq!(read_member(&[2, b'a', b'b', 0xac, 0x02, 9], 0), Some((player("ab", 300), 5)));
    assert_eq!(read_member(&[2, b'a', b'b'], 0), None);
    assert_eq!(read_member(&[2, b'a'], 0), None);
    let bytes = [7, 1, b'p', 2, 1, b'a', 2, 0, 1];
    assert_eq!(read_entry(&bytes, 1), Some((stored("p", &[("a", 2), ("", 1)]), 9)));
    assert_eq!(read_entry(&bytes[..8], 1), None);
    assert_eq!(read_entry(&[1, b'p'], 0), None);
    assert_eq!(read_entry(&[1, b'p', 0], 0), Some((stored("p", &[]), 3)));
}

#[test]
fn byte_strings_compare_by_content() {
    assert!(same_bytes(&[], &[]));
    assert!(same_bytes(&[1, 2], &[1, 2]));
    assert!(!same_bytes(&[1, 2], &[1, 3]));
    assert!(!same_bytes(&[1, 2], &[1]));
}
