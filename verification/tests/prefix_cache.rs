use leaderboard_index::cache_map::PrefixCache;
use leaderboard_index::prefix_cache::PrefixCacheEntry;
use leaderboard_index::prefix_pass::{build_prefix_cache, POPULARITY_THRESHOLD};
use leaderboard_index::prefixes::{decoration, prefix_pair_of, prefixes_of};
use leaderboard_index::record::{PlayerRecord, RankInfo};
use leaderboard_index::tally::{Tally, TopPlayer};

fn record(name: &str, value: u32) -> PlayerRecord {
    let mut r = PlayerRecord::new(name.to_string(), name.to_lowercase());
    r.overall = RankInfo { value, position: 1 };
    r
}

fn top(players: &[(&str, u32)]) -> Vec<TopPlayer> {
    players.iter().map(|(name, value)| TopPlayer { name: name.to_string(), value: *value }).collect()
}

fn entry(prefix: &str, count: u32, players: &[(&str, u32)]) -> PrefixCacheEntry {
    PrefixCacheEntry { prefix: prefix.to_string(), tally: Tally { count, top: top(players) } }
}

#[test]
fn example_prefix_b_holds_bob_then_bobby() {
    let sorted = vec![record("Alice", 50), record("bob", 100), record("bobby", 75)];
    let cache = build_prefix_cache(&sorted, 2);
    assert_eq!(
        cache,
        vec![
            entry("b", 2, &[("bob", 100), ("bobby", 75)]),
            entry("bo", 2, &[("bob", 100), ("bobby", 75)]),
        ]
    );
}

#[test]
fn default_threshold_keeps_only_popular_prefixes() {
    assert_eq!(POPULARITY_THRESHOLD, 10000);
    let mut sorted = Vec::new();
    sorted.push(record("a", 1));
    for i in 0..10000u32 {
        sorted.push(record(&format!("b{:05}", i), i));
    }
    sorted.push(record("c", 1));
    let cache = build_prefix_cache(&sorted, POPULARITY_THRESHOLD);
    assert_eq!(cache.len(), 2);
    assert_eq!(cache[0].prefix, "b");
    assert_eq!(cache[1].prefix, "b0");
    let best: Vec<(String, u32)> = (0..10u32).map(|k| (format!("b{:05}", 9999 - k), 9999 - k)).collect();
    for entry in cache.iter() {
        assert!(entry.tally.count >= POPULARITY_THRESHOLD);
        assert_eq!(entry.tally.count, 10000);
        let got: Vec<(String, u32)> = entry.tally.top.iter().map(|p| (p.name.clone(), p.value)).collect();
        assert_eq!(got, best);
    }
}

#[test]
fn one_record_short_of_the_threshold_is_dropped() {
    let mut sorted = Vec::new();
    for i in 0..9999u32 {
        sorted.push(record(&format!("b{:05}", i), i));
    }
    assert_eq!(build_prefix_cache(&sorted, POPULARITY_THRESHOLD), vec![]);
}

#[test]
fn first_record_of_a_group_is_counted() {
    let sorted = vec![record("a1", 1), record("b1", 5), record("b2", 6), record("c1", 9)];
    let cache = build_prefix_cache(&sorted, 2);
    assert_eq!(cache, vec![entry("b", 2, &[("b2", 6), ("b1", 5)])]);
}

#[test]
fn top_list_is_cut_to_ten_and_ties_keep_record_order() {
    let mut sorted = Vec::new();
    for i in 0..12u32 {
        sorted.push(record(&format!("x{:02}", i), 7));
    }
    sorted.push(record("x99", 8));
    sorted.push(record("xa", 1));
    let cache = build_prefix_cache(&sorted, 14);
    assert_eq!(cache.len(), 1);
    assert_eq!(cache[0].prefix, "x");
    assert_eq!(cache[0].tally.count, 14);
    let names: Vec<&str> = cache[0].tally.top.iter().map(|p| p.name.as_str()).collect();
    assert_eq!(names, vec!["x99", "x00", "x01", "x02", "x03", "x04", "x05", "x06", "x07", "x08"]);
    let mut values: Vec<u32> = cache[0].tally.top.iter().map(|p| p.value).collect();
    assert!(cache[0].tally.top.len() <= 10);
    let as_written = values.clone();
    values.sort_by(|a, b| b.cmp(a));
    assert_eq!(values, as_written);
}

#[test]
fn empty_keys_are_counted_under_no_prefix() {
    let sorted = vec![PlayerRecord::new("".to_string(), "".to_string()), record("a", 3)];
    assert_eq!(build_prefix_cache(&sorted, 1), vec![entry("a", 1, &[("a", 3)])]);
    assert_eq!(build_prefix_cache(&vec![], 0), vec![]);
}

#[test]
fn display_names_go_into_the_top_list() {
    let mut r = PlayerRecord::new("Émile".to_string(), "émile".to_string());
    r.overall = RankInfo { value: 4, position: 1 };
    let cache = build_prefix_cache(&vec![r], 1);
    assert_eq!(cache, vec![entry("é", 1, &[("Émile", 4)]), entry("ém", 1, &[("Émile", 4)])]);
}

#[test]
fn multi_codepoint_cluster_is_one_prefix_unit() {
    assert_eq!(prefixes_of("e\u{301}xy"), vec!["e\u{301}".to_string(), "e\u{301}x".to_string()]);
    let family = "\u{1F468}\u{200D}\u{1F469}\u{200D}\u{1F467}";
    assert_eq!(prefixes_of(&format!("{}z", family)), vec![family.to_string(), format!("{}z", family)]);
    assert_eq!(
        prefixes_of("\u{1F1E9}\u{1F1EA}\u{1F1EB}\u{1F1F7}"),
        vec!["\u{1F1E9}\u{1F1EA}".to_string(), "\u{1F1E9}\u{1F1EA}\u{1F1EB}\u{1F1F7}".to_string()]
    );
}

#[test]
fn prefixes_of_plain_keys() {
    assert_eq!(prefixes_of(""), Vec::<String>::new());
    assert_eq!(prefixes_of("a"), vec!["a".to_string()]);
    assert_eq!(prefixes_of("bob"), vec!["b".to_string(), "bo".to_string()]);
}

#[test]
fn decorated_keys_are_counted_under_the_decoration_too() {
    assert_eq!(
        prefixes_of("(1)bob"),
        vec!["(".to_string(), "(1".to_string(), "(1)".to_string(), "(1)b".to_string()]
    );
    assert_eq!(
        prefixes_of("[d]"),
        vec!["[".to_string(), "[d".to_string(), "[d]".to_string()]
    );
    assert_eq!(prefixes_of("[D]x"), vec!["[".to_string(), "[D".to_string()]);
    assert_eq!(decoration("(1)"), Some("(1)"));
    assert_eq!(decoration("[d]é"), Some("[d]"));
    assert_eq!(decoration("(1"), None);
    assert_eq!(decoration("(2)x"), None);
    assert_eq!(decoration(""), None);
    assert_eq!(decoration("é(1)"), None);
}

#[test]
fn prefix_pair_joins_base_and_cluster() {
    assert_eq!(prefix_pair_of("ab", None), vec!["ab".to_string()]);
    assert_eq!(prefix_pair_of("ab", Some("c")), vec!["ab".to_string(), "abc".to_string()]);
}

#[test]
fn cache_keeps_first_seen_order_and_evicts_in_place() {
    let mut cache = PrefixCache::new();
    cache.touch("b", "bob", 3);
    cache.touch("a", "amy", 9);
    cache.touch("b", "ben", 5);
    cache.touch("c", "cid", 1);
    cache.touch("c", "cat", 1);
    assert_eq!(cache.len(), 3);
    assert_eq!(
        cache.entries(),
        vec![
            entry("b", 2, &[("ben", 5), ("bob", 3)]),
            entry("a", 1, &[("amy", 9)]),
            entry("c", 2, &[("cid", 1), ("cat", 1)]),
        ]
    );
    cache.evict(2);
    assert_eq!(
        cache.entries(),
        vec![entry("b", 2, &[("ben", 5), ("bob", 3)]), entry("c", 2, &[("cid", 1), ("cat", 1)])]
    );
    cache.touch_all(&vec!["c".to_string(), "d".to_string()], "dan", 2);
    assert_eq!(
        cache.entries(),
        vec![
            entry("b", 2, &[("ben", 5), ("bob", 3)]),
            entry("c", 3, &[("dan", 2), ("cid", 1), ("cat", 1)]),
            entry("d", 1, &[("dan", 2)]),
        ]
    );
    cache.evict(4);
    assert_eq!(cache.entries(), vec![]);
}

#[test]
fn tally_puts_a_player_behind_equal_values() {
    let mut tally = Tally::new();
    tally.add(TopPlayer { name: "a".to_string(), value: 5 });
    tally.add(TopPlayer { name: "b".to_string(), value: 9 });
    tally.add(TopPlayer { name: "c".to_string(), value: 5 });
    tally.add(TopPlayer { name: "d".to_string(), value: 7 });
    assert_eq!(tally, Tally { count: 4, top: top(&[("b", 9), ("d", 7), ("a", 5), ("c", 5)]) });
    assert_eq!(tally.duplicate(), tally);
}
