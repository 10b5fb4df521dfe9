use leaderboard_index::error::BuildError;
use leaderboard_index::record::{normalize, Category, CategoryList, PlayerRecord, RankInfo, Roster};

fn list(category: Category, entries: &[(&str, u32)]) -> CategoryList {
    CategoryList {
        category,
        entries: entries.iter().map(|(name, value)| (name.to_string(), *value)).collect(),
    }
}

#[test]
fn positions_follow_input_order() {
    let records = normalize(&vec![list(Category::Overall, &[("bob", 100), ("Alice", 50), ("bobby", 75)])])
        .unwrap();
    assert_eq!(records.len(), 3);
    assert_eq!(records[0].display_name, "bob");
    assert_eq!(records[0].overall, RankInfo { value: 100, position: 1 });
    assert_eq!(records[1].display_name, "Alice");
    assert_eq!(records[1].overall, RankInfo { value: 50, position: 2 });
    assert_eq!(records[2].display_name, "bobby");
    assert_eq!(records[2].overall, RankInfo { value: 75, position: 3 });
}

#[test]
fn sort_key_is_lowercase_of_display_name() {
    let records = normalize(&vec![list(Category::Overall, &[("Alice", 50), ("ÉMILE", 1)])]).unwrap();
    assert_eq!(records[0].display_name, "Alice");
    assert_eq!(records[0].sort_key, "alice");
    assert_eq!(records[1].display_name, "ÉMILE");
    assert_eq!(records[1].sort_key, "émile");
}

#[test]
fn categories_merge_into_one_record_per_player() {
    let lists = vec![
        list(Category::Overall, &[("ann", 900), ("ben", 800)]),
        list(Category::Weekly, &[("ben", 30), ("cid", 20)]),
        list(Category::Monthly, &[("cid", 70)]),
        list(Category::Yearly, &[("ann", 400)]),
        list(Category::Team, &[("ben", 5), ("ann", 4)]),
        list(Category::OverallRank, &[("cid", 12), ("ann", 11), ("ben", 10)]),
    ];
    let records = normalize(&lists).unwrap();
    assert_eq!(records.len(), 3);
    let absent = RankInfo { value: 0, position: 0 };
    assert_eq!(
        records[0],
        PlayerRecord {
            display_name: "ann".to_string(),
            sort_key: "ann".to_string(),
            overall: RankInfo { value: 900, position: 1 },
            overall_rank: RankInfo { value: 11, position: 2 },
            team: RankInfo { value: 4, position: 2 },
            weekly: absent,
            monthly: absent,
            yearly: RankInfo { value: 400, position: 1 },
        }
    );
    assert_eq!(
        records[1],
        PlayerRecord {
            display_name: "ben".to_string(),
            sort_key: "ben".to_string(),
            overall: RankInfo { value: 800, position: 2 },
            overall_rank: RankInfo { value: 10, position: 3 },
            team: RankInfo { value: 5, position: 1 },
            weekly: RankInfo { value: 30, position: 1 },
            monthly: absent,
            yearly: absent,
        }
    );
    assert_eq!(
        records[2],
        PlayerRecord {
            display_name: "cid".to_string(),
            sort_key: "cid".to_string(),
            overall: absent,
            overall_rank: RankInfo { value: 12, position: 1 },
            team: absent,
            weekly: RankInfo { value: 20, position: 2 },
            monthly: RankInfo { value: 70, position: 1 },
            yearly: absent,
        }
    );
}

#[test]
fn names_differing_in_case_are_different_players() {
    let records = normalize(&vec![list(Category::Overall, &[("Bob", 2), ("bob", 1)])]).unwrap();
    assert_eq!(records.len(), 2);
    assert_eq!(records[0].display_name, "Bob");
    assert_eq!(records[1].display_name, "bob");
    assert_eq!(records[0].sort_key, records[1].sort_key);
}

#[test]
fn later_entry_of_a_category_replaces_the_earlier() {
    let lists = vec![
        list(Category::Overall, &[("ann", 9), ("ben", 8), ("ann", 7)]),
        list(Category::Overall, &[("ben", 6)]),
    ];
    let records = normalize(&lists).unwrap();
    assert_eq!(records.len(), 2);
    assert_eq!(records[0].overall, RankInfo { value: 7, position: 3 });
    assert_eq!(records[1].overall, RankInfo { value: 6, position: 1 });
}

#[test]
fn no_lists_give_no_records() {
    assert_eq!(normalize(&vec![]), Ok::<Vec<PlayerRecord>, BuildError>(vec![]));
    assert_eq!(normalize(&vec![list(Category::Team, &[])]).unwrap().len(), 0);
}

#[test]
fn roster_finds_what_was_added() {
    let mut roster = Roster::new();
    assert_eq!(roster.find("ann"), None);
    assert_eq!(roster.add("ann".to_string(), "ann".to_string()), 0);
    assert_eq!(roster.add("Ben".to_string(), "ben".to_string()), 1);
    assert_eq!(roster.find("Ben"), Some(1));
    assert_eq!(roster.find("ben"), None);
    roster.set_rank(1, Category::Weekly, RankInfo { value: 3, position: 1 });
    let records = roster.into_records();
    assert_eq!(records[1].rank(Category::Weekly), RankInfo { value: 3, position: 1 });
    assert_eq!(records[1].rank(Category::Monthly), RankInfo::default());
    assert_eq!(records[0].duplicate(), records[0]);
}
