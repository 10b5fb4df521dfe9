use leaderboard_index::builder::{build_index, build_index_with};
use leaderboard_index::error::BuildError;
use leaderboard_index::prefix_cache::PrefixCacheEntry;
use leaderboard_index::reader::{
    read_header, read_le32, read_rank, read_record, read_record_at, read_text, read_varint,
    IndexHeader, StoredRecord,
};
use leaderboard_index::record::{Category, CategoryList, PlayerRecord, RankInfo};
use leaderboard_index::tally::{Tally, TopPlayer};
use leaderboard_index::writer::{
    encode_index, fits, patch_le32, put_bytes, put_cache, put_entry, put_le32, put_member,
    put_rank, put_record, put_records, put_text, put_zeros, records_fit,
};

fn list(category: Category, entries: &[(&str, u32)]) -> CategoryList {
    CategoryList {
        category,
        entries: entries.iter().map(|(name, value)| (name.to_string(), *value)).collect(),
    }
}

fn record(name: &str, value: u32) -> PlayerRecord {
    let mut r = PlayerRecord::new(name.to_string(), name.to_lowercase());
    r.overall = RankInfo { value, position: 1 };
    r
}

fn entry(prefix: &str, count: u32, players: &[(&str, u32)]) -> PrefixCacheEntry {
    PrefixCacheEntry {
        prefix: prefix.to_string(),
        tally: Tally {
            count,
            top: players
                .iter()
                .map(|(name, value)| TopPlayer { name: name.to_string(), value: *value })
                .collect(),
        },
    }
}

#[test]
fn no_records_give_a_well_formed_file() {
    let file = build_index(&vec![], 7).unwrap();
    assert_eq!(
        file,
        vec![1, 0, 0, 0, 7, 0, 0, 0, 0, 0, 0, 0, 20, 0, 0, 0, 0, 0, 0, 0, 0, 0, 0, 0]
    );
    assert_eq!(
        read_header(&file),
        Some(IndexHeader { version: 1, aggregate: 7, record_count: 0, cache_offset: 20 })
    );
    assert_eq!(read_le32(&file, 20), Some(0));
    assert_eq!(read_record(&file, 0), None);
}

#[test]
fn one_record_file_byte_for_byte() {
    let file = build_index_with(&vec![list(Category::Overall, &[("ab", 300)])], 5, 1).unwrap();
    let expected: Vec<u8> = vec![
        1, 0, 0, 0, // version
        5, 0, 0, 0, // aggregate
        1, 0, 0, 0, // record count
        40, 0, 0, 0, // cache offset
        24, 0, 0, 0, // pointer to record 0
        0, 0, 0, 0, // reserved
        2, 97, 98, 0xac, 0x02, 1, 0, 0, 0, 0, 0, 0, 0, 0, 0, 0, // record
        2, 0, 0, 0, // cache entries
        1, 97, 1, 2, 97, 98, 0xac, 0x02, // "a"
        2, 97, 98, 1, 2, 97, 98, 0xac, 0x02, // "ab"
    ];
    assert_eq!(file, expected);
}

#[test]
fn example_file_has_three_pointers_in_sorted_order() {
    let lists = vec![list(Category::Overall, &[("bob", 100), ("Alice", 50), ("bobby", 75)])];
    let file = build_index(&lists, 225).unwrap();
    let header = read_header(&file).unwrap();
    assert_eq!(header.version, 1);
    assert_eq!(header.aggregate, 225);
    assert_eq!(header.record_count, 3);
    let first = read_le32(&file, 16).unwrap();
    let second = read_le32(&file, 20).unwrap();
    let third = read_le32(&file, 24).unwrap();
    assert_eq!(first, 32);
    assert!(first < second && second < third && third < header.cache_offset);
    let names: Vec<Vec<u8>> = (0..3).map(|i| read_record(&file, i).unwrap().name).collect();
    assert_eq!(names, vec![b"Alice".to_vec(), b"bob".to_vec(), b"bobby".to_vec()]);
    assert_eq!(read_record(&file, 1).unwrap().overall, RankInfo { value: 100, position: 1 });
    assert_eq!(read_record(&file, 3), None);
    assert_eq!(read_le32(&file, header.cache_offset as usize), Some(0));
    assert_eq!(file.len(), header.cache_offset as usize + 4);
}

#[test]
fn every_record_reads_back_through_the_pointer_table() {
    let lists = vec![
        list(Category::Overall, &[("Zoë", 4_000_000_000), ("amy", 128), ("Bob", 127), ("", 1)]),
        list(Category::Weekly, &[("Bob", 16384), ("cy", 16383)]),
        list(Category::OverallRank, &[("amy", 0)]),
        list(Category::Yearly, &[("cy", u32::MAX)]),
    ];
    let file = build_index_with(&lists, 0, 1).unwrap();
    let absent = RankInfo { value: 0, position: 0 };
    let expected = vec![
        StoredRecord {
            name: vec![],
            overall: RankInfo { value: 1, position: 4 },
            overall_rank: absent,
            team: absent,
            weekly: absent,
            monthly: absent,
            yearly: absent,
        },
        StoredRecord {
            name: b"amy".to_vec(),
            overall: RankInfo { value: 128, position: 2 },
            overall_rank: RankInfo { value: 0, position: 1 },
            team: absent,
            weekly: absent,
            monthly: absent,
            yearly: absent,
        },
        StoredRecord {
            name: b"Bob".to_vec(),
            overall: RankInfo { value: 127, position: 3 },
            overall_rank: absent,
            team: absent,
            weekly: RankInfo { value: 16384, position: 1 },
            monthly: absent,
            yearly: absent,
        },
        StoredRecord {
            name: b"cy".to_vec(),
            overall: absent,
            overall_rank: absent,
            team: absent,
            weekly: RankInfo { value: 16383, position: 2 },
            monthly: absent,
            yearly: RankInfo { value: u32::MAX, position: 1 },
        },
        StoredRecord {
            name: "Zoë".as_bytes().to_vec(),
            overall: RankInfo { value: 4_000_000_000, position: 1 },
            overall_rank: absent,
            team: absent,
            weekly: absent,
            monthly: absent,
            yearly: absent,
        },
    ];
    assert_eq!(read_header(&file).unwrap().record_count, 5);
    for (i, want) in expected.iter().enumerate() {
        assert_eq!(read_record(&file, i as u32).as_ref(), Some(want));
    }
}

#[test]
fn building_twice_gives_the_same_bytes() {
    let lists = vec![
        list(Category::Overall, &[("Bob", 3), ("bob", 2), ("BOB", 1), ("amy", 9)]),
        list(Category::Team, &[("BOB", 5), ("cy", 4)]),
    ];
    let first = build_index_with(&lists, 11, 2);
    let second = build_index_with(&lists.clone(), 11, 2);
    assert!(first.is_ok());
    assert_eq!(first, second);
    let file = first.unwrap();
    let names: Vec<Vec<u8>> = (0..5).map(|i| read_record(&file, i).unwrap().name).collect();
    assert_eq!(
        names,
        vec![b"amy".to_vec(), b"Bob".to_vec(), b"bob".to_vec(), b"BOB".to_vec(), b"cy".to_vec()]
    );
}

#[test]
fn cache_region_follows_the_records() {
    let file = encode_index(
        9,
        &vec![record("a", 1)],
        &vec![entry("p", 10000, &[("x", 200), ("yy", 3)]), entry("q", 12000, &[])],
    )
    .unwrap();
    let header = read_header(&file).unwrap();
    let at = header.cache_offset as usize;
    assert_eq!(at, 24 + 14);
    assert_eq!(
        file[at..].to_vec(),
        vec![2, 0, 0, 0, 1, b'p', 2, 1, b'x', 0xc8, 0x01, 2, b'y', b'y', 3, 1, b'q', 0]
    );
}

#[test]
fn long_name_is_refused() {
    let long = "x".repeat(256);
    let lists = vec![list(Category::Overall, &[("ok", 1), (long.as_str(), 2)])];
    assert_eq!(build_index(&lists, 0), Err(BuildError::NameTooLong));
    let longest = "x".repeat(255);
    let file = build_index(&vec![list(Category::Overall, &[(longest.as_str(), 2)])], 0).unwrap();
    assert_eq!(read_record(&file, 0).unwrap().name, longest.as_bytes().to_vec());
    assert_eq!(
        encode_index(0, &vec![], &vec![entry("p", 1, &[(long.as_str(), 1)])]),
        Err(BuildError::NameTooLong)
    );
    assert!(!records_fit(&vec![record("a", 1), record(&long, 1)]));
    assert!(records_fit(&vec![record("a", 1), record(&longest, 1)]));
    assert!(fits(&longest));
    assert!(!fits("é".repeat(128).as_str()));
}

#[test]
fn long_prefix_is_refused() {
    let long = "p".repeat(256);
    assert_eq!(
        encode_index(0, &vec![], &vec![entry(long.as_str(), 1, &[])]),
        Err(BuildError::PrefixTooLong)
    );
    let mut key = String::from("e");
    for _ in 0..130 {
        key.push('\u{301}');
    }
    let mut r = PlayerRecord::new("e".to_string(), key);
    r.overall = RankInfo { value: 1, position: 1 };
    let cache = leaderboard_index::prefix_pass::build_prefix_cache(&vec![r.duplicate()], 1);
    assert_eq!(cache.len(), 1);
    assert_eq!(cache[0].prefix.len(), 261);
    assert_eq!(encode_index(0, &vec![r], &cache), Err(BuildError::PrefixTooLong));
}

#[test]
fn name_error_comes_before_prefix_error() {
    let long = "p".repeat(256);
    assert_eq!(
        encode_index(0, &vec![record(&long, 1)], &vec![entry(long.as_str(), 1, &[])]),
        Err(BuildError::NameTooLong)
    );
}

#[test]
fn top_list_too_long_for_its_length_byte_is_refused() {
    let players: Vec<(&str, u32)> = (0..256).map(|_| ("x", 1)).collect();
    assert_eq!(
        encode_index(0, &vec![], &vec![entry("p", 256, &players)]),
        Err(BuildError::TooLarge)
    );
    let players: Vec<(&str, u32)> = (0..255).map(|_| ("x", 1)).collect();
    assert!(encode_index(0, &vec![], &vec![entry("p", 255, &players)]).is_ok());
}

#[test]
fn error_messages_name_the_cause() {
    assert_eq!(BuildError::CategoryTooLong.message(), "a category list has too many entries");
    assert_eq!(BuildError::NameTooLong.message(), "a display name is longer than 255 bytes");
    assert_eq!(BuildError::PrefixTooLong.message(), "a cached prefix is longer than 255 bytes");
    assert_eq!(BuildError::TooLarge.message(), "the index does not fit 32-bit offsets");
}

#[test]
fn writer_pieces_append_what_they_say() {
    let mut buf = vec![9u8];
    put_bytes(&mut buf, &[1, 2]);
    put_zeros(&mut buf, 2);
    put_le32(&mut buf, 0x0403_0201);
    assert_eq!(buf, vec![9, 1, 2, 0, 0, 1, 2, 3, 4]);
    patch_le32(&mut buf, 3, 0xa0b0_c0d0);
    assert_eq!(buf, vec![9, 1, 2, 0xd0, 0xc0, 0xb0, 0xa0, 3, 4]);

    let mut buf = Vec::new();
    put_text(&mut buf, "é!");
    assert_eq!(buf, vec![3, 0xc3, 0xa9, b'!']);

    let mut buf = Vec::new();
    put_rank(&mut buf, RankInfo { value: 300, position: 128 });
    assert_eq!(buf, vec![0xac, 0x02, 0x80, 0x01]);

    let mut buf = Vec::new();
    put_rank(&mut buf, RankInfo { value: u32::MAX, position: 0 });
    assert_eq!(buf, vec![0xff, 0xff, 0xff, 0xff, 0x0f, 0]);

    let mut buf = Vec::new();
    put_member(&mut buf, &TopPlayer { name: "ab".to_string(), value: 127 });
    assert_eq!(buf, vec![2, b'a', b'b', 127]);

    let mut buf = Vec::new();
    put_entry(&mut buf, &entry("p", 3, &[("a", 2), ("b", 1)]));
    assert_eq!(buf, vec![1, b'p', 2, 1, b'a', 2, 1, b'b', 1]);

    let mut buf = Vec::new();
    put_cache(&mut buf, &vec![entry("p", 3, &[])]);
    assert_eq!(buf, vec![1, 0, 0, 0, 1, b'p', 0]);

    let mut r = record("n", 1);
    r.yearly = RankInfo { value: 2, position: 3 };
    let mut buf = Vec::new();
    put_record(&mut buf, &r);
    assert_eq!(buf, vec![1, b'n', 1, 1, 0, 0, 0, 0, 0, 0, 0, 0, 2, 3]);

    let mut buf = vec![0u8; 5];
    let offsets = put_records(&mut buf, &vec![record("a", 1), record("bc", 2)]);
    assert_eq!(offsets, vec![5, 19]);
    assert_eq!(buf.len(), 5 + 14 + 15);
}

#[test]
fn reader_pieces_refuse_what_is_cut_short() {
    assert_eq!(read_le32(&[1, 2, 3], 0), None);
    assert_eq!(read_le32(&[1, 2, 3, 4, 5], 2), None);
    assert_eq!(read_le32(&[1, 2, 3, 4, 5], 1), Some(0x0504_0302));
    assert_eq!(read_le32(&[1, 2, 3, 4], 9), None);
    assert_eq!(read_varint(&[0x80, 0x80], 0), None);
    assert_eq!(read_varint(&[5, 0xac, 0x02], 1), Some((300, 3)));
    assert_eq!(read_text(&[2, b'a'], 0), None);
    assert_eq!(read_text(&[9, 2, b'a', b'b', 7], 1), Some((b"ab".to_vec(), 4)));
    assert_eq!(read_text(&[0], 0), Some((vec![], 1)));
    assert_eq!(read_text(&[], 0), None);
    assert_eq!(read_rank(&[1], 0), None);
    assert_eq!(read_rank(&[1, 0x80, 0x01], 0), Some((RankInfo { value: 1, position: 128 }, 3)));
    assert_eq!(read_header(&[0; 15]), None);
    let whole = vec![1, b'n', 1, 1, 0, 0, 0, 0, 0, 0, 0, 0, 2, 3];
    assert_eq!(read_record_at(&whole[..13], 0), None);
    let (stored, next) = read_record_at(&whole, 0).unwrap();
    assert_eq!(next, 14);
    assert_eq!(stored.name, b"n".to_vec());
    assert_eq!(stored.yearly, RankInfo { value: 2, position: 3 });
}

#[test]
fn reader_refuses_pointers_that_lead_nowhere() {
    let mut file = build_index(&vec![list(Category::Overall, &[("ab", 300)])], 5).unwrap();
    assert!(read_record(&file, 0).is_some());
    file[16] = 0xff;
    file[17] = 0xff;
    assert_eq!(read_record(&file, 0), None);
    let short = file[..18].to_vec();
    assert_eq!(read_record(&short, 0), None);
}
