use leaderboard_index::builder::build_index_with;
use leaderboard_index::cache_reader::read_prefix_cache;
use leaderboard_index::prefix_cache::PrefixCacheEntry;
use leaderboard_index::prefix_pass::build_prefix_cache;
use leaderboard_index::reader::{read_header, read_record};
use leaderboard_index::record::{normalize, Category, CategoryList, PlayerRecord, RankInfo};
use leaderboard_index::sort::sort_records;
use unicode_segmentation::UnicodeSegmentation;

struct Rng(u64);

impl Rng {
    fn next(&mut self) -> u32 {
        self.0 = self.0.wrapping_mul(6364136223846793005).wrapping_add(1442695040888963407);
        (self.0 >> 33) as u32
    }
}

const PIECES: [&str; 14] =
    ["a", "b", "B", "(1)", "[d]", "é", "e\u{301}", "\u{1F468}\u{200D}\u{1F469}", "(", "1", ")", "İ", "z", ""];

fn random_name(rng: &mut Rng) -> String {
    let mut name = String::new();
    for _ in 0..(rng.next() % 4) {
        name.push_str(PIECES[(rng.next() % 14) as usize]);
    }
    name
}

fn random_lists(rng: &mut Rng, entries: usize) -> Vec<CategoryList> {
    let categories = [
        Category::Overall,
        Category::Weekly,
        Category::Monthly,
        Category::Yearly,
        Category::Team,
        Category::OverallRank,
    ];
    categories
        .iter()
        .map(|category| CategoryList {
            category: *category,
            entries: (0..entries).map(|_| (random_name(rng), rng.next() % 50)).collect(),
        })
        .collect()
}

fn leb128(mut value: u32, out: &mut Vec<u8>) {
    while value >= 128 {
        out.push((value & 0x7f) as u8 | 0x80);
        value >>= 7;
    }
    out.push(value as u8);
}

fn text(bytes: &[u8], out: &mut Vec<u8>) {
    out.push(bytes.len() as u8);
    out.extend_from_slice(bytes);
}

fn plain_prefixes(key: &str) -> Vec<String> {
    let mut all = Vec::new();
    let first = match key.graphemes(true).next() {
        Some(first) => first,
        None => return all,
    };
    all.push(first.to_string());
    if let Some(second) = key[first.len()..].graphemes(true).next() {
        all.push(format!("{}{}", first, second));
    }
    for literal in ["(1)", "[d]"] {
        if key.starts_with(literal) {
            all.push(literal.to_string());
            if let Some(next) = key[literal.len()..].graphemes(true).next() {
                all.push(format!("{}{}", literal, next));
            }
            break;
        }
    }
    all
}

fn plain_cache(sorted: &[PlayerRecord], threshold: u32) -> Vec<(String, u32, Vec<(String, u32)>)> {
    let mut cache: Vec<(String, u32, Vec<(String, u32)>)> = Vec::new();
    let mut group: Option<String> = None;
    for record in sorted {
        let prefixes = plain_prefixes(&record.sort_key);
        if prefixes.is_empty() {
            continue;
        }
        if group.as_ref() != Some(&prefixes[0]) {
            cache.retain(|entry| entry.1 >= threshold);
            group = Some(prefixes[0].clone());
        }
        for prefix in prefixes {
            let at = match cache.iter().position(|entry| entry.0 == prefix) {
                Some(at) => at,
                None => {
                    cache.push((prefix, 0, Vec::new()));
                    cache.len() - 1
                }
            };
            cache[at].1 += 1;
            cache[at].2.push((record.display_name.clone(), record.overall.value));
            cache[at].2.sort_by(|a, b| b.1.cmp(&a.1));
            cache[at].2.truncate(10);
        }
    }
    cache.retain(|entry| entry.1 >= threshold);
    cache
}

fn flatten(cache: &[PrefixCacheEntry]) -> Vec<(String, u32, Vec<(String, u32)>)> {
    cache
        .iter()
        .map(|entry| {
            (
                entry.prefix.clone(),
                entry.tally.count,
                entry.tally.top.iter().map(|p| (p.name.clone(), p.value)).collect(),
            )
        })
        .collect()
}

fn plain_file(aggregate: u32, sorted: &[PlayerRecord], cache: &[(String, u32, Vec<(String, u32)>)]) -> Vec<u8> {
    let mut body = Vec::new();
    let mut offsets = Vec::new();
    let start = 20 + 4 * sorted.len();
    for record in sorted {
        offsets.push((start + body.len()) as u32);
        text(record.display_name.as_bytes(), &mut body);
        for rank in [
            record.overall,
            record.overall_rank,
            record.team,
            record.weekly,
            record.monthly,
            record.yearly,
        ] {
            leb128(rank.value, &mut body);
            leb128(rank.position, &mut body);
        }
    }
    let cache_at = (start + body.len()) as u32;
    let mut file = Vec::new();
    file.extend_from_slice(&1u32.to_le_bytes());
    file.extend_from_slice(&aggregate.to_le_bytes());
    file.extend_from_slice(&(sorted.len() as u32).to_le_bytes());
    file.extend_from_slice(&cache_at.to_le_bytes());
    for offset in offsets {
        file.extend_from_slice(&offset.to_le_bytes());
    }
    file.extend_from_slice(&[0, 0, 0, 0]);
    file.extend_from_slice(&body);
    file.extend_from_slice(&(cache.len() as u32).to_le_bytes());
    for (prefix, _, top) in cache {
        text(prefix.as_bytes(), &mut file);
        file.push(top.len() as u8);
        for (name, value) in top {
            text(name.as_bytes(), &mut file);
            leb128(*value, &mut file);
        }
    }
    file
}

#[test]
fn prefix_cache_agrees_with_a_plain_pass() {
    let mut rng = Rng(7);
    for round in 0..40 {
        let lists = random_lists(&mut rng, 40);
        let sorted = sort_records(&normalize(&lists).unwrap());
        for threshold in [0, 1, 2, 3, 5] {
            let cache = build_prefix_cache(&sorted, threshold);
            assert_eq!(flatten(&cache), plain_cache(&sorted, threshold), "round {}", round);
            for entry in cache.iter() {
                assert!(entry.tally.count >= threshold);
                assert!(entry.tally.top.len() <= 10);
                assert!(entry.tally.top.windows(2).all(|pair| pair[0].value >= pair[1].value));
            }
        }
    }
}

#[test]
fn sorted_records_agree_with_a_stable_sort() {
    let mut rng = Rng(11);
    for _ in 0..40 {
        let lists = random_lists(&mut rng, 60);
        let records = normalize(&lists).unwrap();
        let mut expected = records.clone();
        expected.sort_by(|a, b| a.sort_key.cmp(&b.sort_key));
        assert_eq!(sort_records(&records), expected);
        for record in records.iter() {
            assert_eq!(record.sort_key, record.display_name.to_lowercase());
        }
    }
}

#[test]
fn normalized_records_hold_each_player_once() {
    let mut rng = Rng(13);
    for _ in 0..20 {
        let lists = random_lists(&mut rng, 50);
        let records = normalize(&lists).unwrap();
        for (i, a) in records.iter().enumerate() {
            for b in records.iter().skip(i + 1) {
                assert_ne!(a.display_name, b.display_name);
            }
        }
        for list in lists.iter() {
            for (name, _) in list.entries.iter() {
                assert_eq!(records.iter().filter(|r| r.display_name == *name).count(), 1);
            }
        }
        for record in records.iter() {
            for list in lists.iter() {
                let last = list.entries.iter().rposition(|(name, _)| *name == record.display_name);
                let expected = match last {
                    Some(e) => RankInfo { value: list.entries[e].1, position: e as u32 + 1 },
                    None => RankInfo { value: 0, position: 0 },
                };
                assert_eq!(record.rank(list.category), expected);
            }
        }
    }
}

#[test]
fn file_agrees_with_a_plain_writer_and_reads_back() {
    let mut rng = Rng(17);
    for round in 0..25 {
        let lists = random_lists(&mut rng, 30);
        let aggregate = rng.next();
        let threshold = rng.next() % 4;
        let file = build_index_with(&lists, aggregate, threshold).unwrap();
        let sorted = sort_records(&normalize(&lists).unwrap());
        let cache = plain_cache(&sorted, threshold);
        assert_eq!(file, plain_file(aggregate, &sorted, &cache), "round {}", round);

        let header = read_header(&file).unwrap();
        assert_eq!(header.record_count as usize, sorted.len());
        assert_eq!(header.aggregate, aggregate);
        for (i, record) in sorted.iter().enumerate() {
            let stored = read_record(&file, i as u32).unwrap();
            assert_eq!(stored.name, record.display_name.as_bytes().to_vec());
            assert_eq!(stored.overall, record.overall);
            assert_eq!(stored.overall_rank, record.overall_rank);
            assert_eq!(stored.team, record.team);
            assert_eq!(stored.weekly, record.weekly);
            assert_eq!(stored.monthly, record.monthly);
            assert_eq!(stored.yearly, record.yearly);
        }
        let stored_cache = read_prefix_cache(&file).unwrap();
        assert_eq!(stored_cache.len(), cache.len());
        for (stored, (prefix, _, top)) in stored_cache.iter().zip(cache.iter()) {
            assert_eq!(stored.prefix, prefix.as_bytes().to_vec());
            let players: Vec<(Vec<u8>, u32)> =
                stored.top.iter().map(|p| (p.name.clone(), p.value)).collect();
            let expected: Vec<(Vec<u8>, u32)> =
                top.iter().map(|(name, value)| (name.as_bytes().to_vec(), *value)).collect();
            assert_eq!(players, expected);
        }
    }
}
