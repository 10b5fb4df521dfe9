//! The pass over the sorted records that builds the prefix cache. Records
//! whose keys begin with the same grapheme cluster stand together, so when the
//! cluster changes the prefixes of the clusters before it are complete, and
//! those that too few records carry can be dropped for good.

use crate::cache_map::PrefixCache;
use crate::prefix_cache::{
    counts_within, entry_views, evict, holds_top_lists, lemma_evict_keeps_shape,
    lemma_touch_all_counts, lemma_touch_all_keeps_shape, prefixes_distinct, touch_all,
    PrefixCacheEntry, PrefixCacheEntryView,
};
use crate::prefixes::{lemma_record_prefixes_head, prefixes_of, record_prefixes, string_views};
use crate::record::{record_views, PlayerRecord, PlayerRecordView};
use crate::tally::{is_top_list, TopPlayerView};
use crate::text::first_grapheme;
use vstd::prelude::*;
use vstd::string::*;

verus! {

/// How many records must carry a prefix for it to be kept.
pub const POPULARITY_THRESHOLD: u32 = 10000;

/// The most records that one pass can count: four counts for each fit in 32
/// bits.
pub const MAX_TALLIED: usize = 0x3fff_ffff;

/// Where a pass over the sorted records stands: the cache, and the first
/// grapheme cluster of the last record that had one.
pub ghost struct TallyState {
    pub cache: Seq<PrefixCacheEntryView>,
    pub group: Option<Seq<char>>,
}

/// The state after one more record. A record with an empty key changes
/// nothing. For any other, the entries that fewer than `threshold` records
/// carry are dropped first if the key begins with another cluster than the
/// last one did, and then the record is counted under each of its prefixes,
/// with its overall value for the top lists.
pub open spec fn tally_record(
    state: TallyState,
    record: PlayerRecordView,
    threshold: nat,
) -> TallyState {
    let key = record.sort_key;
    if key.len() == 0 {
        state
    } else {
        let group = first_grapheme(key);
        let kept = if state.group == Some(group) {
            state.cache
        } else {
            evict(state.cache, threshold)
        };
        TallyState {
            cache: touch_all(
                kept,
                record_prefixes(key),
                TopPlayerView { name: record.display_name, value: record.overall.value },
            ),
            group: Some(group),
        }
    }
}

/// The state after the first `n` records.
pub open spec fn tally_records(records: Seq<PlayerRecordView>, n: nat, threshold: nat) -> TallyState
    decreases n,
{
    if n == 0 {
        TallyState { cache: Seq::empty(), group: None }
    } else {
        tally_record(tally_records(records, (n - 1) as nat, threshold), records[n - 1], threshold)
    }
}

/// The prefix cache of `records`: what a pass over all of them leaves, without
/// the entries that fewer than `threshold` records carry.
pub open spec fn prefix_cache(records: Seq<PlayerRecordView>, threshold: nat) -> Seq<
    PrefixCacheEntryView,
> {
    evict(tally_records(records, records.len(), threshold).cache, threshold)
}

/// At every point of a pass the cache holds each prefix once, with a top
/// list.
pub proof fn lemma_tally_records_keep_shape(
    records: Seq<PlayerRecordView>,
    n: nat,
    threshold: nat,
)
    ensures
        prefixes_distinct(tally_records(records, n, threshold).cache),
        holds_top_lists(tally_records(records, n, threshold).cache),
    decreases n,
{
    if n > 0 {
        let before = tally_records(records, (n - 1) as nat, threshold);
        let record = records[n - 1];
        lemma_tally_records_keep_shape(records, (n - 1) as nat, threshold);
        lemma_evict_keeps_shape(before.cache, threshold);
        if record.sort_key.len() > 0 {
            let kept = if before.group == Some(first_grapheme(record.sort_key)) {
                before.cache
            } else {
                evict(before.cache, threshold)
            };
            lemma_touch_all_keeps_shape(
                kept,
                record_prefixes(record.sort_key),
                TopPlayerView { name: record.display_name, value: record.overall.value },
            );
        }
    }
}

/// Every entry of the prefix cache is carried by at least `threshold`
/// records, and its top list holds at most ten players, none with a higher
/// value than one before it. No prefix has two entries.
pub proof fn lemma_prefix_cache_entries(records: Seq<PlayerRecordView>, threshold: nat)
    ensures
        prefixes_distinct(prefix_cache(records, threshold)),
        forall|k: int|
            0 <= k < prefix_cache(records, threshold).len() ==> {
                let entry = #[trigger] prefix_cache(records, threshold)[k];
                entry.tally.count >= threshold && is_top_list(entry.tally.top)
            },
{
    lemma_tally_records_keep_shape(records, records.len(), threshold);
    lemma_evict_keeps_shape(tally_records(records, records.len(), threshold).cache, threshold);
}

/// The view of an optional string.
pub open spec fn optional_string_view(s: Option<String>) -> Option<Seq<char>> {
    match s {
        Some(t) => Some(t@),
        None => None,
    }
}

/// Builds the prefix cache of `records`, which are taken to be sorted, in one
/// pass. Every entry that is returned is carried by at least `threshold`
/// records of the last run of keys that begin with its first cluster, and
/// holds the ten of them with the highest overall values, highest first and,
/// among equal values, in the order of the records.
pub fn build_prefix_cache(records: &Vec<PlayerRecord>, threshold: u32) -> (r: Vec<PrefixCacheEntry>)
    requires
        records@.len() <= MAX_TALLIED,
    ensures
        entry_views(r@) == prefix_cache(record_views(records@), threshold as nat),
        prefixes_distinct(entry_views(r@)),
        forall|k: int|
            0 <= k < r@.len() ==> (#[trigger] r@[k])@.tally.count >= threshold && is_top_list(
                r@[k]@.tally.top,
            ),
{
    let ghost views = record_views(records@);
    let ghost limit = threshold as nat;
    let mut cache = PrefixCache::new();
    let mut group: Option<String> = None;
    let mut k: usize = 0;
    while k < records.len()
        invariant
            k <= records@.len(),
            records@.len() <= MAX_TALLIED,
            views == record_views(records@),
            limit == threshold as nat,
            cache.wf(),
            cache@ == tally_records(views, k as nat, limit).cache,
            optional_string_view(group) == tally_records(views, k as nat, limit).group,
            counts_within(cache@, 4 * k),
        decreases records@.len() - k,
    {
        let record = &records[k];
        assert(views[k as int] == record@);
        let prefixes = prefixes_of(record.sort_key.as_str());
        let ghost state = tally_records(views, k as nat, limit);
        proof {
            lemma_record_prefixes_head(record@.sort_key);
            assert(tally_records(views, (k + 1) as nat, limit) == tally_record(
                state,
                record@,
                limit,
            ));
        }
        if prefixes.len() > 0 {
            let same = match &group {
                Some(g) => *g == prefixes[0],
                None => false,
            };
            assert(string_views(prefixes@)[0] == prefixes@[0]@);
            if !same {
                let ghost before = cache@;
                cache.evict(threshold);
                assert forall|i: int| 0 <= i < cache@.len() implies (#[trigger] cache@[i]).tally.count
                    <= 4 * k by {
                    let w = choose|w: int| 0 <= w < before.len() && before[w] == cache@[i];
                    assert(before[w].tally.count <= 4 * k);
                }
                group = Some(prefixes[0].clone());
            }
            proof {
                lemma_touch_all_counts(
                    cache@,
                    string_views(prefixes@),
                    TopPlayerView { name: record.display_name@, value: record.overall.value },
                    4 * k,
                );
            }
            cache.touch_all(&prefixes, record.display_name.as_str(), record.overall.value);
        }
        k = k + 1;
    }
    cache.evict(threshold);
    let r = cache.entries();
    proof {
        assert forall|k: int| 0 <= k < r@.len() implies (#[trigger] r@[k])@.tally.count >= threshold
            && is_top_list(r@[k]@.tally.top) by {
            assert(entry_views(r@)[k] == r@[k]@);
        }
    }
    r
}

} // verus!
