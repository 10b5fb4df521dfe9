//! The index builder: category lists in, the bytes of the index file out.

use crate::error::BuildError;
use crate::layout::{cache_offset, encode_error, index_bytes, zeros, FORMAT_VERSION};
use crate::prefix_cache::PrefixCacheEntryView;
use crate::prefix_pass::{
    build_prefix_cache, lemma_prefix_cache_entries, prefix_cache, POPULARITY_THRESHOLD,
};
use crate::tally::is_top_list;
use crate::reader::{parse_header, parse_record, IndexHeader};
use crate::cache_reader::parse_cache;
use crate::roundtrip::{
    lemma_read_back_cache, lemma_read_back_header, lemma_read_back_record, stored_cache,
    stored_view,
};
use crate::record::{
    has_name, is_listed, lemma_normalized_one_record_per_player, list_views, lists_fit,
    names_distinct, normalize, normalized, rank_of, Category, CategoryList, CategoryListView,
    PlayerRecordView,
};
use crate::sort::{
    lemma_sorted_records_in_key_order, lemma_sorted_records_same_records,
    lemma_stable_order_exists, sort_keys, sort_records, sorted_records, stable_order,
};
use crate::text::{bytes_le, lowercase_of};
use vstd::bytes::spec_u32_to_le_bytes;
use vstd::utf8::encode_utf8;
use crate::writer::{encode_index, MAX_RECORDS};
use vstd::prelude::*;

verus! {

/// The records of the index of `lists`: one for each player, sorted by key.
pub open spec fn index_records(lists: Seq<CategoryListView>) -> Seq<PlayerRecordView> {
    sorted_records(normalized(lists))
}

/// The index file of `lists`, or why there is none: a list is too long for
/// 32-bit positions, there are more records than a pointer table can hold
/// below 4 GiB, or the records and their prefix cache have no file.
pub open spec fn index_file(lists: Seq<CategoryListView>, aggregate: u32, threshold: nat) -> Result<
    Seq<u8>,
    BuildError,
> {
    let records = index_records(lists);
    let cache = prefix_cache(records, threshold);
    if !lists_fit(lists) {
        Err(BuildError::CategoryTooLong)
    } else if records.len() > MAX_RECORDS {
        Err(BuildError::TooLarge)
    } else {
        match encode_error(records, cache) {
            Some(e) => Err(e),
            None => Ok(index_bytes(aggregate, records, cache)),
        }
    }
}

/// Whether `outcome` is what building the index of `lists` gives.
pub open spec fn is_build_outcome(
    lists: Seq<CategoryListView>,
    aggregate: u32,
    threshold: nat,
    outcome: Result<Vec<u8>, BuildError>,
) -> bool {
    match outcome {
        Ok(bytes) => index_file(lists, aggregate, threshold) == Ok::<Seq<u8>, BuildError>(bytes@),
        Err(e) => index_file(lists, aggregate, threshold) == Err::<Seq<u8>, BuildError>(e),
    }
}

/// Building twice from the same input gives the same bytes, or the same
/// error.
pub proof fn lemma_build_is_repeatable(
    lists: Seq<CategoryListView>,
    aggregate: u32,
    threshold: nat,
    first: Result<Vec<u8>, BuildError>,
    second: Result<Vec<u8>, BuildError>,
)
    requires
        is_build_outcome(lists, aggregate, threshold, first),
        is_build_outcome(lists, aggregate, threshold, second),
    ensures
        match (first, second) {
            (Ok(a), Ok(b)) => a@ == b@,
            (Err(a), Err(b)) => a == b,
            _ => false,
        },
{
}

/// The records of the index hold every player named in any list exactly
/// once, each with the lowercase of the name as key and, in each category,
/// the rank of the player's last entry in a list of that category or `{0, 0}`.
pub proof fn lemma_index_records_one_per_player(lists: Seq<CategoryListView>)
    ensures
        names_distinct(index_records(lists)),
        forall|name: Seq<char>| #[trigger]
            has_name(index_records(lists), name) <==> is_listed(lists, name),
        forall|i: int|
            0 <= i < index_records(lists).len() ==> (#[trigger] index_records(lists)[i]).sort_key
                == lowercase_of(index_records(lists)[i].display_name),
        forall|i: int, category: Category|
            0 <= i < index_records(lists).len() ==> #[trigger] index_records(lists)[i].rank(
                category,
            ) == rank_of(lists, category, index_records(lists)[i].display_name),
{
    let input = normalized(lists);
    let output = index_records(lists);
    let order = stable_order(sort_keys(input));
    lemma_normalized_one_record_per_player(lists);
    lemma_sorted_records_same_records(input);
    assert forall|i: int, j: int| 0 <= i < j < output.len() implies (#[trigger] output[i]).display_name
        != (#[trigger] output[j]).display_name by {
        assert(output[i] == input[order[i]] && output[j] == input[order[j]]);
        assert(order[i] != order[j]);
        if order[i] < order[j] {
            assert(input[order[i]].display_name != input[order[j]].display_name);
        } else {
            assert(input[order[j]].display_name != input[order[i]].display_name);
        }
    }
    assert forall|name: Seq<char>| #[trigger]
        has_name(output, name) <==> is_listed(lists, name) by {
        if has_name(output, name) {
            let k = choose|k: int| 0 <= k < output.len() && (#[trigger] output[k]).display_name == name;
            assert(input[order[k]].display_name == name);
            assert(has_name(input, name));
        }
        if has_name(input, name) {
            let i = choose|i: int| 0 <= i < input.len() && (#[trigger] input[i]).display_name == name;
            assert(order.contains(i));
            let k = choose|k: int| 0 <= k < order.len() && order[k] == i;
            assert(output[k].display_name == name);
        }
    }
    assert forall|i: int| 0 <= i < output.len() implies (#[trigger] output[i]).sort_key
        == lowercase_of(output[i].display_name) by {
        assert(output[i] == input[order[i]]);
    }
    assert forall|i: int, category: Category| 0 <= i < output.len() implies #[trigger] output[i].rank(
        category,
    ) == rank_of(lists, category, output[i].display_name) by {
        assert(output[i] == input[order[i]]);
        assert(input[order[i]].rank(category) == rank_of(
            lists,
            category,
            input[order[i]].display_name,
        ));
    }
}

/// The records of the index stand in non-decreasing order of their keys,
/// compared byte by byte.
pub proof fn lemma_index_records_in_key_order(lists: Seq<CategoryListView>)
    ensures
        forall|a: int, b: int|
            0 <= a <= b < index_records(lists).len() ==> bytes_le(
                encode_utf8((#[trigger] index_records(lists)[a]).sort_key),
                encode_utf8((#[trigger] index_records(lists)[b]).sort_key),
            ),
{
    lemma_sorted_records_in_key_order(normalized(lists));
}

/// A file that was built reads back: its header holds the version, the
/// aggregate value and the number of records, and reading record `i` through
/// the pointer table gives the name and the ranks of the record at sorted
/// position `i`.
pub proof fn lemma_index_file_reads_back(
    lists: Seq<CategoryListView>,
    aggregate: u32,
    threshold: nat,
    i: int,
)
    requires
        index_file(lists, aggregate, threshold) is Ok,
        0 <= i < index_records(lists).len(),
    ensures
        parse_header(index_file(lists, aggregate, threshold)->Ok_0) == Some(
            IndexHeader {
                version: FORMAT_VERSION,
                aggregate,
                record_count: index_records(lists).len() as u32,
                cache_offset: cache_offset(index_records(lists)) as u32,
            },
        ),
        parse_record(index_file(lists, aggregate, threshold)->Ok_0, i) == Some(
            stored_view(index_records(lists)[i]),
        ),
{
    let records = index_records(lists);
    let cache = prefix_cache(records, threshold);
    lemma_read_back_header(aggregate, records, cache);
    lemma_read_back_record(aggregate, records, cache, i);
}

/// The prefix-cache region of a file that was built holds the prefix cache of
/// its records: every entry is carried by at least `threshold` records, and
/// its top list has at most ten players, none with a higher value than one
/// before it.
pub proof fn lemma_index_file_cache_reads_back(
    lists: Seq<CategoryListView>,
    aggregate: u32,
    threshold: nat,
)
    requires
        index_file(lists, aggregate, threshold) is Ok,
    ensures
        parse_cache(index_file(lists, aggregate, threshold)->Ok_0) == Some(
            stored_cache(prefix_cache(index_records(lists), threshold)),
        ),
        forall|k: int|
            0 <= k < prefix_cache(index_records(lists), threshold).len() ==> {
                let entry = #[trigger] prefix_cache(index_records(lists), threshold)[k];
                entry.tally.count >= threshold && is_top_list(entry.tally.top)
            },
{
    let records = index_records(lists);
    lemma_read_back_cache(aggregate, records, prefix_cache(records, threshold));
    lemma_prefix_cache_entries(records, threshold);
}

/// Without any list the file is a header with record count zero and the
/// cache offset 20, no pointer table, the reserved bytes, and a cache region
/// without entries.
pub proof fn lemma_empty_index(aggregate: u32, threshold: nat)
    ensures
        index_file(Seq::empty(), aggregate, threshold) == Ok::<Seq<u8>, BuildError>(
            spec_u32_to_le_bytes(FORMAT_VERSION) + spec_u32_to_le_bytes(aggregate)
                + spec_u32_to_le_bytes(0) + spec_u32_to_le_bytes(20) + zeros(4)
                + spec_u32_to_le_bytes(0),
        ),
{
    let lists = Seq::<CategoryListView>::empty();
    let records = index_records(lists);
    lemma_stable_order_exists(sort_keys(normalized(lists)));
    assert(records =~= Seq::<PlayerRecordView>::empty());
    let cache = prefix_cache(records, threshold);
    assert(cache =~= Seq::<PrefixCacheEntryView>::empty()) by {
        reveal(Seq::filter);
    }
    assert(encode_error(records, cache) is None);
    assert(index_bytes(aggregate, records, cache) =~= spec_u32_to_le_bytes(FORMAT_VERSION)
        + spec_u32_to_le_bytes(aggregate) + spec_u32_to_le_bytes(0) + spec_u32_to_le_bytes(20)
        + zeros(4) + spec_u32_to_le_bytes(0));
}

/// Builds the index file of `lists`, keeping the prefixes that at least
/// `threshold` records carry: the lists are merged into one record per player,
/// the records are sorted, and the file is written with the prefix cache of
/// the sorted records.
pub fn build_index_with(lists: &Vec<CategoryList>, aggregate: u32, threshold: u32) -> (r: Result<
    Vec<u8>,
    BuildError,
>)
    ensures
        is_build_outcome(list_views(lists@), aggregate, threshold as nat, r),
{
    let records = match normalize(lists) {
        Ok(records) => records,
        Err(e) => {
            return Err(e);
        },
    };
    let sorted = sort_records(&records);
    if sorted.len() > MAX_RECORDS {
        return Err(BuildError::TooLarge);
    }
    let cache = build_prefix_cache(&sorted, threshold);
    encode_index(aggregate, &sorted, &cache)
}

/// Builds the index file of `lists`, keeping the prefixes that at least 10,000
/// records carry.
pub fn build_index(lists: &Vec<CategoryList>, aggregate: u32) -> (r: Result<Vec<u8>, BuildError>)
    ensures
        is_build_outcome(list_views(lists@), aggregate, POPULARITY_THRESHOLD as nat, r),
{
    build_index_with(lists, aggregate, POPULARITY_THRESHOLD)
}

} // verus!
