//! The layout of the index file. All fixed-width integers are little-endian.
//!
//! | offset          | field                                             |
//! |-----------------|---------------------------------------------------|
//! | 0               | format version (u32)                              |
//! | 4               | aggregate value (u32)                             |
//! | 8               | record count N (u32)                              |
//! | 12              | offset of the prefix-cache region (u32)           |
//! | 16              | pointer table: N offsets of records (u32 each)    |
//! | 16 + 4N         | four reserved bytes, zero                         |
//! | 20 + 4N         | record region                                     |
//! | cache offset    | prefix-cache region                               |
//!
//! A record is its display name, as one length byte and the UTF-8 bytes, and
//! twelve varints: value and position of the overall, overall-rank, team,
//! weekly, monthly and yearly categories. The prefix-cache region is the
//! number of entries (u32) and the entries; an entry is its prefix, as one
//! length byte and the bytes, the length of its top list as one byte, and for
//! each player of the list the name, as one length byte and the bytes, and the
//! value as a varint.

use crate::error::BuildError;
use crate::prefix_cache::PrefixCacheEntryView;
use crate::record::{PlayerRecordView, RankInfo};
use crate::tally::TopPlayerView;
use crate::varint::varint_bytes;
use vstd::bytes::spec_u32_to_le_bytes;
use vstd::prelude::*;
use vstd::utf8::encode_utf8;

verus! {

/// The format version that the builder writes.
pub const FORMAT_VERSION: u32 = 1;

/// The length of the header before the pointer table.
pub const HEADER_LEN: usize = 16;

/// The most bytes that a text with a one-byte length can have.
pub const MAX_TEXT_LEN: usize = 255;

/// `n` zero bytes.
pub open spec fn zeros(n: nat) -> Seq<u8> {
    Seq::new(n, |i: int| 0u8)
}

/// Whether the UTF-8 form of `text` fits a one-byte length.
pub open spec fn text_fits(text: Seq<char>) -> bool {
    encode_utf8(text).len() <= MAX_TEXT_LEN
}

/// A text in the file: one length byte and the UTF-8 bytes.
pub open spec fn text_bytes(text: Seq<char>) -> Seq<u8> {
    seq![encode_utf8(text).len() as u8] + encode_utf8(text)
}

/// A rank in the file: value and position as varints.
pub open spec fn rank_bytes(rank: RankInfo) -> Seq<u8> {
    varint_bytes(rank.value as nat) + varint_bytes(rank.position as nat)
}

/// A record in the file.
pub open spec fn record_bytes(record: PlayerRecordView) -> Seq<u8> {
    text_bytes(record.display_name) + rank_bytes(record.overall) + rank_bytes(record.overall_rank)
        + rank_bytes(record.team) + rank_bytes(record.weekly) + rank_bytes(record.monthly)
        + rank_bytes(record.yearly)
}

/// The first `n` records in the file, one after the other.
pub open spec fn record_region(records: Seq<PlayerRecordView>, n: nat) -> Seq<u8>
    decreases n,
{
    if n == 0 {
        Seq::empty()
    } else {
        record_region(records, (n - 1) as nat) + record_bytes(records[n - 1])
    }
}

/// Where the record region of a file with `count` records starts.
pub open spec fn data_start(count: nat) -> nat {
    HEADER_LEN as nat + 4 * count + 4
}

/// Where record `i` starts in the file.
pub open spec fn record_offset(records: Seq<PlayerRecordView>, i: nat) -> nat {
    data_start(records.len()) + record_region(records, i).len()
}

/// Where the prefix-cache region starts: behind the last record.
pub open spec fn cache_offset(records: Seq<PlayerRecordView>) -> nat {
    record_offset(records, records.len())
}

/// The first `n` entries of the pointer table.
pub open spec fn pointer_table(records: Seq<PlayerRecordView>, n: nat) -> Seq<u8>
    decreases n,
{
    if n == 0 {
        Seq::empty()
    } else {
        pointer_table(records, (n - 1) as nat) + spec_u32_to_le_bytes(
            record_offset(records, (n - 1) as nat) as u32,
        )
    }
}

/// The header of the file.
pub open spec fn header_bytes(aggregate: u32, records: Seq<PlayerRecordView>) -> Seq<u8> {
    spec_u32_to_le_bytes(FORMAT_VERSION) + spec_u32_to_le_bytes(aggregate) + spec_u32_to_le_bytes(
        records.len() as u32,
    ) + spec_u32_to_le_bytes(cache_offset(records) as u32)
}

/// A player of a top list in the file.
pub open spec fn member_bytes(player: TopPlayerView) -> Seq<u8> {
    text_bytes(player.name) + varint_bytes(player.value as nat)
}

/// The first `n` players of a top list in the file.
pub open spec fn members_bytes(top: Seq<TopPlayerView>, n: nat) -> Seq<u8>
    decreases n,
{
    if n == 0 {
        Seq::empty()
    } else {
        members_bytes(top, (n - 1) as nat) + member_bytes(top[n - 1])
    }
}

/// A cache entry in the file.
pub open spec fn entry_bytes(entry: PrefixCacheEntryView) -> Seq<u8> {
    text_bytes(entry.prefix) + seq![entry.tally.top.len() as u8] + members_bytes(
        entry.tally.top,
        entry.tally.top.len(),
    )
}

/// The first `n` cache entries in the file.
pub open spec fn entries_bytes(cache: Seq<PrefixCacheEntryView>, n: nat) -> Seq<u8>
    decreases n,
{
    if n == 0 {
        Seq::empty()
    } else {
        entries_bytes(cache, (n - 1) as nat) + entry_bytes(cache[n - 1])
    }
}

/// The prefix-cache region: the number of entries and the entries.
pub open spec fn cache_region(cache: Seq<PrefixCacheEntryView>) -> Seq<u8> {
    spec_u32_to_le_bytes(cache.len() as u32) + entries_bytes(cache, cache.len())
}

/// The whole file.
pub open spec fn index_bytes(
    aggregate: u32,
    records: Seq<PlayerRecordView>,
    cache: Seq<PrefixCacheEntryView>,
) -> Seq<u8> {
    header_bytes(aggregate, records) + pointer_table(records, records.len()) + zeros(4)
        + record_region(records, records.len()) + cache_region(cache)
}

/// Whether every display name fits a one-byte length.
pub open spec fn names_fit(records: Seq<PlayerRecordView>) -> bool {
    forall|i: int| 0 <= i < records.len() ==> text_fits((#[trigger] records[i]).display_name)
}

/// Whether every name of a top list fits a one-byte length.
pub open spec fn top_names_fit(top: Seq<TopPlayerView>) -> bool {
    forall|m: int| 0 <= m < top.len() ==> text_fits((#[trigger] top[m]).name)
}

/// Whether every name in every top list fits a one-byte length.
pub open spec fn member_names_fit(cache: Seq<PrefixCacheEntryView>) -> bool {
    forall|e: int| 0 <= e < cache.len() ==> top_names_fit((#[trigger] cache[e]).tally.top)
}

/// Whether every prefix fits a one-byte length.
pub open spec fn prefixes_fit(cache: Seq<PrefixCacheEntryView>) -> bool {
    forall|e: int| 0 <= e < cache.len() ==> text_fits((#[trigger] cache[e]).prefix)
}

/// Whether the length of every top list fits in one byte.
pub open spec fn top_lists_fit(cache: Seq<PrefixCacheEntryView>) -> bool {
    forall|e: int| 0 <= e < cache.len() ==> (#[trigger] cache[e]).tally.top.len() <= 255
}

/// Why `records` and `cache` have no file, if they have none: a name or a
/// prefix is too long for its length byte, or a count or an offset does not
/// fit its field.
pub open spec fn encode_error(
    records: Seq<PlayerRecordView>,
    cache: Seq<PrefixCacheEntryView>,
) -> Option<BuildError> {
    if !names_fit(records) || !member_names_fit(cache) {
        Some(BuildError::NameTooLong)
    } else if !prefixes_fit(cache) {
        Some(BuildError::PrefixTooLong)
    } else if cache_offset(records) > u32::MAX || cache.len() > u32::MAX || !top_lists_fit(cache) {
        Some(BuildError::TooLarge)
    } else {
        None
    }
}

/// The record region grows with every record.
pub proof fn lemma_record_region_grows(records: Seq<PlayerRecordView>, i: nat, j: nat)
    requires
        i <= j,
    ensures
        record_region(records, i).len() <= record_region(records, j).len(),
        record_offset(records, i) <= record_offset(records, j),
    decreases j,
{
    if i < j {
        lemma_record_region_grows(records, i, (j - 1) as nat);
    }
}

/// The pointer table holds four bytes for each record.
pub proof fn lemma_pointer_table_len(records: Seq<PlayerRecordView>, n: nat)
    ensures
        pointer_table(records, n).len() == 4 * n,
    decreases n,
{
    vstd::bytes::lemma_auto_spec_u32_to_from_le_bytes();
    if n > 0 {
        lemma_pointer_table_len(records, (n - 1) as nat);
    }
}

} // verus!
