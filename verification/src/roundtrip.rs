//! What is written can be read back: the header, every record through the
//! pointer table, and the prefix cache.

use crate::cache_reader::{
    parse_cache, parse_entries, parse_entry, parse_member, parse_members, StoredEntryView,
    StoredPlayerView,
};
use crate::layout::{
    cache_offset, cache_region, data_start, encode_error, entries_bytes, entry_bytes,
    header_bytes, index_bytes, lemma_pointer_table_len, lemma_record_region_grows, member_bytes,
    member_names_fit, members_bytes, pointer_table, prefixes_fit, rank_bytes, record_bytes, record_offset,
    record_region, text_bytes, text_fits, top_lists_fit, top_names_fit, zeros, FORMAT_VERSION,
};
use crate::prefix_cache::PrefixCacheEntryView;
use crate::tally::TopPlayerView;
use crate::reader::{
    lemma_encoding_at_unique, parse_header, parse_le32, parse_rank, parse_record,
    parse_record_at, parse_text, parse_varint, IndexHeader, StoredRecordView,
};
use crate::record::{PlayerRecordView, RankInfo};
use crate::varint::{encoding_at, varint_bytes};
use vstd::bytes::{lemma_auto_spec_u32_to_from_le_bytes, spec_u32_to_le_bytes};
use vstd::prelude::*;
use vstd::utf8::encode_utf8;

verus! {

/// Whether `part` stands in `bytes` at `pos`.
pub open spec fn holds_at(bytes: Seq<u8>, pos: int, part: Seq<u8>) -> bool {
    0 <= pos && pos + part.len() <= bytes.len() && bytes.subrange(pos, pos + part.len()) == part
}

/// A record as the file stores it: the name as its UTF-8 bytes.
pub open spec fn stored_view(record: PlayerRecordView) -> StoredRecordView {
    StoredRecordView {
        name: encode_utf8(record.display_name),
        overall: record.overall,
        overall_rank: record.overall_rank,
        team: record.team,
        weekly: record.weekly,
        monthly: record.monthly,
        yearly: record.yearly,
    }
}

/// Where two parts stand one after the other, each stands at its place.
pub proof fn lemma_holds_at_split(bytes: Seq<u8>, pos: int, a: Seq<u8>, b: Seq<u8>)
    requires
        holds_at(bytes, pos, a + b),
    ensures
        holds_at(bytes, pos, a),
        holds_at(bytes, pos + a.len(), b),
{
    let whole = bytes.subrange(pos, pos + (a + b).len());
    assert forall|k: int| 0 <= k < a.len() implies bytes.subrange(pos, pos + a.len())[k]
        == a[k] by {
        assert(whole[k] == (a + b)[k]);
    }
    assert(bytes.subrange(pos, pos + a.len()) =~= a);
    assert forall|k: int| 0 <= k < b.len() implies bytes.subrange(
        pos + a.len(),
        pos + a.len() + b.len(),
    )[k] == b[k] by {
        assert(whole[a.len() + k] == (a + b)[a.len() + k]);
    }
    assert(bytes.subrange(pos + a.len(), pos + a.len() + b.len()) =~= b);
}

/// What stands in the middle of three parts stands in the whole, moved by
/// the length of the first part.
pub proof fn lemma_holds_at_within(
    before: Seq<u8>,
    middle: Seq<u8>,
    after: Seq<u8>,
    pos: int,
    part: Seq<u8>,
)
    requires
        holds_at(middle, pos, part),
    ensures
        holds_at(before + middle + after, before.len() + pos, part),
{
    let whole = before + middle + after;
    let inner = middle.subrange(pos, pos + part.len());
    assert forall|k: int| 0 <= k < part.len() implies whole.subrange(
        before.len() + pos,
        before.len() + pos + part.len(),
    )[k] == part[k] by {
        assert(inner[k] == part[k]);
        assert(whole[before.len() + pos + k] == middle[pos + k]);
    }
    assert(whole.subrange(before.len() + pos, before.len() + pos + part.len()) =~= part);
}

/// An encoding that stands at `pos` is read as its value.
pub proof fn lemma_parse_varint(bytes: Seq<u8>, pos: int, value: u32)
    requires
        holds_at(bytes, pos, varint_bytes(value as nat)),
    ensures
        parse_varint(bytes, pos) == Some((value, pos + varint_bytes(value as nat).len())),
{
    assert(encoding_at(bytes, pos, value as nat));
    let chosen = choose|v: u32| encoding_at(bytes, pos, v as nat);
    lemma_encoding_at_unique(bytes, pos, value as nat, chosen as nat);
}

/// A rank that stands at `pos` is read as itself.
pub proof fn lemma_parse_rank(bytes: Seq<u8>, pos: int, rank: RankInfo)
    requires
        holds_at(bytes, pos, rank_bytes(rank)),
    ensures
        parse_rank(bytes, pos) == Some((rank, pos + rank_bytes(rank).len())),
{
    lemma_holds_at_split(
        bytes,
        pos,
        varint_bytes(rank.value as nat),
        varint_bytes(rank.position as nat),
    );
    lemma_parse_varint(bytes, pos, rank.value);
    lemma_parse_varint(bytes, pos + varint_bytes(rank.value as nat).len(), rank.position);
}

/// A text that stands at `pos` is read as its UTF-8 bytes.
pub proof fn lemma_parse_text(bytes: Seq<u8>, pos: int, text: Seq<char>)
    requires
        holds_at(bytes, pos, text_bytes(text)),
        text_fits(text),
    ensures
        parse_text(bytes, pos) == Some((encode_utf8(text), pos + text_bytes(text).len())),
{
    let body = encode_utf8(text);
    lemma_holds_at_split(bytes, pos, seq![body.len() as u8], body);
    assert(bytes.subrange(pos, pos + 1)[0] == body.len() as u8);
}

/// A record that stands at `pos` is read as itself.
pub proof fn lemma_parse_record(bytes: Seq<u8>, pos: int, record: PlayerRecordView)
    requires
        holds_at(bytes, pos, record_bytes(record)),
        text_fits(record.display_name),
    ensures
        parse_record_at(bytes, pos) == Some(
            (stored_view(record), pos + record_bytes(record).len()),
        ),
{
    let t = text_bytes(record.display_name);
    let r1 = rank_bytes(record.overall);
    let r2 = rank_bytes(record.overall_rank);
    let r3 = rank_bytes(record.team);
    let r4 = rank_bytes(record.weekly);
    let r5 = rank_bytes(record.monthly);
    let r6 = rank_bytes(record.yearly);
    lemma_holds_at_split(bytes, pos, t + r1 + r2 + r3 + r4 + r5, r6);
    lemma_holds_at_split(bytes, pos, t + r1 + r2 + r3 + r4, r5);
    lemma_holds_at_split(bytes, pos, t + r1 + r2 + r3, r4);
    lemma_holds_at_split(bytes, pos, t + r1 + r2, r3);
    lemma_holds_at_split(bytes, pos, t + r1, r2);
    lemma_holds_at_split(bytes, pos, t, r1);
    let s0 = pos + t.len();
    let s1 = s0 + r1.len();
    let s2 = s1 + r2.len();
    let s3 = s2 + r3.len();
    let s4 = s3 + r4.len();
    let s5 = s4 + r5.len();
    lemma_parse_text(bytes, pos, record.display_name);
    lemma_parse_rank(bytes, s0, record.overall);
    lemma_parse_rank(bytes, s1, record.overall_rank);
    lemma_parse_rank(bytes, s2, record.team);
    lemma_parse_rank(bytes, s3, record.weekly);
    lemma_parse_rank(bytes, s4, record.monthly);
    lemma_parse_rank(bytes, s5, record.yearly);
}

/// Record `i` stands in the record region behind the records before it.
pub proof fn lemma_record_in_region(records: Seq<PlayerRecordView>, n: nat, i: nat)
    requires
        i < n <= records.len(),
    ensures
        holds_at(
            record_region(records, n),
            record_region(records, i).len() as int,
            record_bytes(records[i as int]),
        ),
    decreases n,
{
    let before = record_region(records, (n - 1) as nat);
    let last = record_bytes(records[n - 1]);
    if i == n - 1 {
        assert((before + last).subrange(before.len() as int, (before.len() + last.len()) as int) =~= last);
    } else {
        lemma_record_in_region(records, (n - 1) as nat, i);
        lemma_holds_at_within(
            Seq::empty(),
            before,
            last,
            record_region(records, i).len() as int,
            record_bytes(records[i as int]),
        );
        assert(Seq::<u8>::empty() + before + last =~= before + last);
    }
}

/// Entry `i` of the pointer table is the offset of record `i`.
pub proof fn lemma_pointer_in_table(records: Seq<PlayerRecordView>, n: nat, i: nat)
    requires
        i < n,
    ensures
        holds_at(
            pointer_table(records, n),
            4 * i as int,
            spec_u32_to_le_bytes(record_offset(records, i) as u32),
        ),
    decreases n,
{
    lemma_auto_spec_u32_to_from_le_bytes();
    let before = pointer_table(records, (n - 1) as nat);
    let last = spec_u32_to_le_bytes(record_offset(records, (n - 1) as nat) as u32);
    lemma_pointer_table_len(records, (n - 1) as nat);
    if i == n - 1 {
        assert((before + last).subrange(before.len() as int, (before.len() + last.len()) as int) =~= last);
    } else {
        lemma_pointer_in_table(records, (n - 1) as nat, i);
        lemma_holds_at_within(
            Seq::empty(),
            before,
            last,
            4 * i as int,
            spec_u32_to_le_bytes(record_offset(records, i) as u32),
        );
        assert(Seq::<u8>::empty() + before + last =~= before + last);
    }
}

/// A 32-bit integer that stands at `pos` is read as itself.
pub proof fn lemma_parse_le32(bytes: Seq<u8>, pos: int, x: u32)
    requires
        holds_at(bytes, pos, spec_u32_to_le_bytes(x)),
    ensures
        parse_le32(bytes, pos) == Some(x),
{
    lemma_auto_spec_u32_to_from_le_bytes();
}

/// The header of a written file reads back: the version, the aggregate
/// value, the number of records, and the offset behind the last record.
pub proof fn lemma_read_back_header(
    aggregate: u32,
    records: Seq<PlayerRecordView>,
    cache: Seq<PrefixCacheEntryView>,
)
    requires
        encode_error(records, cache) is None,
    ensures
        parse_header(index_bytes(aggregate, records, cache)) == Some(
            IndexHeader {
                version: FORMAT_VERSION,
                aggregate,
                record_count: records.len() as u32,
                cache_offset: cache_offset(records) as u32,
            },
        ),
{
    lemma_auto_spec_u32_to_from_le_bytes();
    let file = index_bytes(aggregate, records, cache);
    let header = header_bytes(aggregate, records);
    let rest = pointer_table(records, records.len()) + zeros(4) + record_region(
        records,
        records.len(),
    ) + cache_region(cache);
    assert(file =~= header + rest);
    assert forall|k: int| 0 <= k <= 12 implies #[trigger] file.subrange(k, k + 4) == header.subrange(
        k,
        k + 4,
    ) by {
        assert(file.subrange(k, k + 4) =~= header.subrange(k, k + 4));
    }
    assert(header.subrange(0, 4) =~= spec_u32_to_le_bytes(FORMAT_VERSION));
    assert(header.subrange(4, 8) =~= spec_u32_to_le_bytes(aggregate));
    assert(header.subrange(8, 12) =~= spec_u32_to_le_bytes(records.len() as u32));
    assert(header.subrange(12, 16) =~= spec_u32_to_le_bytes(cache_offset(records) as u32));
    assert(file.subrange(0, 4) == header.subrange(0, 4));
    assert(file.subrange(4, 8) == header.subrange(4, 8));
    assert(file.subrange(8, 12) == header.subrange(8, 12));
    assert(file.subrange(12, 16) == header.subrange(12, 16));
}

/// Reading record `i` of a written file through the pointer table gives the
/// name and the ranks of record `i` of what was written.
pub proof fn lemma_read_back_record(
    aggregate: u32,
    records: Seq<PlayerRecordView>,
    cache: Seq<PrefixCacheEntryView>,
    i: int,
)
    requires
        encode_error(records, cache) is None,
        0 <= i < records.len(),
    ensures
        parse_record(index_bytes(aggregate, records, cache), i) == Some(stored_view(records[i])),
{
    lemma_auto_spec_u32_to_from_le_bytes();
    lemma_read_back_header(aggregate, records, cache);
    let n = records.len();
    let file = index_bytes(aggregate, records, cache);
    let header = header_bytes(aggregate, records);
    let table = pointer_table(records, n);
    let region = record_region(records, n);
    let tail = cache_region(cache);
    lemma_pointer_table_len(records, n);
    lemma_record_region_grows(records, 0, n);
    lemma_record_region_grows(records, i as nat, n);
    lemma_record_region_grows(records, (i + 1) as nat, n);
    let offset = record_offset(records, i as nat);
    assert(offset <= u32::MAX);

    lemma_pointer_in_table(records, n, i as nat);
    lemma_holds_at_within(
        header,
        table,
        zeros(4) + region + tail,
        4 * i,
        spec_u32_to_le_bytes(offset as u32),
    );
    assert(header + table + (zeros(4) + region + tail) =~= file);
    lemma_parse_le32(file, 16 + 4 * i, offset as u32);

    lemma_record_in_region(records, n, i as nat);
    lemma_holds_at_within(
        header + table + zeros(4),
        region,
        tail,
        record_region(records, i as nat).len() as int,
        record_bytes(records[i]),
    );
    assert((header + table + zeros(4)).len() == data_start(n));
    lemma_parse_record(file, offset as int, records[i]);
}

/// A player of a top list as the file stores it: the name as its UTF-8 bytes.
pub open spec fn stored_player_view(player: TopPlayerView) -> StoredPlayerView {
    StoredPlayerView { name: encode_utf8(player.name), value: player.value }
}

/// A top list as the file stores it.
pub open spec fn stored_top(top: Seq<TopPlayerView>) -> Seq<StoredPlayerView> {
    Seq::new(top.len(), |i: int| stored_player_view(top[i]))
}

/// A cache entry as the file stores it: the prefix as its UTF-8 bytes, and
/// the top list. The count is not stored.
pub open spec fn stored_entry_view(entry: PrefixCacheEntryView) -> StoredEntryView {
    StoredEntryView { prefix: encode_utf8(entry.prefix), top: stored_top(entry.tally.top) }
}

/// A prefix cache as the file stores it.
pub open spec fn stored_cache(cache: Seq<PrefixCacheEntryView>) -> Seq<StoredEntryView> {
    Seq::new(cache.len(), |i: int| stored_entry_view(cache[i]))
}

/// A player that stands at `pos` is read as itself.
pub proof fn lemma_parse_member(bytes: Seq<u8>, pos: int, player: TopPlayerView)
    requires
        holds_at(bytes, pos, member_bytes(player)),
        text_fits(player.name),
    ensures
        parse_member(bytes, pos) == Some(
            (stored_player_view(player), pos + member_bytes(player).len()),
        ),
{
    lemma_holds_at_split(bytes, pos, text_bytes(player.name), varint_bytes(player.value as nat));
    lemma_parse_text(bytes, pos, player.name);
    lemma_parse_varint(bytes, pos + text_bytes(player.name).len(), player.value);
}

/// The first `n` players of a top list that stand at `pos` are read as
/// themselves.
pub proof fn lemma_parse_members(bytes: Seq<u8>, pos: int, top: Seq<TopPlayerView>, n: nat)
    requires
        n <= top.len(),
        holds_at(bytes, pos, members_bytes(top, n)),
        top_names_fit(top),
    ensures
        parse_members(bytes, pos, n) == Some(
            (stored_top(top.take(n as int)), pos + members_bytes(top, n).len()),
        ),
    decreases n,
{
    if n == 0 {
        assert(stored_top(top.take(0)) =~= Seq::<StoredPlayerView>::empty());
    } else {
        let front = members_bytes(top, (n - 1) as nat);
        let last = top[n - 1];
        lemma_holds_at_split(bytes, pos, front, member_bytes(last));
        lemma_parse_members(bytes, pos, top, (n - 1) as nat);
        lemma_parse_member(bytes, pos + front.len(), last);
        assert(stored_top(top.take(n - 1)).push(stored_player_view(last)) =~= stored_top(
            top.take(n as int),
        ));
    }
}

/// An entry that stands at `pos` is read as itself.
pub proof fn lemma_parse_entry(bytes: Seq<u8>, pos: int, entry: PrefixCacheEntryView)
    requires
        holds_at(bytes, pos, entry_bytes(entry)),
        text_fits(entry.prefix),
        top_names_fit(entry.tally.top),
        entry.tally.top.len() <= 255,
    ensures
        parse_entry(bytes, pos) == Some((stored_entry_view(entry), pos + entry_bytes(entry).len())),
{
    let top = entry.tally.top;
    let prefix = text_bytes(entry.prefix);
    let count = seq![top.len() as u8];
    let members = members_bytes(top, top.len());
    lemma_holds_at_split(bytes, pos, prefix + count, members);
    lemma_holds_at_split(bytes, pos, prefix, count);
    lemma_parse_text(bytes, pos, entry.prefix);
    let mid = pos + prefix.len();
    assert(bytes.subrange(mid, mid + 1)[0] == top.len() as u8);
    lemma_parse_members(bytes, mid + 1, top, top.len());
    assert(top.take(top.len() as int) =~= top);
}

/// The first `n` entries of a cache that stand at `pos` are read as
/// themselves.
pub proof fn lemma_parse_entries(
    bytes: Seq<u8>,
    pos: int,
    cache: Seq<PrefixCacheEntryView>,
    n: nat,
)
    requires
        n <= cache.len(),
        holds_at(bytes, pos, entries_bytes(cache, n)),
        member_names_fit(cache),
        prefixes_fit(cache),
        top_lists_fit(cache),
    ensures
        parse_entries(bytes, pos, n) == Some(
            (stored_cache(cache.take(n as int)), pos + entries_bytes(cache, n).len()),
        ),
    decreases n,
{
    if n == 0 {
        assert(stored_cache(cache.take(0)) =~= Seq::<StoredEntryView>::empty());
    } else {
        let front = entries_bytes(cache, (n - 1) as nat);
        let last = cache[n - 1];
        lemma_holds_at_split(bytes, pos, front, entry_bytes(last));
        lemma_parse_entries(bytes, pos, cache, (n - 1) as nat);
        lemma_parse_entry(bytes, pos + front.len(), last);
        assert(stored_cache(cache.take(n - 1)).push(stored_entry_view(last)) =~= stored_cache(
            cache.take(n as int),
        ));
    }
}

/// The prefix-cache region of a written file reads back: as many entries as
/// were written, each with its prefix and its top list.
pub proof fn lemma_read_back_cache(
    aggregate: u32,
    records: Seq<PlayerRecordView>,
    cache: Seq<PrefixCacheEntryView>,
)
    requires
        encode_error(records, cache) is None,
    ensures
        parse_cache(index_bytes(aggregate, records, cache)) == Some(stored_cache(cache)),
{
    lemma_auto_spec_u32_to_from_le_bytes();
    lemma_read_back_header(aggregate, records, cache);
    let n = records.len();
    let file = index_bytes(aggregate, records, cache);
    let front = header_bytes(aggregate, records) + pointer_table(records, n) + zeros(4)
        + record_region(records, n);
    let region = cache_region(cache);
    let count = spec_u32_to_le_bytes(cache.len() as u32);
    lemma_pointer_table_len(records, n);
    assert(front.len() == cache_offset(records));
    assert(region.subrange(0, region.len() as int) =~= region);
    lemma_holds_at_within(front, region, Seq::empty(), 0, region);
    assert(front + region + Seq::<u8>::empty() =~= file);
    lemma_holds_at_split(file, front.len() as int, count, entries_bytes(cache, cache.len()));
    lemma_parse_le32(file, front.len() as int, cache.len() as u32);
    lemma_parse_entries(file, (front.len() + 4) as int, cache, cache.len());
    assert(cache.take(cache.len() as int) =~= cache);
}

} // verus!
