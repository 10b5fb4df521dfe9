//! The binary writer: the sorted records and the prefix cache as one file,
//! written front to back into a buffer, with the header's cache offset and the
//! pointer table patched in once the positions are known.

use crate::error::BuildError;
use crate::layout::{
    cache_offset, cache_region, data_start, encode_error, entries_bytes, entry_bytes,
    header_bytes, index_bytes, lemma_pointer_table_len, lemma_record_region_grows, member_bytes,
    member_names_fit, members_bytes, names_fit, pointer_table, prefixes_fit, rank_bytes,
    record_bytes, record_offset, record_region, text_bytes, text_fits, top_lists_fit,
    top_names_fit, zeros, FORMAT_VERSION, HEADER_LEN, MAX_TEXT_LEN,
};
use crate::prefix_cache::{entry_views, PrefixCacheEntry, PrefixCacheEntryView};
use crate::record::{record_views, PlayerRecord, PlayerRecordView, RankInfo};
use crate::tally::TopPlayer;
use crate::varint::put_u32_varint;
use vstd::bytes::{lemma_auto_spec_u32_to_from_le_bytes, spec_u32_to_le_bytes, u32_to_le_bytes};
use vstd::prelude::*;
use vstd::string::*;

verus! {

/// The most records whose pointer table still starts the record region at an
/// offset that fits in 32 bits.
pub const MAX_RECORDS: usize = 0x3fff_fffa;

/// Appends `bytes` to `buf`.
pub fn put_bytes(buf: &mut Vec<u8>, bytes: &[u8])
    ensures
        final(buf)@ == old(buf)@ + bytes@,
{
    let mut i: usize = 0;
    assert(buf@ =~= old(buf)@ + bytes@.take(0));
    while i < bytes.len()
        invariant
            i <= bytes@.len(),
            buf@ == old(buf)@ + bytes@.take(i as int),
        decreases bytes@.len() - i,
    {
        buf.push(bytes[i]);
        assert(bytes@.take(i + 1) =~= bytes@.take(i as int).push(bytes@[i as int]));
        assert(buf@ =~= old(buf)@ + bytes@.take(i + 1));
        i = i + 1;
    }
    assert(bytes@.take(i as int) =~= bytes@);
}

/// Appends `count` zero bytes to `buf`.
pub fn put_zeros(buf: &mut Vec<u8>, count: usize)
    ensures
        final(buf)@ == old(buf)@ + zeros(count as nat),
{
    let mut i: usize = 0;
    assert(buf@ =~= old(buf)@ + zeros(0));
    while i < count
        invariant
            i <= count,
            buf@ == old(buf)@ + zeros(i as nat),
        decreases count - i,
    {
        buf.push(0u8);
        assert(buf@ =~= old(buf)@ + zeros((i + 1) as nat));
        i = i + 1;
    }
}

/// Appends `x` as four little-endian bytes.
pub fn put_le32(buf: &mut Vec<u8>, x: u32)
    ensures
        final(buf)@ == old(buf)@ + spec_u32_to_le_bytes(x),
{
    let bytes = u32_to_le_bytes(x);
    put_bytes(buf, bytes.as_slice());
}

/// Overwrites the four bytes at `pos` with `x` in little-endian form.
pub fn patch_le32(buf: &mut Vec<u8>, pos: usize, x: u32)
    requires
        pos + 4 <= old(buf)@.len(),
    ensures
        final(buf)@ == old(buf)@.take(pos as int) + spec_u32_to_le_bytes(x) + old(buf)@.skip(
            pos + 4,
        ),
{
    let bytes = u32_to_le_bytes(x);
    let len = buf.len();
    let mut j: usize = 0;
    assert(buf@ =~= old(buf)@.take(pos as int) + bytes@.take(0) + old(buf)@.skip(pos as int));
    while j < 4
        invariant
            j <= 4,
            bytes@.len() == 4,
            len == old(buf)@.len(),
            pos + 4 <= old(buf)@.len(),
            buf@.len() == old(buf)@.len(),
            buf@ == old(buf)@.take(pos as int) + bytes@.take(j as int) + old(buf)@.skip(pos + j),
        decreases 4 - j,
    {
        buf.set(pos + j, bytes[j]);
        assert(buf@ =~= old(buf)@.take(pos as int) + bytes@.take(j + 1) + old(buf)@.skip(
            pos + j + 1,
        ));
        j = j + 1;
    }
    assert(bytes@.take(4) =~= bytes@);
}

/// Appends a text: one length byte and the UTF-8 bytes.
pub fn put_text(buf: &mut Vec<u8>, text: &str)
    requires
        text_fits(text@),
    ensures
        final(buf)@ == old(buf)@ + text_bytes(text@),
{
    let bytes = text.as_bytes();
    buf.push(bytes.len() as u8);
    put_bytes(buf, bytes);
    assert(buf@ =~= old(buf)@ + text_bytes(text@));
}

/// Appends a rank: value and position as varints.
pub fn put_rank(buf: &mut Vec<u8>, rank: RankInfo)
    ensures
        final(buf)@ == old(buf)@ + rank_bytes(rank),
{
    put_u32_varint(buf, rank.value);
    put_u32_varint(buf, rank.position);
    assert(buf@ =~= old(buf)@ + rank_bytes(rank));
}

/// Appends a record.
pub fn put_record(buf: &mut Vec<u8>, record: &PlayerRecord)
    requires
        text_fits(record.display_name@),
    ensures
        final(buf)@ == old(buf)@ + record_bytes(record@),
{
    put_text(buf, record.display_name.as_str());
    put_rank(buf, record.overall);
    put_rank(buf, record.overall_rank);
    put_rank(buf, record.team);
    put_rank(buf, record.weekly);
    put_rank(buf, record.monthly);
    put_rank(buf, record.yearly);
    assert(buf@ =~= old(buf)@ + record_bytes(record@));
}

/// Appends a player of a top list.
pub fn put_member(buf: &mut Vec<u8>, player: &TopPlayer)
    requires
        text_fits(player.name@),
    ensures
        final(buf)@ == old(buf)@ + member_bytes(player@),
{
    put_text(buf, player.name.as_str());
    put_u32_varint(buf, player.value);
    assert(buf@ =~= old(buf)@ + member_bytes(player@));
}

/// Appends a cache entry.
pub fn put_entry(buf: &mut Vec<u8>, entry: &PrefixCacheEntry)
    requires
        text_fits(entry@.prefix),
        top_names_fit(entry@.tally.top),
        entry@.tally.top.len() <= 255,
    ensures
        final(buf)@ == old(buf)@ + entry_bytes(entry@),
{
    let ghost top = entry@.tally.top;
    put_text(buf, entry.prefix.as_str());
    buf.push(entry.tally.top.len() as u8);
    let ghost head = buf@;
    let mut m: usize = 0;
    assert(buf@ =~= head + members_bytes(top, 0));
    while m < entry.tally.top.len()
        invariant
            m <= entry.tally.top@.len(),
            top == entry@.tally.top,
            top_names_fit(top),
            buf@ == head + members_bytes(top, m as nat),
        decreases entry.tally.top@.len() - m,
    {
        assert(top[m as int] == entry.tally.top@[m as int]@);
        put_member(buf, &entry.tally.top[m]);
        assert(buf@ =~= head + members_bytes(top, (m + 1) as nat));
        m = m + 1;
    }
    assert(buf@ =~= old(buf)@ + entry_bytes(entry@));
}

/// Whether the UTF-8 form of `text` fits a one-byte length.
pub fn fits(text: &str) -> (r: bool)
    ensures
        r == text_fits(text@),
{
    text.as_bytes().len() <= MAX_TEXT_LEN
}

/// Whether every display name fits a one-byte length.
pub fn records_fit(records: &Vec<PlayerRecord>) -> (r: bool)
    ensures
        r == names_fit(record_views(records@)),
{
    let mut i: usize = 0;
    while i < records.len()
        invariant
            i <= records@.len(),
            forall|k: int|
                0 <= k < i ==> text_fits((#[trigger] record_views(records@)[k]).display_name),
        decreases records@.len() - i,
    {
        if !fits(records[i].display_name.as_str()) {
            assert(!text_fits(record_views(records@)[i as int].display_name));
            return false;
        }
        i = i + 1;
    }
    true
}

/// Which of its fields an entry fits.
struct EntryFit {
    names: bool,
    prefix: bool,
    top: bool,
}

/// Whether the names of the entry's top list, its prefix, and the length of
/// its top list fit their length bytes.
fn entry_fit(entry: &PrefixCacheEntry) -> (r: EntryFit)
    ensures
        r.names == top_names_fit(entry@.tally.top),
        r.prefix == text_fits(entry@.prefix),
        r.top == (entry@.tally.top.len() <= 255),
{
    let ghost top = entry@.tally.top;
    let mut names = true;
    let mut m: usize = 0;
    while m < entry.tally.top.len()
        invariant
            m <= entry.tally.top@.len(),
            top == entry@.tally.top,
            names == (forall|k: int| 0 <= k < m ==> text_fits((#[trigger] top[k]).name)),
        decreases entry.tally.top@.len() - m,
    {
        assert(top[m as int] == entry.tally.top@[m as int]@);
        if !fits(entry.tally.top[m].name.as_str()) {
            names = false;
        }
        m = m + 1;
    }
    EntryFit {
        names,
        prefix: fits(entry.prefix.as_str()),
        top: entry.tally.top.len() <= MAX_TEXT_LEN,
    }
}

/// Whether all entries fit in each of their fields.
fn cache_fit(cache: &Vec<PrefixCacheEntry>) -> (r: EntryFit)
    ensures
        r.names == member_names_fit(entry_views(cache@)),
        r.prefix == prefixes_fit(entry_views(cache@)),
        r.top == top_lists_fit(entry_views(cache@)),
{
    let ghost views = entry_views(cache@);
    let mut all = EntryFit { names: true, prefix: true, top: true };
    let mut e: usize = 0;
    while e < cache.len()
        invariant
            e <= cache@.len(),
            views == entry_views(cache@),
            all.names == (forall|k: int|
                0 <= k < e ==> top_names_fit((#[trigger] views[k]).tally.top)),
            all.prefix == (forall|k: int| 0 <= k < e ==> text_fits((#[trigger] views[k]).prefix)),
            all.top == (forall|k: int| 0 <= k < e ==> (#[trigger] views[k]).tally.top.len() <= 255),
        decreases cache@.len() - e,
    {
        assert(views[e as int] == cache@[e as int]@);
        let one = entry_fit(&cache[e]);
        all = EntryFit {
            names: all.names && one.names,
            prefix: all.prefix && one.prefix,
            top: all.top && one.top,
        };
        e = e + 1;
    }
    all
}

/// Appends the records, one after the other, and returns where each starts.
pub fn put_records(buf: &mut Vec<u8>, records: &Vec<PlayerRecord>) -> (offsets: Vec<usize>)
    requires
        names_fit(record_views(records@)),
    ensures
        final(buf)@ == old(buf)@ + record_region(record_views(records@), records@.len()),
        offsets@.len() == records@.len(),
        forall|k: int|
            0 <= k < records@.len() ==> #[trigger] offsets@[k] == old(buf)@.len() + record_region(
                record_views(records@),
                k as nat,
            ).len(),
{
    let ghost rv = record_views(records@);
    let mut offsets: Vec<usize> = Vec::new();
    let mut i: usize = 0;
    assert(buf@ =~= old(buf)@ + record_region(rv, 0));
    while i < records.len()
        invariant
            i <= records@.len(),
            rv == record_views(records@),
            names_fit(rv),
            buf@ == old(buf)@ + record_region(rv, i as nat),
            offsets@.len() == i,
            forall|k: int|
                0 <= k < i ==> #[trigger] offsets@[k] == old(buf)@.len() + record_region(
                    rv,
                    k as nat,
                ).len(),
        decreases records@.len() - i,
    {
        assert(rv[i as int] == records@[i as int]@);
        offsets.push(buf.len());
        put_record(buf, &records[i]);
        assert(buf@ =~= old(buf)@ + record_region(rv, (i + 1) as nat));
        i = i + 1;
    }
    offsets
}

/// Appends the prefix-cache region: the number of entries and the entries.
pub fn put_cache(buf: &mut Vec<u8>, cache: &Vec<PrefixCacheEntry>)
    requires
        cache@.len() <= u32::MAX,
        member_names_fit(entry_views(cache@)),
        prefixes_fit(entry_views(cache@)),
        top_lists_fit(entry_views(cache@)),
    ensures
        final(buf)@ == old(buf)@ + cache_region(entry_views(cache@)),
{
    let ghost cv = entry_views(cache@);
    put_le32(buf, cache.len() as u32);
    let ghost counted = buf@;
    let mut e: usize = 0;
    assert(buf@ =~= counted + entries_bytes(cv, 0));
    while e < cache.len()
        invariant
            e <= cache@.len(),
            cv == entry_views(cache@),
            member_names_fit(cv),
            prefixes_fit(cv),
            top_lists_fit(cv),
            buf@ == counted + entries_bytes(cv, e as nat),
        decreases cache@.len() - e,
    {
        assert(cv[e as int] == cache@[e as int]@);
        put_entry(buf, &cache[e]);
        assert(buf@ =~= counted + entries_bytes(cv, (e + 1) as nat));
        e = e + 1;
    }
    assert(buf@ =~= old(buf)@ + cache_region(cv));
}

/// Writing four bytes over four others in the middle of a buffer leaves what
/// stands before and behind them.
pub proof fn lemma_patch(front: Seq<u8>, old_word: Seq<u8>, new_word: Seq<u8>, rest: Seq<u8>)
    requires
        old_word.len() == 4,
        new_word.len() == 4,
    ensures
        (front + old_word + rest).take(front.len() as int) + new_word + (front + old_word
            + rest).skip((front.len() + 4) as int) == front + new_word + rest,
{
    let whole = front + old_word + rest;
    assert(whole.take(front.len() as int) =~= front);
    assert(whole.skip((front.len() + 4) as int) =~= rest);
}

/// Writes the pointer table over its placeholder, which starts behind the
/// header: entry `k` becomes `offsets[k]`.
fn patch_pointers(
    buf: &mut Vec<u8>,
    offsets: &Vec<usize>,
    Ghost(front): Ghost<Seq<u8>>,
    Ghost(records): Ghost<Seq<PlayerRecordView>>,
    Ghost(tail): Ghost<Seq<u8>>,
)
    requires
        front.len() == HEADER_LEN,
        offsets@.len() == records.len(),
        records.len() <= MAX_RECORDS,
        forall|k: int|
            0 <= k < records.len() ==> #[trigger] offsets@[k] == record_offset(records, k as nat)
                && offsets@[k] <= u32::MAX,
        old(buf)@ == front + zeros((4 * records.len()) as nat) + tail,
    ensures
        final(buf)@ == front + pointer_table(records, records.len()) + tail,
{
    let n = offsets.len();
    let mut i: usize = 0;
    assert(buf@ =~= front + pointer_table(records, 0) + zeros((4 * (n - 0)) as nat) + tail);
    while i < n
        invariant
            i <= n,
            n == records.len(),
            n <= MAX_RECORDS,
            front.len() == HEADER_LEN,
            offsets@.len() == n,
            forall|k: int|
                0 <= k < n ==> #[trigger] offsets@[k] == record_offset(records, k as nat)
                    && offsets@[k] <= u32::MAX,
            buf@ == front + pointer_table(records, i as nat) + zeros((4 * (n - i)) as nat) + tail,
        decreases n - i,
    {
        let ghost done = front + pointer_table(records, i as nat);
        let ghost left = zeros((4 * (n - i - 1)) as nat) + tail;
        let pos = HEADER_LEN + 4 * i;
        let offset = offsets[i];
        proof {
            lemma_pointer_table_len(records, i as nat);
            lemma_auto_spec_u32_to_from_le_bytes();
            assert(zeros((4 * (n - i)) as nat) =~= zeros(4) + zeros((4 * (n - i - 1)) as nat));
            assert(buf@ =~= done + zeros(4) + left);
            lemma_patch(done, zeros(4), spec_u32_to_le_bytes(offset as u32), left);
        }
        patch_le32(buf, pos, offset as u32);
        assert(buf@ =~= front + pointer_table(records, (i + 1) as nat) + zeros(
            (4 * (n - i - 1)) as nat,
        ) + tail);
        i = i + 1;
    }
    assert(buf@ =~= front + pointer_table(records, records.len()) + tail);
}

/// Why `records` and `cache` have no file, as far as that shows before
/// anything is written: `None` where all names, prefixes and counts fit.
fn check_fields(records: &Vec<PlayerRecord>, cache: &Vec<PrefixCacheEntry>) -> (r: Option<
    BuildError,
>)
    ensures
        match r {
            Some(e) => encode_error(record_views(records@), entry_views(cache@)) == Some(e),
            None => {
                &&& names_fit(record_views(records@))
                &&& member_names_fit(entry_views(cache@))
                &&& prefixes_fit(entry_views(cache@))
                &&& top_lists_fit(entry_views(cache@))
                &&& records@.len() <= MAX_RECORDS
                &&& cache@.len() <= u32::MAX
            },
        },
{
    let fit = cache_fit(cache);
    if !records_fit(records) || !fit.names {
        return Some(BuildError::NameTooLong);
    }
    if !fit.prefix {
        return Some(BuildError::PrefixTooLong);
    }
    if records.len() > MAX_RECORDS || cache.len() as u64 > 0xffff_ffff || !fit.top {
        proof {
            lemma_record_region_grows(record_views(records@), 0, records@.len());
        }
        return Some(BuildError::TooLarge);
    }
    None
}

/// The file before its placeholders are written over: zeros stand in place of
/// the cache offset and of the pointer table.
spec fn unpatched_bytes(
    aggregate: u32,
    records: Seq<PlayerRecordView>,
    cache: Seq<PrefixCacheEntryView>,
) -> Seq<u8> {
    spec_u32_to_le_bytes(FORMAT_VERSION) + spec_u32_to_le_bytes(aggregate) + spec_u32_to_le_bytes(
        records.len() as u32,
    ) + zeros(4) + zeros(4 * records.len()) + (zeros(4) + record_region(records, records.len())
        + cache_region(cache))
}

/// What `write_unpatched` hands back.
struct Unpatched {
    buf: Vec<u8>,
    offsets: Vec<usize>,
    cache_at: usize,
}

/// Writes the file front to back with zeros for its placeholders, and returns
/// it with the offset of each record and of the cache region.
fn write_unpatched(
    aggregate: u32,
    records: &Vec<PlayerRecord>,
    cache: &Vec<PrefixCacheEntry>,
) -> (r: Unpatched)
    requires
        names_fit(record_views(records@)),
        member_names_fit(entry_views(cache@)),
        prefixes_fit(entry_views(cache@)),
        top_lists_fit(entry_views(cache@)),
        records@.len() <= MAX_RECORDS,
        cache@.len() <= u32::MAX,
    ensures
        r.buf@ == unpatched_bytes(aggregate, record_views(records@), entry_views(cache@)),
        r.cache_at == cache_offset(record_views(records@)),
        r.offsets@.len() == records@.len(),
        forall|k: int|
            0 <= k < records@.len() ==> #[trigger] r.offsets@[k] == record_offset(
                record_views(records@),
                k as nat,
            ),
{
    let ghost rv = record_views(records@);
    let n = records.len();
    proof {
        lemma_auto_spec_u32_to_from_le_bytes();
    }
    let mut buf: Vec<u8> = Vec::new();
    put_le32(&mut buf, FORMAT_VERSION);
    put_le32(&mut buf, aggregate);
    put_le32(&mut buf, n as u32);
    put_zeros(&mut buf, 4);
    put_zeros(&mut buf, 4 * n);
    put_zeros(&mut buf, 4);
    assert(buf@.len() == data_start(rv.len()));
    let offsets = put_records(&mut buf, records);
    let cache_at = buf.len();
    put_cache(&mut buf, cache);
    assert(buf@ =~= unpatched_bytes(aggregate, rv, entry_views(cache@)));
    Unpatched { buf, offsets, cache_at }
}

/// Writes the index file of the sorted `records` and the prefix cache.
///
/// The buffer is filled front to back: the header with a placeholder for the
/// cache offset, zeros in place of the pointer table and the reserved bytes,
/// the records, the cache. Then the cache offset and the pointer table are
/// written over their placeholders.
pub fn encode_index(
    aggregate: u32,
    records: &Vec<PlayerRecord>,
    cache: &Vec<PrefixCacheEntry>,
) -> (r: Result<Vec<u8>, BuildError>)
    ensures
        match r {
            Ok(bytes) => encode_error(record_views(records@), entry_views(cache@)) is None
                && bytes@ == index_bytes(aggregate, record_views(records@), entry_views(cache@)),
            Err(e) => encode_error(record_views(records@), entry_views(cache@)) == Some(e),
        },
{
    let ghost rv = record_views(records@);
    let ghost cv = entry_views(cache@);
    match check_fields(records, cache) {
        Some(e) => {
            return Err(e);
        },
        None => {},
    }
    let unpatched = write_unpatched(aggregate, records, cache);
    let mut buf = unpatched.buf;
    let offsets = unpatched.offsets;
    let cache_at = unpatched.cache_at;
    if cache_at as u64 > 0xffff_ffff {
        return Err(BuildError::TooLarge);
    }
    let ghost fixed = spec_u32_to_le_bytes(FORMAT_VERSION) + spec_u32_to_le_bytes(aggregate)
        + spec_u32_to_le_bytes(rv.len() as u32);
    let ghost table = zeros(4 * rv.len());
    let ghost tail = zeros(4) + record_region(rv, rv.len()) + cache_region(cv);
    proof {
        lemma_auto_spec_u32_to_from_le_bytes();
        assert(buf@ =~= fixed + zeros(4) + (table + tail));
        lemma_patch(fixed, zeros(4), spec_u32_to_le_bytes(cache_at as u32), table + tail);
    }
    patch_le32(&mut buf, 12, cache_at as u32);
    proof {
        assert(buf@ =~= header_bytes(aggregate, rv) + table + tail);
        assert forall|k: int| 0 <= k < rv.len() implies #[trigger] offsets@[k] == record_offset(
            rv,
            k as nat,
        ) && offsets@[k] <= u32::MAX by {
            lemma_record_region_grows(rv, k as nat, rv.len());
        }
    }
    patch_pointers(&mut buf, &offsets, Ghost(header_bytes(aggregate, rv)), Ghost(rv), Ghost(tail));
    assert(buf@ =~= index_bytes(aggregate, rv, cv));
    Ok(buf)
}

} // verus!
