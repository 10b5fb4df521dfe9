//! Reading an index file: the header, and any record by its sorted position
//! through the pointer table.

use crate::record::RankInfo;
use crate::varint::{
    encoding_at, lemma_encode_then_read, lemma_encoding_extent, read_u32_varint, varint_bytes,
};
use vstd::bytes::{spec_u32_from_le_bytes, u32_from_le_bytes};
use vstd::prelude::*;
use vstd::slice::slice_subrange;

verus! {

/// The header of an index file.
#[derive(Clone, Copy, Debug, PartialEq, Eq, Structural)]
pub struct IndexHeader {
    pub version: u32,
    pub aggregate: u32,
    pub record_count: u32,
    pub cache_offset: u32,
}

/// A record as it stands in the file: the bytes of the display name and the
/// six ranks.
#[derive(Clone, Debug, PartialEq, Eq)]
pub struct StoredRecord {
    pub name: Vec<u8>,
    pub overall: RankInfo,
    pub overall_rank: RankInfo,
    pub team: RankInfo,
    pub weekly: RankInfo,
    pub monthly: RankInfo,
    pub yearly: RankInfo,
}

/// A stored record as contracts speak of it.
pub ghost struct StoredRecordView {
    pub name: Seq<u8>,
    pub overall: RankInfo,
    pub overall_rank: RankInfo,
    pub team: RankInfo,
    pub weekly: RankInfo,
    pub monthly: RankInfo,
    pub yearly: RankInfo,
}

impl View for StoredRecord {
    type V = StoredRecordView;

    open spec fn view(&self) -> StoredRecordView {
        StoredRecordView {
            name: self.name@,
            overall: self.overall,
            overall_rank: self.overall_rank,
            team: self.team,
            weekly: self.weekly,
            monthly: self.monthly,
            yearly: self.yearly,
        }
    }
}

/// The little-endian 32-bit integer at `pos`, if four bytes stand there.
pub open spec fn parse_le32(bytes: Seq<u8>, pos: int) -> Option<u32> {
    if 0 <= pos && pos + 4 <= bytes.len() {
        Some(spec_u32_from_le_bytes(bytes.subrange(pos, pos + 4)))
    } else {
        None
    }
}

/// The varint at `pos` and the position behind it, if the encoding of a
/// 32-bit value stands there.
pub open spec fn parse_varint(bytes: Seq<u8>, pos: int) -> Option<(u32, int)> {
    if exists|value: u32| encoding_at(bytes, pos, value as nat) {
        let value = choose|value: u32| encoding_at(bytes, pos, value as nat);
        Some((value, pos + varint_bytes(value as nat).len()))
    } else {
        None
    }
}

/// The text at `pos` and the position behind it, if a length byte and as many
/// bytes stand there.
pub open spec fn parse_text(bytes: Seq<u8>, pos: int) -> Option<(Seq<u8>, int)> {
    if 0 <= pos < bytes.len() && pos + 1 + bytes[pos] <= bytes.len() {
        Some((bytes.subrange(pos + 1, pos + 1 + bytes[pos]), pos + 1 + bytes[pos]))
    } else {
        None
    }
}

/// The rank at `pos` and the position behind it, if two varints stand there.
pub open spec fn parse_rank(bytes: Seq<u8>, pos: int) -> Option<(RankInfo, int)> {
    match parse_varint(bytes, pos) {
        Some((value, mid)) => match parse_varint(bytes, mid) {
            Some((position, next)) => Some((RankInfo { value, position }, next)),
            None => None,
        },
        None => None,
    }
}

/// The record at `pos` and the position behind it, if a text and six ranks
/// stand there.
pub open spec fn parse_record_at(bytes: Seq<u8>, pos: int) -> Option<(StoredRecordView, int)> {
    match parse_text(bytes, pos) {
        Some((name, s0)) => match parse_rank(bytes, s0) {
            Some((overall, s1)) => match parse_rank(bytes, s1) {
                Some((overall_rank, s2)) => match parse_rank(bytes, s2) {
                    Some((team, s3)) => match parse_rank(bytes, s3) {
                        Some((weekly, s4)) => match parse_rank(bytes, s4) {
                            Some((monthly, s5)) => match parse_rank(bytes, s5) {
                                Some((yearly, s6)) => Some(
                                    (
                                        StoredRecordView {
                                            name,
                                            overall,
                                            overall_rank,
                                            team,
                                            weekly,
                                            monthly,
                                            yearly,
                                        },
                                        s6,
                                    ),
                                ),
                                None => None,
                            },
                            None => None,
                        },
                        None => None,
                    },
                    None => None,
                },
                None => None,
            },
            None => None,
        },
        None => None,
    }
}

/// The header, if the file has the sixteen bytes of one.
pub open spec fn parse_header(bytes: Seq<u8>) -> Option<IndexHeader> {
    if bytes.len() >= 16 {
        Some(
            IndexHeader {
                version: parse_le32(bytes, 0)->0,
                aggregate: parse_le32(bytes, 4)->0,
                record_count: parse_le32(bytes, 8)->0,
                cache_offset: parse_le32(bytes, 12)->0,
            },
        )
    } else {
        None
    }
}

/// The record at sorted position `index`: the one that stands where entry
/// `index` of the pointer table points. There is none where the file has no
/// header, where `index` is not below the record count, where the pointer
/// table ends before the entry, or where no record stands at the offset.
pub open spec fn parse_record(bytes: Seq<u8>, index: int) -> Option<StoredRecordView> {
    match parse_header(bytes) {
        Some(header) => if 0 <= index < header.record_count {
            match parse_le32(bytes, 16 + 4 * index) {
                Some(offset) => match parse_record_at(bytes, offset as int) {
                    Some((record, _)) => Some(record),
                    None => None,
                },
                None => None,
            }
        } else {
            None
        },
        None => None,
    }
}

/// Two encodings that stand at the same position are of the same value.
pub proof fn lemma_encoding_at_unique(bytes: Seq<u8>, pos: int, a: nat, b: nat)
    requires
        encoding_at(bytes, pos, a),
        encoding_at(bytes, pos, b),
    ensures
        a == b,
{
    lemma_encode_then_read(a);
    lemma_encode_then_read(b);
    let ea = varint_bytes(a);
    let last = pos + ea.len() - 1;
    assert forall|j: int| pos <= j < last implies #[trigger] bytes[j] >= 128 by {
        assert(bytes[j] == ea[j - pos]);
    }
    assert(bytes[last] == ea[ea.len() - 1]);
    lemma_encoding_extent(bytes, pos, last, pos + varint_bytes(b).len(), b);
}

/// The little-endian 32-bit integer at `pos`.
pub fn read_le32(bytes: &[u8], pos: usize) -> (r: Option<u32>)
    ensures
        r == parse_le32(bytes@, pos as int),
{
    if pos > bytes.len() || bytes.len() - pos < 4 {
        return None;
    }
    Some(u32_from_le_bytes(slice_subrange(bytes, pos, pos + 4)))
}

/// The varint at `pos` and the position behind it.
pub fn read_varint(bytes: &[u8], pos: usize) -> (r: Option<(u32, usize)>)
    ensures
        match r {
            Some((value, next)) => parse_varint(bytes@, pos as int) == Some((value, next as int)),
            None => parse_varint(bytes@, pos as int) is None,
        },
{
    let r = read_u32_varint(bytes, pos);
    proof {
        match r {
            Some((value, next)) => {
                let chosen = choose|v: u32| encoding_at(bytes@, pos as int, v as nat);
                lemma_encoding_at_unique(bytes@, pos as int, value as nat, chosen as nat);
            },
            None => {},
        }
    }
    r
}

/// The text at `pos` and the position behind it.
pub fn read_text(bytes: &[u8], pos: usize) -> (r: Option<(Vec<u8>, usize)>)
    ensures
        match r {
            Some((text, next)) => parse_text(bytes@, pos as int) == Some((text@, next as int)),
            None => parse_text(bytes@, pos as int) is None,
        },
{
    if pos >= bytes.len() {
        return None;
    }
    let len = bytes[pos] as usize;
    if bytes.len() - pos - 1 < len {
        return None;
    }
    let mut text: Vec<u8> = Vec::new();
    let total = bytes.len();
    let mut i: usize = 0;
    assert(text@ =~= bytes@.subrange(pos + 1, pos + 1 + 0));
    while i < len
        invariant
            i <= len,
            total == bytes@.len(),
            pos + 1 + len <= total,
            text@ == bytes@.subrange(pos + 1, pos + 1 + i),
        decreases len - i,
    {
        text.push(bytes[pos + 1 + i]);
        assert(text@ =~= bytes@.subrange(pos + 1, pos + 1 + i + 1));
        i = i + 1;
    }
    Some((text, pos + 1 + len))
}

/// The rank at `pos` and the position behind it.
pub fn read_rank(bytes: &[u8], pos: usize) -> (r: Option<(RankInfo, usize)>)
    ensures
        match r {
            Some((rank, next)) => parse_rank(bytes@, pos as int) == Some((rank, next as int)),
            None => parse_rank(bytes@, pos as int) is None,
        },
{
    let (value, mid) = match read_varint(bytes, pos) {
        Some(pair) => pair,
        None => {
            return None;
        },
    };
    let (position, next) = match read_varint(bytes, mid) {
        Some(pair) => pair,
        None => {
            return None;
        },
    };
    Some((RankInfo { value, position }, next))
}

/// The record at `pos` and the position behind it.
pub fn read_record_at(bytes: &[u8], pos: usize) -> (r: Option<(StoredRecord, usize)>)
    ensures
        match r {
            Some((record, next)) => parse_record_at(bytes@, pos as int) == Some(
                (record@, next as int),
            ),
            None => parse_record_at(bytes@, pos as int) is None,
        },
{
    let (name, s0) = match read_text(bytes, pos) {
        Some(pair) => pair,
        None => {
            return None;
        },
    };
    let (overall, s1) = match read_rank(bytes, s0) {
        Some(pair) => pair,
        None => {
            return None;
        },
    };
    let (overall_rank, s2) = match read_rank(bytes, s1) {
        Some(pair) => pair,
        None => {
            return None;
        },
    };
    let (team, s3) = match read_rank(bytes, s2) {
        Some(pair) => pair,
        None => {
            return None;
        },
    };
    let (weekly, s4) = match read_rank(bytes, s3) {
        Some(pair) => pair,
        None => {
            return None;
        },
    };
    let (monthly, s5) = match read_rank(bytes, s4) {
        Some(pair) => pair,
        None => {
            return None;
        },
    };
    let (yearly, s6) = match read_rank(bytes, s5) {
        Some(pair) => pair,
        None => {
            return None;
        },
    };
    Some((StoredRecord { name, overall, overall_rank, team, weekly, monthly, yearly }, s6))
}

/// The header of the file.
pub fn read_header(bytes: &[u8]) -> (r: Option<IndexHeader>)
    ensures
        r == parse_header(bytes@),
{
    if bytes.len() < 16 {
        return None;
    }
    let version = read_le32(bytes, 0);
    let aggregate = read_le32(bytes, 4);
    let record_count = read_le32(bytes, 8);
    let cache_offset = read_le32(bytes, 12);
    match (version, aggregate, record_count, cache_offset) {
        (Some(version), Some(aggregate), Some(record_count), Some(cache_offset)) => Some(
            IndexHeader { version, aggregate, record_count, cache_offset },
        ),
        _ => None,
    }
}

/// The record at sorted position `index`, read through the pointer table.
pub fn read_record(bytes: &[u8], index: u32) -> (r: Option<StoredRecord>)
    ensures
        match r {
            Some(record) => parse_record(bytes@, index as int) == Some(record@),
            None => parse_record(bytes@, index as int) is None,
        },
{
    let header = match read_header(bytes) {
        Some(header) => header,
        None => {
            return None;
        },
    };
    if index >= header.record_count {
        return None;
    }
    let entry = 16 + 4 * (index as u64);
    if entry > bytes.len() as u64 {
        return None;
    }
    let offset = match read_le32(bytes, entry as usize) {
        Some(offset) => offset,
        None => {
            return None;
        },
    };
    if offset as u64 > bytes.len() as u64 {
        assert(parse_text(bytes@, offset as int) is None);
        return None;
    }
    match read_record_at(bytes, offset as usize) {
        Some((record, _)) => Some(record),
        None => None,
    }
}

} // verus!
