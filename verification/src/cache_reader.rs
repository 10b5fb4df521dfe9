//! Reading the prefix-cache region of an index file: all its entries, or the
//! entry of one prefix.

use crate::reader::{
    parse_header, parse_le32, parse_text, parse_varint, read_header, read_le32, read_text,
    read_varint,
};
use vstd::prelude::*;
use vstd::string::*;

verus! {

/// A player of a top list as it stands in the file.
#[derive(Clone, Debug, PartialEq, Eq)]
pub struct StoredPlayer {
    pub name: Vec<u8>,
    pub value: u32,
}

/// A stored player as contracts speak of it.
pub ghost struct StoredPlayerView {
    pub name: Seq<u8>,
    pub value: u32,
}

impl View for StoredPlayer {
    type V = StoredPlayerView;

    open spec fn view(&self) -> StoredPlayerView {
        StoredPlayerView { name: self.name@, value: self.value }
    }
}

/// A cache entry as it stands in the file: the bytes of the prefix and the
/// top list.
#[derive(Clone, Debug, PartialEq, Eq)]
pub struct StoredEntry {
    pub prefix: Vec<u8>,
    pub top: Vec<StoredPlayer>,
}

/// A stored entry as contracts speak of it.
pub ghost struct StoredEntryView {
    pub prefix: Seq<u8>,
    pub top: Seq<StoredPlayerView>,
}

impl View for StoredEntry {
    type V = StoredEntryView;

    open spec fn view(&self) -> StoredEntryView {
        StoredEntryView { prefix: self.prefix@, top: self.top@.map_values(|p: StoredPlayer| p@) }
    }
}

/// The views of a sequence of stored entries.
pub open spec fn stored_entry_views(entries: Seq<StoredEntry>) -> Seq<StoredEntryView> {
    entries.map_values(|e: StoredEntry| e@)
}

/// The player at `pos` and the position behind it, if a text and a varint
/// stand there.
pub open spec fn parse_member(bytes: Seq<u8>, pos: int) -> Option<(StoredPlayerView, int)> {
    match parse_text(bytes, pos) {
        Some((name, mid)) => match parse_varint(bytes, mid) {
            Some((value, next)) => Some((StoredPlayerView { name, value }, next)),
            None => None,
        },
        None => None,
    }
}

/// The first `n` players from `pos` on and the position behind them, if as
/// many stand there.
pub open spec fn parse_members(bytes: Seq<u8>, pos: int, n: nat) -> Option<
    (Seq<StoredPlayerView>, int),
>
    decreases n,
{
    if n == 0 {
        Some((Seq::empty(), pos))
    } else {
        match parse_members(bytes, pos, (n - 1) as nat) {
            Some((front, mid)) => match parse_member(bytes, mid) {
                Some((player, next)) => Some((front.push(player), next)),
                None => None,
            },
            None => None,
        }
    }
}

/// The entry at `pos` and the position behind it, if a prefix, a length byte
/// and as many players stand there.
pub open spec fn parse_entry(bytes: Seq<u8>, pos: int) -> Option<(StoredEntryView, int)> {
    match parse_text(bytes, pos) {
        Some((prefix, mid)) => if mid < bytes.len() {
            match parse_members(bytes, mid + 1, bytes[mid] as nat) {
                Some((top, next)) => Some((StoredEntryView { prefix, top }, next)),
                None => None,
            }
        } else {
            None
        },
        None => None,
    }
}

/// The first `n` entries from `pos` on and the position behind them, if as
/// many stand there.
pub open spec fn parse_entries(bytes: Seq<u8>, pos: int, n: nat) -> Option<
    (Seq<StoredEntryView>, int),
>
    decreases n,
{
    if n == 0 {
        Some((Seq::empty(), pos))
    } else {
        match parse_entries(bytes, pos, (n - 1) as nat) {
            Some((front, mid)) => match parse_entry(bytes, mid) {
                Some((entry, next)) => Some((front.push(entry), next)),
                None => None,
            },
            None => None,
        }
    }
}

/// The entries of the prefix-cache region: as many as the count at the cache
/// offset of the header says. There are none where the file has no header,
/// where no count stands at the cache offset, or where fewer entries follow.
pub open spec fn parse_cache(bytes: Seq<u8>) -> Option<Seq<StoredEntryView>> {
    match parse_header(bytes) {
        Some(header) => match parse_le32(bytes, header.cache_offset as int) {
            Some(count) => match parse_entries(bytes, header.cache_offset + 4, count as nat) {
                Some((entries, _)) => Some(entries),
                None => None,
            },
            None => None,
        },
        None => None,
    }
}

/// The position of the first entry for `prefix`, if there is one.
pub open spec fn entry_for(entries: Seq<StoredEntryView>, prefix: Seq<u8>) -> Option<int> {
    if exists|i: int| 0 <= i < entries.len() && (#[trigger] entries[i]).prefix == prefix {
        Some(
            choose|i: int|
                0 <= i < entries.len() && (#[trigger] entries[i]).prefix == prefix && forall|j: int|
                    0 <= j < i ==> (#[trigger] entries[j]).prefix != prefix,
        )
    } else {
        None
    }
}

/// Where fewer than `n` players stand, no more than `n` do.
pub proof fn lemma_members_end(bytes: Seq<u8>, pos: int, n: nat, more: nat)
    requires
        parse_members(bytes, pos, n) is None,
        n <= more,
    ensures
        parse_members(bytes, pos, more) is None,
    decreases more,
{
    if n < more {
        lemma_members_end(bytes, pos, n, (more - 1) as nat);
    }
}

/// Where fewer than `n` entries stand, no more than `n` do.
pub proof fn lemma_entries_end(bytes: Seq<u8>, pos: int, n: nat, more: nat)
    requires
        parse_entries(bytes, pos, n) is None,
        n <= more,
    ensures
        parse_entries(bytes, pos, more) is None,
    decreases more,
{
    if n < more {
        lemma_entries_end(bytes, pos, n, (more - 1) as nat);
    }
}

/// The player at `pos` and the position behind it.
pub fn read_member(bytes: &[u8], pos: usize) -> (r: Option<(StoredPlayer, usize)>)
    ensures
        match r {
            Some((player, next)) => parse_member(bytes@, pos as int) == Some(
                (player@, next as int),
            ),
            None => parse_member(bytes@, pos as int) is None,
        },
{
    let (name, mid) = match read_text(bytes, pos) {
        Some(pair) => pair,
        None => {
            return None;
        },
    };
    let (value, next) = match read_varint(bytes, mid) {
        Some(pair) => pair,
        None => {
            return None;
        },
    };
    Some((StoredPlayer { name, value }, next))
}

/// The entry at `pos` and the position behind it.
pub fn read_entry(bytes: &[u8], pos: usize) -> (r: Option<(StoredEntry, usize)>)
    ensures
        match r {
            Some((entry, next)) => parse_entry(bytes@, pos as int) == Some((entry@, next as int)),
            None => parse_entry(bytes@, pos as int) is None,
        },
{
    let (prefix, mid) = match read_text(bytes, pos) {
        Some(pair) => pair,
        None => {
            return None;
        },
    };
    if mid >= bytes.len() {
        return None;
    }
    let count = bytes[mid] as usize;
    let ghost start = mid + 1;
    let mut top: Vec<StoredPlayer> = Vec::new();
    let mut at = mid + 1;
    let mut k: usize = 0;
    while k < count
        invariant
            k <= count,
            mid < bytes@.len(),
            start == mid + 1,
            count == bytes@[mid as int],
            parse_text(bytes@, pos as int) == Some((prefix@, mid as int)),
            parse_members(bytes@, start as int, k as nat) == Some(
                (top@.map_values(|p: StoredPlayer| p@), at as int),
            ),
        decreases count - k,
    {
        let ghost front = top@.map_values(|p: StoredPlayer| p@);
        match read_member(bytes, at) {
            Some((player, next)) => {
                top.push(player);
                at = next;
                assert(top@.map_values(|p: StoredPlayer| p@) =~= front.push(player@));
            },
            None => {
                proof {
                    assert(parse_members(bytes@, start as int, (k + 1) as nat) is None);
                    lemma_members_end(bytes@, start as int, (k + 1) as nat, count as nat);
                }
                return None;
            },
        }
        k = k + 1;
    }
    Some((StoredEntry { prefix, top }, at))
}

/// The entries of the prefix-cache region, in their order.
pub fn read_prefix_cache(bytes: &[u8]) -> (r: Option<Vec<StoredEntry>>)
    ensures
        match r {
            Some(entries) => parse_cache(bytes@) == Some(stored_entry_views(entries@)),
            None => parse_cache(bytes@) is None,
        },
{
    let header = match read_header(bytes) {
        Some(header) => header,
        None => {
            return None;
        },
    };
    if header.cache_offset as u64 > bytes.len() as u64 {
        return None;
    }
    let start = header.cache_offset as usize;
    let count = match read_le32(bytes, start) {
        Some(count) => count,
        None => {
            return None;
        },
    };
    let mut entries: Vec<StoredEntry> = Vec::new();
    let mut at = start + 4;
    let mut k: u32 = 0;
    while k < count
        invariant
            k <= count,
            parse_header(bytes@) == Some(header),
            start == header.cache_offset,
            parse_le32(bytes@, start as int) == Some(count),
            parse_entries(bytes@, start + 4, k as nat) == Some(
                (stored_entry_views(entries@), at as int),
            ),
        decreases count - k,
    {
        let ghost front = stored_entry_views(entries@);
        match read_entry(bytes, at) {
            Some((entry, next)) => {
                entries.push(entry);
                at = next;
                assert(stored_entry_views(entries@) =~= front.push(entry@));
            },
            None => {
                proof {
                    assert(parse_entries(bytes@, start + 4, (k + 1) as nat) is None);
                    lemma_entries_end(bytes@, start + 4, (k + 1) as nat, count as nat);
                }
                return None;
            },
        }
        k = k + 1;
    }
    Some(entries)
}

/// The position of the first of `entries` that is for `prefix`.
pub fn find_prefix(entries: &Vec<StoredEntry>, prefix: &str) -> (r: Option<usize>)
    ensures
        match r {
            Some(i) => entry_for(stored_entry_views(entries@), prefix.spec_bytes()) == Some(
                i as int,
            ),
            None => entry_for(stored_entry_views(entries@), prefix.spec_bytes()) is None,
        },
{
    let wanted = prefix.as_bytes();
    let ghost views = stored_entry_views(entries@);
    let mut i: usize = 0;
    while i < entries.len()
        invariant
            i <= entries@.len(),
            wanted@ == prefix.spec_bytes(),
            views == stored_entry_views(entries@),
            forall|j: int| 0 <= j < i ==> (#[trigger] views[j]).prefix != wanted@,
        decreases entries@.len() - i,
    {
        assert(views[i as int] == entries@[i as int]@);
        if same_bytes(entries[i].prefix.as_slice(), wanted) {
            proof {
                let chosen = choose|c: int|
                    0 <= c < views.len() && (#[trigger] views[c]).prefix == wanted@ && forall|j: int|
                        0 <= j < c ==> (#[trigger] views[j]).prefix != wanted@;
                assert(views[chosen].prefix == wanted@);
                assert(chosen == i);
            }
            return Some(i);
        }
        i = i + 1;
    }
    None
}

/// Whether two byte strings are equal.
pub fn same_bytes(a: &[u8], b: &[u8]) -> (r: bool)
    ensures
        r == (a@ == b@),
{
    if a.len() != b.len() {
        return false;
    }
    let mut i: usize = 0;
    while i < a.len()
        invariant
            i <= a@.len(),
            a@.len() == b@.len(),
            forall|j: int| 0 <= j < i ==> a@[j] == b@[j],
        decreases a@.len() - i,
    {
        if a[i] != b[i] {
            return false;
        }
        i = i + 1;
    }
    assert(a@ =~= b@);
    true
}

} // verus!
