//! The prefix cache under construction, held in an `indexmap::IndexMap`: a
//! hash map that keeps its entries in insertion order and lets go of any of
//! them without disturbing the order of the rest.

use crate::prefix_cache::{
    counts_within, evict, holds_top_lists, is_popular, lemma_evict_entries_are_old,
    lemma_evict_keeps_shape, lemma_touch_counts, lemma_touch_keeps_shape, prefix_slot,
    prefixes_distinct, touch, touch_all, entry_views, PrefixCacheEntry, PrefixCacheEntryView,
};
use crate::prefixes::string_views;
use crate::tally::{Tally, TopPlayer, TopPlayerView};
use indexmap::IndexMap;
use std::collections::hash_map::RandomState;
use vstd::prelude::*;
use vstd::string::*;

verus! {

/// `indexmap::IndexMap`, a hash map that keeps its entries in insertion order.
#[verifier::external_type_specification]
#[verifier::external_body]
#[verifier::reject_recursive_types(K)]
#[verifier::reject_recursive_types(V)]
#[verifier::reject_recursive_types(S)]
pub struct ExIndexMap<K, V, S>(IndexMap<K, V, S>);

/// What a map from prefixes to tallies holds: its entries in their order.
pub uninterp spec fn map_entries(map: IndexMap<String, Tally, RandomState>) -> Seq<
    PrefixCacheEntryView,
>;

/// A map without entries.
///
/// Calls `IndexMap::new`, which creates an empty map.
#[verifier::external_body]
fn map_new() -> (map: IndexMap<String, Tally, RandomState>)
    ensures
        map_entries(map) == Seq::<PrefixCacheEntryView>::empty(),
{
    IndexMap::new()
}

/// The number of entries.
///
/// Calls `IndexMap::len`, which returns the number of key-value pairs.
#[verifier::external_body]
fn map_len(map: &IndexMap<String, Tally, RandomState>) -> (n: usize)
    ensures
        n == map_entries(*map).len(),
{
    map.len()
}

/// The position of the entry with the key `key`, if there is one.
///
/// Calls `IndexMap::get_index_of`, which returns the index of the item whose
/// key is equal to `key`, and `None` where no item has that key.
#[verifier::external_body]
fn map_index_of(map: &IndexMap<String, Tally, RandomState>, key: &str) -> (r: Option<usize>)
    ensures
        match r {
            Some(i) => i < map_entries(*map).len() && map_entries(*map)[i as int].prefix == key@,
            None => forall|j: int|
                0 <= j < map_entries(*map).len() ==> (#[trigger] map_entries(*map)[j]).prefix
                    != key@,
        },
{
    map.get_index_of(key)
}

/// Adds an entry for a key that the map does not hold.
///
/// Calls `IndexMap::insert`. Where no equal key is in the map, that inserts
/// the pair last in order; `requires` leaves the other case out.
#[verifier::external_body]
fn map_append(map: &mut IndexMap<String, Tally, RandomState>, key: String, value: Tally)
    requires
        forall|j: int|
            0 <= j < map_entries(*old(map)).len() ==> (#[trigger] map_entries(*old(map))[j]).prefix
                != key@,
    ensures
        map_entries(*final(map)) == map_entries(*old(map)).push(
            PrefixCacheEntryView { prefix: key@, tally: value@ },
        ),
{
    map.insert(key, value);
}

/// The value of the entry at `index`, to be changed in place.
///
/// Calls `IndexMap::get_index_mut`, which returns the key and the value at
/// the index, the value mutably, and `None` where the index is not below the
/// length. The key and the other entries stay as they are.
#[verifier::external_body]
fn map_value_mut(map: &mut IndexMap<String, Tally, RandomState>, index: usize) -> (r: Option<
    &mut Tally,
>)
    ensures
        match r {
            Some(tally) => {
                &&& index < map_entries(*old(map)).len()
                &&& (*tally)@ == map_entries(*old(map))[index as int].tally
                &&& map_entries(*final(map)) == map_entries(*old(map)).update(
                    index as int,
                    PrefixCacheEntryView {
                        prefix: map_entries(*old(map))[index as int].prefix,
                        tally: (*final(tally))@,
                    },
                )
            },
            None => index >= map_entries(*old(map)).len() && map_entries(*final(map))
                == map_entries(*old(map)),
        },
{
    map.get_index_mut(index).map(|pair| pair.1)
}

/// The key and the value of the entry at `index`.
///
/// Calls `IndexMap::get_index`, which returns the pair at the index, and
/// `None` where the index is not below the length.
#[verifier::external_body]
fn map_entry_at(map: &IndexMap<String, Tally, RandomState>, index: usize) -> (r: Option<
    (&String, &Tally),
>)
    ensures
        match r {
            Some((key, value)) => {
                &&& index < map_entries(*map).len()
                &&& key@ == map_entries(*map)[index as int].prefix
                &&& value@ == map_entries(*map)[index as int].tally
            },
            None => index >= map_entries(*map).len(),
        },
{
    map.get_index(index)
}

/// Takes the entry at `index` out of the map.
///
/// Calls `IndexMap::shift_remove_index`, which removes the pair at the index
/// and shifts the pairs behind it down, keeping their order; it returns
/// `None`, and removes nothing, where the index is not below the length.
#[verifier::external_body]
fn map_shift_remove(map: &mut IndexMap<String, Tally, RandomState>, index: usize) -> (r: Option<
    (String, Tally),
>)
    ensures
        match r {
            Some((key, value)) => {
                &&& index < map_entries(*old(map)).len()
                &&& key@ == map_entries(*old(map))[index as int].prefix
                &&& value@ == map_entries(*old(map))[index as int].tally
                &&& map_entries(*final(map)) == map_entries(*old(map)).remove(index as int)
            },
            None => index >= map_entries(*old(map)).len() && map_entries(*final(map))
                == map_entries(*old(map)),
        },
{
    map.shift_remove_index(index)
}

/// The prefix cache under construction.
pub struct PrefixCache {
    map: IndexMap<String, Tally, RandomState>,
}

impl View for PrefixCache {
    type V = Seq<PrefixCacheEntryView>;

    closed spec fn view(&self) -> Seq<PrefixCacheEntryView> {
        map_entries(self.map)
    }
}

impl PrefixCache {
    /// No two entries are for the same prefix, and every entry holds a top
    /// list.
    pub open spec fn wf(&self) -> bool {
        prefixes_distinct(self@) && holds_top_lists(self@)
    }

    /// A cache without entries.
    pub fn new() -> (r: PrefixCache)
        ensures
            r.wf(),
            r@ == Seq::<PrefixCacheEntryView>::empty(),
    {
        PrefixCache { map: map_new() }
    }

    /// The number of entries.
    pub fn len(&self) -> (n: usize)
        ensures
            n == self@.len(),
    {
        map_len(&self.map)
    }

    /// Counts one record for `prefix`, with its player for the top list.
    pub fn touch(&mut self, prefix: &str, name: &str, value: u32)
        requires
            old(self).wf(),
            counts_within(old(self)@, u32::MAX - 1),
        ensures
            final(self).wf(),
            final(self)@ == touch(old(self)@, prefix@, TopPlayerView { name: name@, value }),
    {
        let ghost before = self@;
        let ghost player = TopPlayerView { name: name@, value };
        let slot = match map_index_of(&self.map, prefix) {
            Some(i) => {
                proof {
                    assert(before[i as int].prefix == prefix@);
                    let w = prefix_slot(before, prefix@);
                    assert(before[w].prefix == prefix@);
                    assert(w == i);
                }
                i
            },
            None => {
                map_append(&mut self.map, prefix.to_owned(), Tally::new());
                map_len(&self.map) - 1
            },
        };
        let ghost middle = self@;
        match map_value_mut(&mut self.map, slot) {
            Some(tally) => {
                tally.add(TopPlayer { name: name.to_owned(), value });
            },
            None => {},
        }
        proof {
            assert(self@ =~= touch(before, prefix@, player));
            lemma_touch_keeps_shape(before, prefix@, player);
        }
    }

    /// Counts one record for each of `prefixes`, in their order.
    pub fn touch_all(&mut self, prefixes: &Vec<String>, name: &str, value: u32)
        requires
            old(self).wf(),
            counts_within(old(self)@, u32::MAX - prefixes@.len()),
            prefixes@.len() <= u32::MAX,
        ensures
            final(self).wf(),
            final(self)@ == touch_all(
                old(self)@,
                string_views(prefixes@),
                TopPlayerView { name: name@, value },
            ),
    {
        let ghost before = self@;
        let ghost player = TopPlayerView { name: name@, value };
        let ghost all = string_views(prefixes@);
        let ghost bound = u32::MAX - prefixes@.len();
        let mut k: usize = 0;
        while k < prefixes.len()
            invariant
                k <= prefixes@.len(),
                prefixes@.len() <= u32::MAX,
                all == string_views(prefixes@),
                bound == u32::MAX - prefixes@.len(),
                player == (TopPlayerView { name: name@, value }),
                self.wf(),
                self@ == touch_all(before, all.take(k as int), player),
                counts_within(self@, bound + k),
            decreases prefixes@.len() - k,
        {
            let ghost middle = self@;
            self.touch(prefixes[k].as_str(), name, value);
            proof {
                assert(all.take(k + 1).drop_last() =~= all.take(k as int));
                assert(all.take(k + 1).last() == prefixes@[k as int]@);
                lemma_touch_counts(middle, prefixes@[k as int]@, player, bound + k);
            }
            k = k + 1;
        }
        assert(all.take(k as int) =~= all);
    }

    /// Drops the entries that fewer than `threshold` records carry. The
    /// entries that stay keep their order.
    pub fn evict(&mut self, threshold: u32)
        requires
            old(self).wf(),
        ensures
            final(self).wf(),
            final(self)@ == evict(old(self)@, threshold as nat),
            forall|k: int|
                0 <= k < final(self)@.len() ==> (#[trigger] final(self)@[k]).tally.count
                    >= threshold && old(self)@.contains(final(self)@[k]),
    {
        let ghost before = self@;
        let ghost test = is_popular(threshold as nat);
        let mut i: usize = self.len();
        proof {
            reveal(Seq::filter);
            assert(before.skip(i as int) =~= Seq::<PrefixCacheEntryView>::empty());
            assert(self@ =~= before.take(i as int) + before.skip(i as int).filter(test));
        }
        while i > 0
            invariant
                i <= before.len(),
                test == is_popular(threshold as nat),
                self@ == before.take(i as int) + before.skip(i as int).filter(test),
            decreases i,
        {
            i = i - 1;
            let ghost x = before[i as int];
            proof {
                assert(self@[i as int] == before.take(i + 1)[i as int]);
                assert(before.skip(i as int) =~= seq![x] + before.skip(i + 1));
                before.skip(i + 1).lemma_filter_prepend(x, test);
            }
            let keep = match map_entry_at(&self.map, i) {
                Some(pair) => pair.1.count >= threshold,
                None => true,
            };
            if !keep {
                map_shift_remove(&mut self.map, i);
            }
            assert(self@ =~= before.take(i as int) + before.skip(i as int).filter(test));
        }
        proof {
            assert(before.skip(0) =~= before);
            lemma_evict_keeps_shape(before, threshold as nat);
            lemma_evict_entries_are_old(before, threshold as nat);
        }
    }

    /// The entries of the cache, in their order.
    pub fn entries(&self) -> (r: Vec<PrefixCacheEntry>)
        ensures
            entry_views(r@) == self@,
    {
        let mut r: Vec<PrefixCacheEntry> = Vec::new();
        let n = self.len();
        let mut k: usize = 0;
        while k < n
            invariant
                k <= n,
                n == self@.len(),
                r@.len() == k,
                forall|a: int| 0 <= a < k ==> (#[trigger] r@[a])@ == self@[a],
            decreases n - k,
        {
            match map_entry_at(&self.map, k) {
                Some(pair) => {
                    r.push(PrefixCacheEntry { prefix: pair.0.clone(), tally: pair.1.duplicate() });
                },
                None => {},
            }
            k = k + 1;
        }
        assert(entry_views(r@) =~= self@);
        r
    }
}

} // verus!
