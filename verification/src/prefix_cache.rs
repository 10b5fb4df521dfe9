//! The prefix cache as contracts speak of it: for each prefix, in the order in
//! which the prefixes were first seen, how many records carry it and the ten
//! of them with the highest values.

use crate::tally::{
    is_top_list, lemma_top_insert_is_top_list, Tally, TallyView, TopPlayerView,
};
use vstd::prelude::*;
use vstd::string::*;

verus! {

/// One prefix with its tally.
#[derive(Clone, Debug, PartialEq, Eq)]
pub struct PrefixCacheEntry {
    pub prefix: String,
    pub tally: Tally,
}

/// A cache entry as contracts speak of it.
pub ghost struct PrefixCacheEntryView {
    pub prefix: Seq<char>,
    pub tally: TallyView,
}

impl View for PrefixCacheEntry {
    type V = PrefixCacheEntryView;

    open spec fn view(&self) -> PrefixCacheEntryView {
        PrefixCacheEntryView { prefix: self.prefix@, tally: self.tally@ }
    }
}

/// The views of a sequence of cache entries.
pub open spec fn entry_views(entries: Seq<PrefixCacheEntry>) -> Seq<PrefixCacheEntryView> {
    entries.map_values(|e: PrefixCacheEntry| e@)
}

/// Whether some entry is for `prefix`.
pub open spec fn has_prefix(cache: Seq<PrefixCacheEntryView>, prefix: Seq<char>) -> bool {
    exists|i: int| 0 <= i < cache.len() && (#[trigger] cache[i]).prefix == prefix
}

/// The position of an entry for `prefix`.
pub open spec fn prefix_slot(cache: Seq<PrefixCacheEntryView>, prefix: Seq<char>) -> int {
    choose|i: int| 0 <= i < cache.len() && (#[trigger] cache[i]).prefix == prefix
}

/// Whether no two entries are for the same prefix.
pub open spec fn prefixes_distinct(cache: Seq<PrefixCacheEntryView>) -> bool {
    forall|i: int, j: int|
        0 <= i < j < cache.len() ==> (#[trigger] cache[i]).prefix != (#[trigger] cache[j]).prefix
}

/// Whether every entry holds a top list.
pub open spec fn holds_top_lists(cache: Seq<PrefixCacheEntryView>) -> bool {
    forall|i: int| 0 <= i < cache.len() ==> is_top_list((#[trigger] cache[i]).tally.top)
}

/// The cache after one record that carries `prefix`: the entry of the prefix
/// counts it, and a prefix seen for the first time gets an entry at the end.
pub open spec fn touch(
    cache: Seq<PrefixCacheEntryView>,
    prefix: Seq<char>,
    player: TopPlayerView,
) -> Seq<PrefixCacheEntryView> {
    if has_prefix(cache, prefix) {
        let i = prefix_slot(cache, prefix);
        cache.update(i, PrefixCacheEntryView { prefix, tally: cache[i].tally.add(player) })
    } else {
        cache.push(PrefixCacheEntryView { prefix, tally: TallyView::empty().add(player) })
    }
}

/// The cache after one record that carries each of `prefixes`.
pub open spec fn touch_all(
    cache: Seq<PrefixCacheEntryView>,
    prefixes: Seq<Seq<char>>,
    player: TopPlayerView,
) -> Seq<PrefixCacheEntryView>
    decreases prefixes.len(),
{
    if prefixes.len() == 0 {
        cache
    } else {
        touch(touch_all(cache, prefixes.drop_last(), player), prefixes.last(), player)
    }
}

/// The test that an entry passes when at least `threshold` records carry its
/// prefix.
pub open spec fn is_popular(threshold: nat) -> spec_fn(PrefixCacheEntryView) -> bool {
    |e: PrefixCacheEntryView| e.tally.count >= threshold
}

/// The cache without the entries that fewer than `threshold` records carry.
pub open spec fn evict(cache: Seq<PrefixCacheEntryView>, threshold: nat) -> Seq<
    PrefixCacheEntryView,
> {
    cache.filter(is_popular(threshold))
}

/// Whether every count of the cache is at most `bound`.
pub open spec fn counts_within(cache: Seq<PrefixCacheEntryView>, bound: int) -> bool {
    forall|i: int| 0 <= i < cache.len() ==> (#[trigger] cache[i]).tally.count <= bound
}

/// One more record raises no count by more than one.
pub proof fn lemma_touch_counts(
    cache: Seq<PrefixCacheEntryView>,
    prefix: Seq<char>,
    player: TopPlayerView,
    bound: int,
)
    requires
        0 <= bound,
        counts_within(cache, bound),
    ensures
        counts_within(touch(cache, prefix, player), bound + 1),
{
    let after = touch(cache, prefix, player);
    assert forall|i: int| 0 <= i < after.len() implies (#[trigger] after[i]).tally.count <= bound
        + 1 by {
        if has_prefix(cache, prefix) {
            let slot = prefix_slot(cache, prefix);
            assert(cache[slot].tally.count <= bound);
            assert(cache[i].tally.count <= bound);
        } else if i < cache.len() {
            assert(cache[i].tally.count <= bound);
        }
    }
}

/// One record raises no count by more than the number of its prefixes.
pub proof fn lemma_touch_all_counts(
    cache: Seq<PrefixCacheEntryView>,
    prefixes: Seq<Seq<char>>,
    player: TopPlayerView,
    bound: int,
)
    requires
        0 <= bound,
        counts_within(cache, bound),
    ensures
        counts_within(touch_all(cache, prefixes, player), bound + prefixes.len()),
    decreases prefixes.len(),
{
    if prefixes.len() > 0 {
        lemma_touch_all_counts(cache, prefixes.drop_last(), player, bound);
        lemma_touch_counts(
            touch_all(cache, prefixes.drop_last(), player),
            prefixes.last(),
            player,
            bound + prefixes.len() - 1,
        );
    }
}

/// Counting one record keeps the prefixes distinct and the top lists in order.
pub proof fn lemma_touch_keeps_shape(
    cache: Seq<PrefixCacheEntryView>,
    prefix: Seq<char>,
    player: TopPlayerView,
)
    requires
        prefixes_distinct(cache),
        holds_top_lists(cache),
    ensures
        prefixes_distinct(touch(cache, prefix, player)),
        holds_top_lists(touch(cache, prefix, player)),
{
    let after = touch(cache, prefix, player);
    if has_prefix(cache, prefix) {
        let slot = prefix_slot(cache, prefix);
        lemma_top_insert_is_top_list(cache[slot].tally.top, player);
        assert forall|i: int, j: int| 0 <= i < j < after.len() implies (#[trigger] after[i]).prefix
            != (#[trigger] after[j]).prefix by {
            assert(after[i].prefix == cache[i].prefix && after[j].prefix == cache[j].prefix);
        }
        assert forall|i: int| 0 <= i < after.len() implies is_top_list(
            (#[trigger] after[i]).tally.top,
        ) by {
            if i != slot {
                assert(after[i] == cache[i]);
            }
        }
    } else {
        lemma_top_insert_is_top_list(Seq::empty(), player);
        assert forall|i: int, j: int| 0 <= i < j < after.len() implies (#[trigger] after[i]).prefix
            != (#[trigger] after[j]).prefix by {
            assert(after[i] == cache[i]);
            if j < cache.len() {
                assert(after[j] == cache[j]);
            }
        }
        assert forall|i: int| 0 <= i < after.len() implies is_top_list(
            (#[trigger] after[i]).tally.top,
        ) by {
            if i < cache.len() {
                assert(after[i] == cache[i]);
            }
        }
    }
}

/// Counting one record under all its prefixes keeps the prefixes distinct and
/// the top lists in order.
pub proof fn lemma_touch_all_keeps_shape(
    cache: Seq<PrefixCacheEntryView>,
    prefixes: Seq<Seq<char>>,
    player: TopPlayerView,
)
    requires
        prefixes_distinct(cache),
        holds_top_lists(cache),
    ensures
        prefixes_distinct(touch_all(cache, prefixes, player)),
        holds_top_lists(touch_all(cache, prefixes, player)),
    decreases prefixes.len(),
{
    if prefixes.len() > 0 {
        lemma_touch_all_keeps_shape(cache, prefixes.drop_last(), player);
        lemma_touch_keeps_shape(
            touch_all(cache, prefixes.drop_last(), player),
            prefixes.last(),
            player,
        );
    }
}

/// What eviction leaves are entries of the cache, in their order, each
/// carried by at least `threshold` records.
pub proof fn lemma_evict_keeps_shape(cache: Seq<PrefixCacheEntryView>, threshold: nat)
    ensures
        evict(cache, threshold).len() <= cache.len(),
        forall|k: int|
            0 <= k < evict(cache, threshold).len() ==> (#[trigger] evict(
                cache,
                threshold,
            )[k]).tally.count >= threshold,
        prefixes_distinct(cache) ==> prefixes_distinct(evict(cache, threshold)),
        holds_top_lists(cache) ==> holds_top_lists(evict(cache, threshold)),
    decreases cache.len(),
{
    reveal(Seq::filter);
    let test = is_popular(threshold);
    let kept = evict(cache, threshold);
    if cache.len() > 0 {
        let front = cache.drop_last();
        let inner = evict(front, threshold);
        lemma_evict_keeps_shape(front, threshold);
        lemma_evict_entries_are_old(front, threshold);
        assert forall|i: int, j: int| 0 <= i < j < front.len() && prefixes_distinct(
            cache,
        ) implies (#[trigger] front[i]).prefix != (#[trigger] front[j]).prefix by {
            assert(front[i] == cache[i] && front[j] == cache[j]);
        }
        assert forall|i: int| 0 <= i < front.len() && holds_top_lists(cache) implies is_top_list(
            (#[trigger] front[i]).tally.top,
        ) by {
            assert(front[i] == cache[i]);
        }
        if test(cache.last()) {
            assert(kept == inner.push(cache.last()));
            assert forall|i: int, j: int| 0 <= i < j < kept.len() && prefixes_distinct(
                cache,
            ) implies (#[trigger] kept[i]).prefix != (#[trigger] kept[j]).prefix by {
                if j == inner.len() {
                    let w = choose|w: int| 0 <= w < front.len() && front[w] == inner[i];
                    assert(cache[w] == inner[i]);
                    assert(cache[w].prefix != cache[cache.len() - 1].prefix);
                } else {
                    assert(kept[i] == inner[i] && kept[j] == inner[j]);
                }
            }
            assert forall|i: int| 0 <= i < kept.len() && holds_top_lists(cache) implies is_top_list(
                (#[trigger] kept[i]).tally.top,
            ) by {
                if i == inner.len() {
                    assert(kept[i] == cache[cache.len() - 1]);
                } else {
                    assert(kept[i] == inner[i]);
                }
            }
            assert forall|k: int| 0 <= k < kept.len() implies (#[trigger] kept[k]).tally.count
                >= threshold by {
                if k < inner.len() {
                    assert(kept[k] == inner[k]);
                }
            }
        } else {
            assert(kept == inner);
        }
    }
}

/// Every entry that eviction leaves is an entry of the cache.
pub proof fn lemma_evict_entries_are_old(cache: Seq<PrefixCacheEntryView>, threshold: nat)
    ensures
        forall|k: int|
            0 <= k < evict(cache, threshold).len() ==> cache.contains(
                #[trigger] evict(cache, threshold)[k],
            ),
    decreases cache.len(),
{
    reveal(Seq::filter);
    let kept = evict(cache, threshold);
    if cache.len() > 0 {
        let front = cache.drop_last();
        let inner = evict(front, threshold);
        lemma_evict_entries_are_old(front, threshold);
        assert forall|k: int| 0 <= k < kept.len() implies cache.contains(#[trigger] kept[k]) by {
            if k < inner.len() {
                assert(kept[k] == inner[k]);
                let w = choose|w: int| 0 <= w < front.len() && front[w] == inner[k];
                assert(cache[w] == kept[k]);
            } else {
                assert(cache[cache.len() - 1] == kept[k]);
            }
        }
    }
}

} // verus!
