//! The sort stage: records in the order of their sort keys, compared byte by
//! byte, with records of equal keys left in the order in which they came.

use crate::record::{record_views, PlayerRecord, PlayerRecordView};
use crate::text::{
    bytes_le, bytes_lt, key_le, lemma_bytes_le_antisymmetric, lemma_bytes_le_reflexive,
    lemma_bytes_le_total, lemma_bytes_le_transitive,
};
use vstd::prelude::*;
use vstd::string::*;
use vstd::utf8::encode_utf8;

verus! {

/// The bytes by which each record is sorted.
pub open spec fn sort_keys(records: Seq<PlayerRecordView>) -> Seq<Seq<u8>> {
    records.map_values(|r: PlayerRecordView| encode_utf8(r.sort_key))
}

/// Whether the item at position `i` of the input belongs before the one at
/// position `j`: its key is smaller, or the keys are equal and it came first.
pub open spec fn precedes(keys: Seq<Seq<u8>>, i: int, j: int) -> bool {
    bytes_lt(keys[i], keys[j]) || (keys[i] == keys[j] && i < j)
}

/// Whether `order` lists `hi - lo` input positions from `lo` up to `hi`, each
/// belonging before the next.
pub open spec fn is_sorted_run(order: Seq<usize>, keys: Seq<Seq<u8>>, lo: int, hi: int) -> bool {
    &&& order.len() == hi - lo
    &&& forall|k: int| 0 <= k < order.len() ==> lo <= #[trigger] order[k] < hi
    &&& forall|a: int, b: int|
        0 <= a < b < order.len() ==> precedes(keys, #[trigger] order[a] as int, #[trigger] order[b] as int)
}

/// Machine positions as numbers.
pub open spec fn as_positions(order: Seq<usize>) -> Seq<int> {
    order.map_values(|x: usize| x as int)
}

/// Whether `order` lists as many input positions as there are keys, each
/// belonging before the next: the input positions in sorted order.
pub open spec fn is_stable_order(order: Seq<int>, keys: Seq<Seq<u8>>) -> bool {
    &&& order.len() == keys.len()
    &&& forall|k: int| 0 <= k < order.len() ==> 0 <= #[trigger] order[k] < keys.len()
    &&& forall|a: int, b: int|
        0 <= a < b < order.len() ==> precedes(keys, #[trigger] order[a], #[trigger] order[b])
}

/// The input taken in the given order.
pub open spec fn arranged<T>(input: Seq<T>, order: Seq<int>) -> Seq<T> {
    Seq::new(order.len(), |k: int| input[order[k]])
}

/// The input positions in sorted order.
pub open spec fn stable_order(keys: Seq<Seq<u8>>) -> Seq<int> {
    choose|order: Seq<int>| is_stable_order(order, keys)
}

/// The records sorted by key, records of equal keys in their input order.
pub open spec fn sorted_records(input: Seq<PlayerRecordView>) -> Seq<PlayerRecordView> {
    arranged(input, stable_order(sort_keys(input)))
}

/// Belonging before is transitive.
pub proof fn lemma_precedes_transitive(keys: Seq<Seq<u8>>, a: int, b: int, c: int)
    requires
        precedes(keys, a, b),
        precedes(keys, b, c),
    ensures
        precedes(keys, a, c),
{
    let (x, y, z) = (keys[a], keys[b], keys[c]);
    lemma_bytes_le_total(x, y);
    lemma_bytes_le_total(y, z);
    if bytes_le(z, x) {
        if bytes_le(x, y) {
            lemma_bytes_le_transitive(z, x, y);
        }
        if bytes_le(y, z) {
            lemma_bytes_le_transitive(y, z, x);
        }
        lemma_bytes_le_reflexive(x);
    }
}

/// Of two different positions one belongs before the other, and never both.
pub proof fn lemma_precedes_total(keys: Seq<Seq<u8>>, a: int, b: int)
    requires
        a != b,
    ensures
        precedes(keys, a, b) != precedes(keys, b, a),
{
    lemma_bytes_le_total(keys[a], keys[b]);
    lemma_bytes_le_reflexive(keys[a]);
    if bytes_le(keys[a], keys[b]) && bytes_le(keys[b], keys[a]) {
        lemma_bytes_le_antisymmetric(keys[a], keys[b]);
    }
}

/// Merges two sorted runs of adjoining ranges of positions into one.
fn merge_runs(
    records: &Vec<PlayerRecord>,
    left: &Vec<usize>,
    right: &Vec<usize>,
    Ghost(lo): Ghost<int>,
    Ghost(mid): Ghost<int>,
    Ghost(hi): Ghost<int>,
) -> (out: Vec<usize>)
    requires
        0 <= lo <= mid <= hi <= records@.len(),
        is_sorted_run(left@, sort_keys(record_views(records@)), lo, mid),
        is_sorted_run(right@, sort_keys(record_views(records@)), mid, hi),
    ensures
        is_sorted_run(out@, sort_keys(record_views(records@)), lo, hi),
{
    let ghost keys = sort_keys(record_views(records@));
    let mut out: Vec<usize> = Vec::new();
    let mut i: usize = 0;
    let mut j: usize = 0;
    while i < left.len() || j < right.len()
        invariant
            0 <= lo <= mid <= hi <= records@.len(),
            keys == sort_keys(record_views(records@)),
            is_sorted_run(left@, keys, lo, mid),
            is_sorted_run(right@, keys, mid, hi),
            i <= left@.len(),
            j <= right@.len(),
            out@.len() == i + j,
            forall|k: int| 0 <= k < out@.len() ==> lo <= #[trigger] out@[k] < hi,
            forall|a: int, b: int|
                0 <= a < b < out@.len() ==> precedes(
                    keys,
                    #[trigger] out@[a] as int,
                    #[trigger] out@[b] as int,
                ),
            forall|a: int, p: int|
                0 <= a < out@.len() && i <= p < left@.len() ==> precedes(
                    keys,
                    #[trigger] out@[a] as int,
                    #[trigger] left@[p] as int,
                ),
            forall|a: int, q: int|
                0 <= a < out@.len() && j <= q < right@.len() ==> precedes(
                    keys,
                    #[trigger] out@[a] as int,
                    #[trigger] right@[q] as int,
                ),
        decreases left@.len() - i + right@.len() - j,
    {
        let take_left = if i >= left.len() {
            false
        } else if j >= right.len() {
            true
        } else {
            key_le(
                records[left[i]].sort_key.as_str(),
                records[right[j]].sort_key.as_str(),
            )
        };
        let ghost before = out@;
        if take_left {
            let x = left[i];
            proof {
                assert forall|q: int| j <= q < right@.len() implies precedes(
                    keys,
                    x as int,
                    #[trigger] right@[q] as int,
                ) by {
                    let y = right@[j as int];
                    assert(keys[x as int] == encode_utf8(records@[x as int].sort_key@));
                    assert(keys[y as int] == encode_utf8(records@[y as int].sort_key@));
                    if bytes_le(keys[y as int], keys[x as int]) {
                        lemma_bytes_le_antisymmetric(keys[x as int], keys[y as int]);
                    }
                    assert(precedes(keys, x as int, y as int));
                    if q > j {
                        assert(precedes(keys, right@[j as int] as int, right@[q] as int));
                        lemma_precedes_transitive(keys, x as int, y as int, right@[q] as int);
                    }
                }
            }
            out.push(x);
            i = i + 1;
        } else {
            let y = right[j];
            proof {
                assert forall|p: int| i <= p < left@.len() implies precedes(
                    keys,
                    y as int,
                    #[trigger] left@[p] as int,
                ) by {
                    let x = left@[i as int];
                    assert(keys[x as int] == encode_utf8(records@[x as int].sort_key@));
                    assert(keys[y as int] == encode_utf8(records@[y as int].sort_key@));
                    assert(precedes(keys, y as int, x as int));
                    if p > i {
                        assert(precedes(keys, left@[i as int] as int, left@[p] as int));
                        lemma_precedes_transitive(keys, y as int, x as int, left@[p] as int);
                    }
                }
            }
            out.push(y);
            j = j + 1;
        }
        proof {
            let added = out@[before.len() as int];
            assert forall|a: int, b: int| 0 <= a < b < out@.len() implies precedes(
                keys,
                #[trigger] out@[a] as int,
                #[trigger] out@[b] as int,
            ) by {
                assert(out@[a] == before[a]);
                if b < before.len() {
                    assert(out@[b] == before[b]);
                }
            }
            assert forall|a: int, p: int| 0 <= a < out@.len() && i <= p < left@.len() implies precedes(
                keys,
                #[trigger] out@[a] as int,
                #[trigger] left@[p] as int,
            ) by {
                if a < before.len() {
                    assert(out@[a] == before[a]);
                } else if take_left {
                    assert(precedes(keys, left@[i - 1] as int, left@[p] as int));
                }
            }
            assert forall|a: int, q: int| 0 <= a < out@.len() && j <= q < right@.len() implies precedes(
                keys,
                #[trigger] out@[a] as int,
                #[trigger] right@[q] as int,
            ) by {
                if a < before.len() {
                    assert(out@[a] == before[a]);
                } else if !take_left {
                    assert(precedes(keys, right@[j - 1] as int, right@[q] as int));
                }
            }
        }
    }
    out
}

/// The positions from `lo` up to `hi` in sorted order.
fn sort_range(records: &Vec<PlayerRecord>, lo: usize, hi: usize) -> (order: Vec<usize>)
    requires
        lo <= hi <= records@.len(),
    ensures
        is_sorted_run(order@, sort_keys(record_views(records@)), lo as int, hi as int),
    decreases hi - lo,
{
    if hi - lo <= 1 {
        let mut order: Vec<usize> = Vec::new();
        if hi - lo == 1 {
            order.push(lo);
        }
        order
    } else {
        let mid = lo + (hi - lo) / 2;
        let left = sort_range(records, lo, mid);
        let right = sort_range(records, mid, hi);
        merge_runs(records, &left, &right, Ghost(lo as int), Ghost(mid as int), Ghost(hi as int))
    }
}

/// The positions of `records` in sorted order: by key, compared byte by byte,
/// and by position where the keys are equal.
pub fn sorted_positions(records: &Vec<PlayerRecord>) -> (order: Vec<usize>)
    ensures
        is_stable_order(as_positions(order@), sort_keys(record_views(records@))),
        as_positions(order@) == stable_order(sort_keys(record_views(records@))),
{
    let order = sort_range(records, 0, records.len());
    proof {
        let keys = sort_keys(record_views(records@));
        let positions = as_positions(order@);
        assert forall|a: int, b: int| 0 <= a < b < positions.len() implies precedes(
            keys,
            #[trigger] positions[a],
            #[trigger] positions[b],
        ) by {
            assert(precedes(keys, order@[a] as int, order@[b] as int));
        }
        assert(is_stable_order(positions, keys));
        lemma_stable_order_unique(keys, positions, stable_order(keys));
    }
    order
}

/// A sorted order lists no position twice.
pub proof fn lemma_stable_order_no_duplicates(keys: Seq<Seq<u8>>, order: Seq<int>)
    requires
        is_stable_order(order, keys),
    ensures
        order.no_duplicates(),
{
    assert forall|a: int, b: int| 0 <= a < order.len() && 0 <= b < order.len() && a != b implies order[a]
        != order[b] by {
        lemma_bytes_le_reflexive(keys[order[a]]);
        if a < b {
            assert(precedes(keys, order[a], order[b]));
        } else {
            assert(precedes(keys, order[b], order[a]));
        }
    }
}

/// A sorted order lists every position of the input.
pub proof fn lemma_stable_order_covers(keys: Seq<Seq<u8>>, order: Seq<int>)
    requires
        is_stable_order(order, keys),
    ensures
        forall|i: int| 0 <= i < keys.len() ==> #[trigger] order.contains(i),
{
    lemma_stable_order_no_duplicates(keys, order);
    let listed = order.to_set();
    let all = vstd::set_lib::set_int_range(0, keys.len() as int);
    order.unique_seq_to_set();
    vstd::set_lib::lemma_int_range(0, keys.len() as int);
    assert forall|x: int| listed.contains(x) implies all.contains(x) by {
        let k = choose|k: int| 0 <= k < order.len() && order[k] == x;
        assert(0 <= order[k] < keys.len());
    }
    vstd::set_lib::lemma_subset_equality(listed, all);
    assert forall|i: int| 0 <= i < keys.len() implies #[trigger] order.contains(i) by {
        assert(all.contains(i));
        assert(listed.contains(i));
    }
}

/// Two sorted orders agree at position `k`.
proof fn lemma_orders_agree_at(keys: Seq<Seq<u8>>, first: Seq<int>, second: Seq<int>, k: int)
    requires
        is_stable_order(first, keys),
        is_stable_order(second, keys),
        0 <= k < first.len(),
    ensures
        first[k] == second[k],
    decreases k,
{
    lemma_stable_order_covers(keys, first);
    lemma_stable_order_covers(keys, second);
    lemma_stable_order_no_duplicates(keys, first);
    lemma_stable_order_no_duplicates(keys, second);
    assert forall|m: int| 0 <= m < k implies first[m] == second[m] by {
        lemma_orders_agree_at(keys, first, second, m);
    }
    let x = first[k];
    let y = second[k];
    if x != y {
        lemma_precedes_total(keys, x, y);
        assert(second.contains(x));
        let kx = choose|i: int| 0 <= i < second.len() && second[i] == x;
        assert(first.contains(y));
        let ky = choose|i: int| 0 <= i < first.len() && first[i] == y;
        if kx < k {
            assert(first[kx] == second[kx]);
        } else if kx > k {
            assert(precedes(keys, second[k], second[kx]));
        }
        if ky < k {
            assert(first[ky] == second[ky]);
        } else if ky > k {
            assert(precedes(keys, first[k], first[ky]));
        }
    }
}

/// Two sorted orders of the same keys are the same order.
pub proof fn lemma_stable_order_unique(keys: Seq<Seq<u8>>, first: Seq<int>, second: Seq<int>)
    requires
        is_stable_order(first, keys),
        is_stable_order(second, keys),
    ensures
        first == second,
{
    assert forall|k: int| 0 <= k < first.len() implies first[k] == second[k] by {
        lemma_orders_agree_at(keys, first, second, k);
    }
    assert(first =~= second);
}

/// `order` with the position `m` put behind the last position that belongs
/// before it.
pub open spec fn insert_in_order(order: Seq<int>, keys: Seq<Seq<u8>>, m: int) -> Seq<int>
    decreases order.len(),
{
    if order.len() == 0 {
        seq![m]
    } else if precedes(keys, order.last(), m) {
        order.push(m)
    } else {
        insert_in_order(order.drop_last(), keys, m).push(order.last())
    }
}

/// Putting a new position into a sorted order leaves it sorted, and adds
/// nothing but that position.
proof fn lemma_insert_in_order(order: Seq<int>, keys: Seq<Seq<u8>>, m: int)
    requires
        forall|a: int, b: int|
            0 <= a < b < order.len() ==> precedes(keys, #[trigger] order[a], #[trigger] order[b]),
        forall|k: int| 0 <= k < order.len() ==> #[trigger] order[k] != m,
    ensures
        insert_in_order(order, keys, m).len() == order.len() + 1,
        forall|k: int|
            0 <= k < order.len() + 1 ==> {
                let x = #[trigger] insert_in_order(order, keys, m)[k];
                x == m || order.contains(x)
            },
        forall|a: int, b: int|
            0 <= a < b < order.len() + 1 ==> precedes(
                keys,
                #[trigger] insert_in_order(order, keys, m)[a],
                #[trigger] insert_in_order(order, keys, m)[b],
            ),
    decreases order.len(),
{
    let r = insert_in_order(order, keys, m);
    if order.len() == 0 {
    } else if precedes(keys, order.last(), m) {
        assert forall|a: int, b: int| 0 <= a < b < order.len() + 1 implies precedes(
            keys,
            #[trigger] r[a],
            #[trigger] r[b],
        ) by {
            if b == order.len() && a < order.len() - 1 {
                assert(precedes(keys, order[a], order[order.len() - 1]));
                lemma_precedes_transitive(keys, order[a], order.last(), m);
            }
        }
    } else {
        let front = order.drop_last();
        let inner = insert_in_order(front, keys, m);
        assert forall|a: int, b: int| 0 <= a < b < front.len() implies precedes(
            keys,
            #[trigger] front[a],
            #[trigger] front[b],
        ) by {
            assert(front[a] == order[a] && front[b] == order[b]);
        }
        assert forall|k: int| 0 <= k < front.len() implies #[trigger] front[k] != m by {
            assert(front[k] == order[k]);
        }
        lemma_insert_in_order(front, keys, m);
        lemma_precedes_total(keys, order.last(), m);
        assert forall|k: int| 0 <= k < order.len() + 1 implies {
            let x = #[trigger] r[k];
            x == m || order.contains(x)
        } by {
            if k < inner.len() {
                let x = inner[k];
                if x != m {
                    let w = choose|w: int| 0 <= w < front.len() && front[w] == x;
                    assert(order[w] == x);
                }
            } else {
                assert(order[order.len() - 1] == r[k]);
            }
        }
        assert forall|a: int, b: int| 0 <= a < b < order.len() + 1 implies precedes(
            keys,
            #[trigger] r[a],
            #[trigger] r[b],
        ) by {
            if b == order.len() {
                let x = inner[a];
                if x != m {
                    let w = choose|w: int| 0 <= w < front.len() && front[w] == x;
                    assert(precedes(keys, order[w], order[order.len() - 1]));
                }
            } else {
                assert(r[a] == inner[a] && r[b] == inner[b]);
            }
        }
    }
}

/// Every sequence of keys has a sorted order.
pub proof fn lemma_stable_order_exists(keys: Seq<Seq<u8>>)
    ensures
        is_stable_order(stable_order(keys), keys),
    decreases keys.len(),
{
    if keys.len() == 0 {
        assert(is_stable_order(Seq::<int>::empty(), keys));
    } else {
        let fewer = keys.drop_last();
        lemma_stable_order_exists(fewer);
        let order = stable_order(fewer);
        let m = keys.len() - 1;
        assert forall|a: int, b: int| 0 <= a < b < order.len() implies precedes(
            keys,
            #[trigger] order[a],
            #[trigger] order[b],
        ) by {
            assert(precedes(fewer, order[a], order[b]));
            assert(fewer[order[a]] == keys[order[a]] && fewer[order[b]] == keys[order[b]]);
        }
        lemma_insert_in_order(order, keys, m);
        let r = insert_in_order(order, keys, m);
        assert forall|k: int| 0 <= k < r.len() implies 0 <= #[trigger] r[k] < keys.len() by {
            let x = r[k];
            if x != m {
                let w = choose|w: int| 0 <= w < order.len() && order[w] == x;
                assert(0 <= order[w] < fewer.len());
            }
        }
        assert(is_stable_order(r, keys));
    }
}

/// The sorted records stand in non-decreasing order of their keys.
pub proof fn lemma_sorted_records_in_key_order(input: Seq<PlayerRecordView>)
    ensures
        sorted_records(input).len() == input.len(),
        forall|a: int, b: int|
            0 <= a <= b < input.len() ==> bytes_le(
                encode_utf8((#[trigger] sorted_records(input)[a]).sort_key),
                encode_utf8((#[trigger] sorted_records(input)[b]).sort_key),
            ),
{
    let keys = sort_keys(input);
    lemma_stable_order_exists(keys);
    let order = stable_order(keys);
    assert forall|a: int, b: int| 0 <= a <= b < input.len() implies bytes_le(
        encode_utf8((#[trigger] sorted_records(input)[a]).sort_key),
        encode_utf8((#[trigger] sorted_records(input)[b]).sort_key),
    ) by {
        assert(0 <= order[a] < keys.len() && 0 <= order[b] < keys.len());
        lemma_bytes_le_reflexive(keys[order[a]]);
        if a < b {
            assert(precedes(keys, order[a], order[b]));
            lemma_bytes_le_total(keys[order[a]], keys[order[b]]);
        }
    }
}

/// The sorted records are the input records, each taken once: position `k`
/// of the output holds the record of input position `stable_order(..)[k]`,
/// no input position is taken twice and none is left out.
pub proof fn lemma_sorted_records_same_records(input: Seq<PlayerRecordView>)
    ensures
        sorted_records(input).len() == input.len(),
        stable_order(sort_keys(input)).no_duplicates(),
        forall|k: int|
            0 <= k < input.len() ==> 0 <= #[trigger] stable_order(sort_keys(input))[k]
                < input.len() && sorted_records(input)[k] == input[stable_order(
                sort_keys(input),
            )[k]],
        forall|i: int|
            0 <= i < input.len() ==> #[trigger] stable_order(sort_keys(input)).contains(i),
{
    let keys = sort_keys(input);
    lemma_stable_order_exists(keys);
    lemma_stable_order_no_duplicates(keys, stable_order(keys));
    lemma_stable_order_covers(keys, stable_order(keys));
}

/// The records in sorted order: by key, compared byte by byte, records of
/// equal keys in the order in which they stand in `records`.
pub fn sort_records(records: &Vec<PlayerRecord>) -> (sorted: Vec<PlayerRecord>)
    ensures
        record_views(sorted@) == sorted_records(record_views(records@)),
        sorted@.len() == records@.len(),
        forall|a: int, b: int|
            0 <= a <= b < sorted@.len() ==> bytes_le(
                encode_utf8((#[trigger] sorted@[a]).sort_key@),
                encode_utf8((#[trigger] sorted@[b]).sort_key@),
            ),
{
    let order = sorted_positions(records);
    let ghost input = record_views(records@);
    let ghost positions = as_positions(order@);
    let mut sorted: Vec<PlayerRecord> = Vec::new();
    let mut k: usize = 0;
    while k < order.len()
        invariant
            k <= order@.len(),
            input == record_views(records@),
            positions == as_positions(order@),
            is_stable_order(positions, sort_keys(input)),
            sorted@.len() == k,
            forall|a: int| 0 <= a < k ==> (#[trigger] sorted@[a])@ == input[positions[a]],
        decreases order@.len() - k,
    {
        assert(0 <= positions[k as int] < sort_keys(input).len());
        sorted.push(records[order[k]].duplicate());
        k = k + 1;
    }
    proof {
        assert(record_views(sorted@) =~= sorted_records(input));
        lemma_sorted_records_in_key_order(input);
        assert forall|a: int, b: int| 0 <= a <= b < sorted@.len() implies bytes_le(
            encode_utf8((#[trigger] sorted@[a]).sort_key@),
            encode_utf8((#[trigger] sorted@[b]).sort_key@),
        ) by {
            assert(record_views(sorted@)[a] == sorted@[a]@);
            assert(record_views(sorted@)[b] == sorted@[b]@);
        }
    }
    sorted
}

} // verus!
