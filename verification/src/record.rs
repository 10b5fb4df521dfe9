//! Player records and the normalizer that merges the category lists into one
//! record per player.

use crate::error::BuildError;
use crate::text::{lowercase_of, to_lowercase};
use vstd::hash_map::StringHashMap;
use vstd::prelude::*;
use vstd::string::*;

verus! {

/// One category's score and the 1-based rank that the input's order gives it.
/// A player who is not in the category has `{0, 0}`.
#[derive(Clone, Copy, Debug, PartialEq, Eq, Structural)]
pub struct RankInfo {
    pub value: u32,
    pub position: u32,
}

impl RankInfo {
    /// The rank of a player who is not in a category.
    pub open spec fn absent() -> RankInfo {
        RankInfo { value: 0, position: 0 }
    }
}

impl Default for RankInfo {
    fn default() -> (r: RankInfo)
        ensures
            r == RankInfo::absent(),
    {
        RankInfo { value: 0, position: 0 }
    }
}

/// The six ranking categories of a record.
#[derive(Clone, Copy, Debug, PartialEq, Eq, Structural)]
pub enum Category {
    Overall,
    OverallRank,
    Team,
    Weekly,
    Monthly,
    Yearly,
}

/// One player: the name as it is displayed, the lowercase key it is sorted
/// by, and the rank in each category.
#[derive(Clone, Debug, PartialEq, Eq)]
pub struct PlayerRecord {
    pub display_name: String,
    pub sort_key: String,
    pub overall: RankInfo,
    pub overall_rank: RankInfo,
    pub team: RankInfo,
    pub weekly: RankInfo,
    pub monthly: RankInfo,
    pub yearly: RankInfo,
}

/// A record as contracts speak of it.
pub ghost struct PlayerRecordView {
    pub display_name: Seq<char>,
    pub sort_key: Seq<char>,
    pub overall: RankInfo,
    pub overall_rank: RankInfo,
    pub team: RankInfo,
    pub weekly: RankInfo,
    pub monthly: RankInfo,
    pub yearly: RankInfo,
}

impl PlayerRecordView {
    /// The record of a player who is in no category yet.
    pub open spec fn fresh(display_name: Seq<char>, sort_key: Seq<char>) -> PlayerRecordView {
        PlayerRecordView {
            display_name,
            sort_key,
            overall: RankInfo::absent(),
            overall_rank: RankInfo::absent(),
            team: RankInfo::absent(),
            weekly: RankInfo::absent(),
            monthly: RankInfo::absent(),
            yearly: RankInfo::absent(),
        }
    }

    /// The rank in one category.
    pub open spec fn rank(self, category: Category) -> RankInfo {
        match category {
            Category::Overall => self.overall,
            Category::OverallRank => self.overall_rank,
            Category::Team => self.team,
            Category::Weekly => self.weekly,
            Category::Monthly => self.monthly,
            Category::Yearly => self.yearly,
        }
    }

    /// The record with the rank of one category replaced.
    pub open spec fn with_rank(self, category: Category, info: RankInfo) -> PlayerRecordView {
        match category {
            Category::Overall => PlayerRecordView { overall: info, ..self },
            Category::OverallRank => PlayerRecordView { overall_rank: info, ..self },
            Category::Team => PlayerRecordView { team: info, ..self },
            Category::Weekly => PlayerRecordView { weekly: info, ..self },
            Category::Monthly => PlayerRecordView { monthly: info, ..self },
            Category::Yearly => PlayerRecordView { yearly: info, ..self },
        }
    }
}

impl View for PlayerRecord {
    type V = PlayerRecordView;

    open spec fn view(&self) -> PlayerRecordView {
        PlayerRecordView {
            display_name: self.display_name@,
            sort_key: self.sort_key@,
            overall: self.overall,
            overall_rank: self.overall_rank,
            team: self.team,
            weekly: self.weekly,
            monthly: self.monthly,
            yearly: self.yearly,
        }
    }
}

/// The views of a sequence of records.
pub open spec fn record_views(records: Seq<PlayerRecord>) -> Seq<PlayerRecordView> {
    records.map_values(|r: PlayerRecord| r@)
}

impl PlayerRecord {
    /// The record of a player who is in no category yet.
    pub fn new(display_name: String, sort_key: String) -> (r: PlayerRecord)
        ensures
            r@ == PlayerRecordView::fresh(display_name@, sort_key@),
    {
        PlayerRecord {
            display_name,
            sort_key,
            overall: RankInfo::default(),
            overall_rank: RankInfo::default(),
            team: RankInfo::default(),
            weekly: RankInfo::default(),
            monthly: RankInfo::default(),
            yearly: RankInfo::default(),
        }
    }

    /// The rank in one category.
    pub fn rank(&self, category: Category) -> (r: RankInfo)
        ensures
            r == self@.rank(category),
    {
        match category {
            Category::Overall => self.overall,
            Category::OverallRank => self.overall_rank,
            Category::Team => self.team,
            Category::Weekly => self.weekly,
            Category::Monthly => self.monthly,
            Category::Yearly => self.yearly,
        }
    }

    /// Replaces the rank of one category.
    pub fn set_rank(&mut self, category: Category, info: RankInfo)
        ensures
            final(self)@ == old(self)@.with_rank(category, info),
    {
        match category {
            Category::Overall => {
                self.overall = info;
            },
            Category::OverallRank => {
                self.overall_rank = info;
            },
            Category::Team => {
                self.team = info;
            },
            Category::Weekly => {
                self.weekly = info;
            },
            Category::Monthly => {
                self.monthly = info;
            },
            Category::Yearly => {
                self.yearly = info;
            },
        }
    }

    /// A copy of the record.
    pub fn duplicate(&self) -> (r: PlayerRecord)
        ensures
            r@ == self@,
    {
        PlayerRecord {
            display_name: self.display_name.clone(),
            sort_key: self.sort_key.clone(),
            overall: self.overall,
            overall_rank: self.overall_rank,
            team: self.team,
            weekly: self.weekly,
            monthly: self.monthly,
            yearly: self.yearly,
        }
    }
}

/// One category's ranked list: names with their values, best first.
#[derive(Clone, Debug, PartialEq, Eq)]
pub struct CategoryList {
    pub category: Category,
    pub entries: Vec<(String, u32)>,
}

/// A category list as contracts speak of it.
pub ghost struct CategoryListView {
    pub category: Category,
    pub entries: Seq<(Seq<char>, u32)>,
}

impl View for CategoryList {
    type V = CategoryListView;

    open spec fn view(&self) -> CategoryListView {
        CategoryListView {
            category: self.category,
            entries: self.entries@.map_values(|e: (String, u32)| (e.0@, e.1)),
        }
    }
}

/// The views of a sequence of category lists.
pub open spec fn list_views(lists: Seq<CategoryList>) -> Seq<CategoryListView> {
    lists.map_values(|l: CategoryList| l@)
}

/// Whether some record carries the display name `name`.
pub open spec fn has_name(records: Seq<PlayerRecordView>, name: Seq<char>) -> bool {
    exists|i: int| 0 <= i < records.len() && (#[trigger] records[i]).display_name == name
}

/// The position of a record that carries the display name `name`.
pub open spec fn slot_of(records: Seq<PlayerRecordView>, name: Seq<char>) -> int {
    choose|i: int| 0 <= i < records.len() && (#[trigger] records[i]).display_name == name
}

/// Whether no two records carry the same display name.
pub open spec fn names_distinct(records: Seq<PlayerRecordView>) -> bool {
    forall|i: int, j: int|
        0 <= i < j < records.len() ==> (#[trigger] records[i]).display_name != (
        #[trigger] records[j]).display_name
}

/// The records after one entry of a category list is merged in: the player's
/// record takes the rank, and a player seen for the first time gets a record
/// at the end, with `sort_key` as its key.
pub open spec fn merge_entry(
    records: Seq<PlayerRecordView>,
    category: Category,
    name: Seq<char>,
    sort_key: Seq<char>,
    info: RankInfo,
) -> Seq<PlayerRecordView> {
    if has_name(records, name) {
        let i = slot_of(records, name);
        records.update(i, records[i].with_rank(category, info))
    } else {
        records.push(PlayerRecordView::fresh(name, sort_key).with_rank(category, info))
    }
}

/// The records after the lists before `lists[l]` and the first `n` entries of
/// `lists[l]` are merged in, each entry with its 1-based position in its list.
pub open spec fn records_after(lists: Seq<CategoryListView>, l: nat, n: nat) -> Seq<
    PlayerRecordView,
>
    decreases l, n,
{
    if n > 0 {
        let e = lists[l as int].entries[n - 1];
        merge_entry(
            records_after(lists, l, (n - 1) as nat),
            lists[l as int].category,
            e.0,
            lowercase_of(e.0),
            RankInfo { value: e.1, position: n as u32 },
        )
    } else if l > 0 {
        records_after(lists, (l - 1) as nat, lists[l - 1].entries.len())
    } else {
        Seq::empty()
    }
}

/// One record per player named in `lists`, in the order in which the players
/// are first seen.
pub open spec fn normalized(lists: Seq<CategoryListView>) -> Seq<PlayerRecordView> {
    records_after(lists, lists.len(), 0)
}

/// Whether `name` stands in a list before `lists[l]` or among the first `n`
/// entries of `lists[l]`.
pub open spec fn listed_before(lists: Seq<CategoryListView>, l: nat, n: nat, name: Seq<char>) -> bool {
    exists|k: int, e: int|
        0 <= k < lists.len() && 0 <= e < lists[k].entries.len() && (k < l || (k == l && e < n))
            && (#[trigger] lists[k].entries[e]).0 == name
}

/// Whether `name` stands in some list.
pub open spec fn is_listed(lists: Seq<CategoryListView>, name: Seq<char>) -> bool {
    listed_before(lists, lists.len(), 0, name)
}

/// The rank of `name` in `category` that the lists before `lists[l]` and the
/// first `n` entries of `lists[l]` give: that of the last entry among them
/// that names the player in a list of the category, or `{0, 0}`.
pub open spec fn rank_after(
    lists: Seq<CategoryListView>,
    l: nat,
    n: nat,
    category: Category,
    name: Seq<char>,
) -> RankInfo
    decreases l, n,
{
    if n > 0 {
        let e = lists[l as int].entries[n - 1];
        if lists[l as int].category == category && e.0 == name {
            RankInfo { value: e.1, position: n as u32 }
        } else {
            rank_after(lists, l, (n - 1) as nat, category, name)
        }
    } else if l > 0 {
        rank_after(lists, (l - 1) as nat, lists[l - 1].entries.len(), category, name)
    } else {
        RankInfo::absent()
    }
}

/// The rank of `name` in `category` that `lists` give.
pub open spec fn rank_of(lists: Seq<CategoryListView>, category: Category, name: Seq<char>) -> RankInfo {
    rank_after(lists, lists.len(), 0, category, name)
}

/// Whether `records` hold exactly the players that stand in the lists before
/// `lists[l]` and the first `n` entries of `lists[l]`, once each, with the key
/// and the ranks that those entries give.
pub open spec fn one_record_per_player(
    records: Seq<PlayerRecordView>,
    lists: Seq<CategoryListView>,
    l: nat,
    n: nat,
) -> bool {
    &&& names_distinct(records)
    &&& forall|name: Seq<char>| #[trigger]
        has_name(records, name) <==> listed_before(lists, l, n, name)
    &&& forall|i: int|
        0 <= i < records.len() ==> (#[trigger] records[i]).sort_key == lowercase_of(
            records[i].display_name,
        )
    &&& forall|i: int, category: Category|
        0 <= i < records.len() ==> #[trigger] records[i].rank(category) == rank_after(
            lists,
            l,
            n,
            category,
            records[i].display_name,
        )
}

/// A player who stands in none of the entries has no rank from them.
pub proof fn lemma_unlisted_is_absent(
    lists: Seq<CategoryListView>,
    l: nat,
    n: nat,
    category: Category,
    name: Seq<char>,
)
    requires
        l < lists.len() && n <= lists[l as int].entries.len() || l == lists.len() && n == 0,
        !listed_before(lists, l, n, name),
    ensures
        rank_after(lists, l, n, category, name) == RankInfo::absent(),
    decreases l, n,
{
    if n > 0 {
        assert(lists[l as int].entries[n - 1].0 != name);
        assert forall|k: int, e: int|
            0 <= k < lists.len() && 0 <= e < lists[k].entries.len() && (k < l || (k == l && e < n
                - 1)) implies (#[trigger] lists[k].entries[e]).0 != name by {}
        lemma_unlisted_is_absent(lists, l, (n - 1) as nat, category, name);
    } else if l > 0 {
        assert forall|k: int, e: int|
            0 <= k < lists.len() && 0 <= e < lists[k].entries.len() && (k < l - 1 || (k == l - 1
                && e < lists[l - 1].entries.len())) implies (#[trigger] lists[k].entries[e]).0
            != name by {}
        lemma_unlisted_is_absent(
            lists,
            (l - 1) as nat,
            lists[l - 1].entries.len(),
            category,
            name,
        );
    }
}

/// Merging one more entry keeps one record per player.
pub proof fn lemma_merge_entry_keeps_one_record_per_player(
    lists: Seq<CategoryListView>,
    l: nat,
    n: nat,
)
    requires
        l < lists.len(),
        0 < n <= lists[l as int].entries.len(),
        one_record_per_player(records_after(lists, l, (n - 1) as nat), lists, l, (n - 1) as nat),
    ensures
        one_record_per_player(records_after(lists, l, n), lists, l, n),
{
    let old_records = records_after(lists, l, (n - 1) as nat);
    let new_records = records_after(lists, l, n);
    let m = (n - 1) as nat;
    let e = lists[l as int].entries[n - 1];
    let cat = lists[l as int].category;
    let name = e.0;
    let info = RankInfo { value: e.1, position: n as u32 };
    assert(listed_before(lists, l, n, name));
    assert forall|x: Seq<char>| listed_before(lists, l, n, x) <==> (listed_before(lists, l, m, x)
        || x == name) by {
        if listed_before(lists, l, n, x) && x != name {
            let (k, j) = choose|k: int, j: int|
                0 <= k < lists.len() && 0 <= j < lists[k].entries.len() && (k < l || (k == l && j
                    < n)) && (#[trigger] lists[k].entries[j]).0 == x;
            assert(lists[k].entries[j].0 == x);
        }
        if listed_before(lists, l, m, x) {
            let (k, j) = choose|k: int, j: int|
                0 <= k < lists.len() && 0 <= j < lists[k].entries.len() && (k < l || (k == l && j
                    < m)) && (#[trigger] lists[k].entries[j]).0 == x;
            assert(lists[k].entries[j].0 == x);
        }
    }
    if has_name(old_records, name) {
        let i = slot_of(old_records, name);
        assert(new_records == old_records.update(i, old_records[i].with_rank(cat, info)));
        assert forall|j: int| 0 <= j < new_records.len() implies (#[trigger] new_records[j]).display_name
            == old_records[j].display_name && new_records[j].sort_key == old_records[j].sort_key by {}
        assert forall|x: Seq<char>| #[trigger]
            has_name(new_records, x) <==> listed_before(lists, l, n, x) by {
            if has_name(new_records, x) {
                let w = slot_of(new_records, x);
                assert(old_records[w].display_name == x);
            }
            if has_name(old_records, x) {
                let w = slot_of(old_records, x);
                assert(new_records[w].display_name == x);
            }
        }
        assert forall|j: int, category: Category| 0 <= j < new_records.len() implies #[trigger]
            new_records[j].rank(category) == rank_after(
            lists,
            l,
            n,
            category,
            new_records[j].display_name,
        ) by {
            assert(old_records[j].rank(category) == rank_after(
                lists,
                l,
                m,
                category,
                old_records[j].display_name,
            ));
            if j != i {
                assert(old_records[j].display_name != old_records[i].display_name);
            }
        }
    } else {
        let added = PlayerRecordView::fresh(name, lowercase_of(name)).with_rank(cat, info);
        assert(new_records == old_records.push(added));
        assert forall|j: int| 0 <= j < old_records.len() implies (#[trigger] old_records[j]).display_name
            != name by {}
        assert forall|x: Seq<char>| #[trigger]
            has_name(new_records, x) <==> listed_before(lists, l, n, x) by {
            if has_name(new_records, x) {
                let w = slot_of(new_records, x);
                if w < old_records.len() {
                    assert(old_records[w].display_name == x);
                }
            }
            if has_name(old_records, x) {
                let w = slot_of(old_records, x);
                assert(new_records[w].display_name == x);
            }
            if x == name {
                assert(new_records[old_records.len() as int].display_name == x);
            }
        }
        assert forall|j: int, category: Category| 0 <= j < new_records.len() implies #[trigger]
            new_records[j].rank(category) == rank_after(
            lists,
            l,
            n,
            category,
            new_records[j].display_name,
        ) by {
            if j < old_records.len() {
                assert(new_records[j] == old_records[j]);
                assert(old_records[j].rank(category) == rank_after(
                    lists,
                    l,
                    m,
                    category,
                    old_records[j].display_name,
                ));
            } else {
                lemma_unlisted_is_absent(lists, l, m, category, name);
            }
        }
    }
}

/// The records after any number of entries hold one record per player.
pub proof fn lemma_records_after(lists: Seq<CategoryListView>, l: nat, n: nat)
    requires
        l < lists.len() && n <= lists[l as int].entries.len() || l == lists.len() && n == 0,
    ensures
        one_record_per_player(records_after(lists, l, n), lists, l, n),
    decreases l, n,
{
    if n > 0 {
        lemma_records_after(lists, l, (n - 1) as nat);
        lemma_merge_entry_keeps_one_record_per_player(lists, l, n);
    } else if l > 0 {
        let p = (l - 1) as nat;
        let full = lists[l - 1].entries.len();
        lemma_records_after(lists, p, full);
        let records = records_after(lists, l, n);
        assert forall|x: Seq<char>| listed_before(lists, l, 0, x) <==> listed_before(
            lists,
            p,
            full,
            x,
        ) by {
            if listed_before(lists, l, 0, x) {
                let (k, j) = choose|k: int, j: int|
                    0 <= k < lists.len() && 0 <= j < lists[k].entries.len() && (k < l || (k == l
                        && j < 0)) && (#[trigger] lists[k].entries[j]).0 == x;
                assert(lists[k].entries[j].0 == x);
            }
            if listed_before(lists, p, full, x) {
                let (k, j) = choose|k: int, j: int|
                    0 <= k < lists.len() && 0 <= j < lists[k].entries.len() && (k < p || (k == p
                        && j < full)) && (#[trigger] lists[k].entries[j]).0 == x;
                assert(lists[k].entries[j].0 == x);
            }
        }
    } else {
        assert forall|x: Seq<char>| !listed_before(lists, 0, 0, x) by {}
    }
}

/// The normalizer gives every player named in any list exactly one record,
/// whose key is the lowercase of the name and whose rank in each category is
/// that of the player's last entry in a list of the category, or `{0, 0}`.
pub proof fn lemma_normalized_one_record_per_player(lists: Seq<CategoryListView>)
    ensures
        names_distinct(normalized(lists)),
        forall|name: Seq<char>| #[trigger]
            has_name(normalized(lists), name) <==> is_listed(lists, name),
        forall|i: int|
            0 <= i < normalized(lists).len() ==> (#[trigger] normalized(lists)[i]).sort_key
                == lowercase_of(normalized(lists)[i].display_name),
        forall|i: int, category: Category|
            0 <= i < normalized(lists).len() ==> #[trigger] normalized(lists)[i].rank(category)
                == rank_of(lists, category, normalized(lists)[i].display_name),
{
    lemma_records_after(lists, lists.len(), 0);
}

/// Whether every list is short enough for 32-bit positions.
pub open spec fn lists_fit(lists: Seq<CategoryListView>) -> bool {
    forall|l: int| 0 <= l < lists.len() ==> (#[trigger] lists[l]).entries.len() <= u32::MAX
}

/// The records under construction, with an index from display name to slot.
pub struct Roster {
    records: Vec<PlayerRecord>,
    slots: StringHashMap<usize>,
}

impl View for Roster {
    type V = Seq<PlayerRecordView>;

    closed spec fn view(&self) -> Seq<PlayerRecordView> {
        record_views(self.records@)
    }
}

impl Roster {
    /// The index holds each record's name with its slot and nothing else.
    pub closed spec fn wf(&self) -> bool {
        &&& forall|name: Seq<char>| #[trigger]
            self.slots@.contains_key(name) ==> self.slots@[name] < self.records@.len()
                && self.records@[self.slots@[name] as int].display_name@ == name
        &&& forall|i: int|
            0 <= i < self.records@.len() ==> self.slots@.contains_key(
                (#[trigger] self.records@[i]).display_name@,
            ) && self.slots@[self.records@[i].display_name@] == i
    }

    /// No two records of a well-formed roster carry the same name.
    pub proof fn lemma_names_distinct(&self)
        requires
            self.wf(),
        ensures
            names_distinct(self@),
    {
        assert forall|i: int, j: int| 0 <= i < j < self@.len() implies (#[trigger] self@[i]).display_name
            != (#[trigger] self@[j]).display_name by {
            assert(self@[i].display_name == self.records@[i].display_name@);
            assert(self@[j].display_name == self.records@[j].display_name@);
        }
    }

    /// A roster without records.
    pub fn new() -> (r: Roster)
        ensures
            r.wf(),
            r@ == Seq::<PlayerRecordView>::empty(),
    {
        let r = Roster { records: Vec::new(), slots: StringHashMap::new() };
        assert(r@ =~= Seq::<PlayerRecordView>::empty());
        r
    }

    /// The slot of the record that carries `name`, if there is one.
    pub fn find(&self, name: &str) -> (r: Option<usize>)
        requires
            self.wf(),
        ensures
            match r {
                Some(i) => has_name(self@, name@) && i == slot_of(self@, name@),
                None => !has_name(self@, name@),
            },
    {
        proof {
            self.lemma_names_distinct();
        }
        match self.slots.get(name) {
            Some(slot) => {
                let i = *slot;
                assert(self@[i as int].display_name == name@);
                let ghost j = slot_of(self@, name@);
                assert(self@[j].display_name == name@);
                Some(i)
            },
            None => {
                assert forall|i: int| 0 <= i < self@.len() implies (#[trigger] self@[i]).display_name
                    != name@ by {
                    assert(self@[i].display_name == self.records@[i].display_name@);
                }
                None
            },
        }
    }

    /// Adds the record of a player who has none yet and returns its slot.
    pub fn add(&mut self, name: String, sort_key: String) -> (slot: usize)
        requires
            old(self).wf(),
            !has_name(old(self)@, name@),
        ensures
            final(self).wf(),
            final(self)@ == old(self)@.push(PlayerRecordView::fresh(name@, sort_key@)),
            slot == old(self)@.len(),
    {
        let slot = self.records.len();
        let ghost before = self.records@;
        assert forall|i: int| 0 <= i < before.len() implies (#[trigger] before[i]).display_name@
            != name@ by {
            assert(old(self)@[i].display_name == before[i].display_name@);
        }
        self.slots.insert(name.clone(), slot);
        self.records.push(PlayerRecord::new(name, sort_key));
        assert(self@ =~= old(self)@.push(PlayerRecordView::fresh(name@, sort_key@)));
        slot
    }

    /// Replaces the rank of one category in the record at `slot`.
    pub fn set_rank(&mut self, slot: usize, category: Category, info: RankInfo)
        requires
            old(self).wf(),
            slot < old(self)@.len(),
        ensures
            final(self).wf(),
            final(self)@ == old(self)@.update(
                slot as int,
                old(self)@[slot as int].with_rank(category, info),
            ),
    {
        self.records[slot].set_rank(category, info);
        assert(self@ =~= old(self)@.update(
            slot as int,
            old(self)@[slot as int].with_rank(category, info),
        ));
    }

    /// The records, in the order in which they were added.
    pub fn into_records(self) -> (r: Vec<PlayerRecord>)
        ensures
            record_views(r@) == self@,
    {
        self.records
    }
}

/// Merges the category lists into one record per player. Each entry gets its
/// 1-based position in its list; a player's record is made when the player is
/// first seen, and a later entry of the same category replaces an earlier one.
pub fn normalize(lists: &Vec<CategoryList>) -> (r: Result<Vec<PlayerRecord>, BuildError>)
    ensures
        match r {
            Ok(records) => lists_fit(list_views(lists@)) && record_views(records@) == normalized(
                list_views(lists@),
            ),
            Err(e) => e == BuildError::CategoryTooLong && !lists_fit(list_views(lists@)),
        },
{
    let ghost views = list_views(lists@);
    let mut roster = Roster::new();
    let mut l: usize = 0;
    while l < lists.len()
        invariant
            l <= lists@.len(),
            views == list_views(lists@),
            roster.wf(),
            roster@ == records_after(views, l as nat, 0),
            forall|k: int| 0 <= k < l ==> (#[trigger] views[k]).entries.len() <= u32::MAX,
        decreases lists@.len() - l,
    {
        let list = &lists[l];
        assert(views[l as int] == list@);
        if list.entries.len() as u64 > 0xffff_ffff {
            return Err(BuildError::CategoryTooLong);
        }
        let mut e: usize = 0;
        while e < list.entries.len()
            invariant
                l < lists@.len(),
                views == list_views(lists@),
                views[l as int] == list@,
                list@.entries.len() <= u32::MAX,
                e <= list.entries@.len(),
                roster.wf(),
                roster@ == records_after(views, l as nat, e as nat),
            decreases list.entries@.len() - e,
        {
            let entry = &list.entries[e];
            assert(list@.entries[e as int] == (entry.0@, entry.1));
            let info = RankInfo { value: entry.1, position: (e + 1) as u32 };
            let slot = match roster.find(entry.0.as_str()) {
                Some(i) => i,
                None => {
                    let key = to_lowercase(entry.0.as_str());
                    roster.add(entry.0.clone(), key)
                },
            };
            let ghost before = roster@;
            roster.set_rank(slot, list.category, info);
            assert(roster@ =~= records_after(views, l as nat, (e + 1) as nat));
            e = e + 1;
        }
        assert(list@.entries.len() == list.entries@.len());
        l = l + 1;
    }
    Ok(roster.into_records())
}

} // verus!
