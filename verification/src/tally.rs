//! What is counted for one prefix: how many records carry it, and the ten of
//! them with the highest values.

use vstd::prelude::*;
use vstd::string::*;

verus! {

/// How many players a top list holds at most.
pub const TOP_LIMIT: usize = 10;

/// One of the best players of a prefix.
#[derive(Clone, Debug, PartialEq, Eq)]
pub struct TopPlayer {
    pub name: String,
    pub value: u32,
}

/// A top player as contracts speak of it.
pub ghost struct TopPlayerView {
    pub name: Seq<char>,
    pub value: u32,
}

impl View for TopPlayer {
    type V = TopPlayerView;

    open spec fn view(&self) -> TopPlayerView {
        TopPlayerView { name: self.name@, value: self.value }
    }
}

/// The views of a sequence of top players.
pub open spec fn top_views(top: Seq<TopPlayer>) -> Seq<TopPlayerView> {
    top.map_values(|p: TopPlayer| p@)
}

/// Whether `top` is a top list: at most ten players, none with a higher value
/// than one before it.
pub open spec fn is_top_list(top: Seq<TopPlayerView>) -> bool {
    &&& top.len() <= TOP_LIMIT
    &&& forall|a: int, b: int|
        0 <= a < b < top.len() ==> (#[trigger] top[a]).value >= (#[trigger] top[b]).value
}

/// How many players at the head of `top` have a value of at least `value`.
pub open spec fn insertion_point(top: Seq<TopPlayerView>, value: u32) -> nat
    decreases top.len(),
{
    if top.len() == 0 || top[0].value < value {
        0
    } else {
        1 + insertion_point(top.skip(1), value)
    }
}

/// The top list with `player` put behind the players whose value is at least
/// as high, cut to the first ten.
pub open spec fn top_insert(top: Seq<TopPlayerView>, player: TopPlayerView) -> Seq<TopPlayerView> {
    let longer = top.insert(insertion_point(top, player.value) as int, player);
    if longer.len() > TOP_LIMIT {
        longer.take(TOP_LIMIT as int)
    } else {
        longer
    }
}

/// The insertion point lies within the list, the players before it have a
/// value of at least `value`, and the player at it has less.
pub proof fn lemma_insertion_point(top: Seq<TopPlayerView>, value: u32)
    ensures
        insertion_point(top, value) <= top.len(),
        forall|k: int| 0 <= k < insertion_point(top, value) ==> (#[trigger] top[k]).value >= value,
        insertion_point(top, value) < top.len() ==> top[insertion_point(top, value) as int].value
            < value,
    decreases top.len(),
{
    if top.len() == 0 || top[0].value < value {
    } else {
        let rest = top.skip(1);
        lemma_insertion_point(rest, value);
        assert forall|k: int| 0 <= k < insertion_point(top, value) implies (#[trigger] top[k]).value
            >= value by {
            if k > 0 {
                assert(top[k] == rest[k - 1]);
            }
        }
        if insertion_point(top, value) < top.len() {
            assert(top[insertion_point(top, value) as int] == rest[insertion_point(rest, value) as int]);
        }
    }
}

/// Putting a player into a top list gives a top list.
pub proof fn lemma_top_insert_is_top_list(top: Seq<TopPlayerView>, player: TopPlayerView)
    requires
        is_top_list(top),
    ensures
        is_top_list(top_insert(top, player)),
{
    let at = insertion_point(top, player.value) as int;
    lemma_insertion_point(top, player.value);
    let longer = top.insert(at, player);
    assert forall|a: int, b: int| 0 <= a < b < longer.len() implies (#[trigger] longer[a]).value >= (
    #[trigger] longer[b]).value by {
        if b < at {
            assert(longer[a] == top[a] && longer[b] == top[b]);
        } else if b == at {
            assert(longer[a] == top[a]);
        } else if a < at {
            assert(longer[a] == top[a] && longer[b] == top[b - 1]);
        } else if a == at {
            assert(longer[b] == top[b - 1]);
            if b - 1 > at {
                assert(top[at].value >= top[b - 1].value);
            }
        } else {
            assert(longer[a] == top[a - 1] && longer[b] == top[b - 1]);
        }
    }
    let r = top_insert(top, player);
    assert forall|a: int, b: int| 0 <= a < b < r.len() implies (#[trigger] r[a]).value >= (
    #[trigger] r[b]).value by {
        assert(r[a] == longer[a] && r[b] == longer[b]);
    }
}

/// The count and the top list of one prefix.
#[derive(Clone, Debug, PartialEq, Eq)]
pub struct Tally {
    pub count: u32,
    pub top: Vec<TopPlayer>,
}

/// A tally as contracts speak of it.
pub ghost struct TallyView {
    pub count: nat,
    pub top: Seq<TopPlayerView>,
}

impl View for Tally {
    type V = TallyView;

    open spec fn view(&self) -> TallyView {
        TallyView { count: self.count as nat, top: top_views(self.top@) }
    }
}

impl TallyView {
    /// The tally of a prefix that no record has carried yet.
    pub open spec fn empty() -> TallyView {
        TallyView { count: 0, top: Seq::empty() }
    }

    /// The tally after one more record: the count is one higher, and the
    /// player is in the top list if there is room or a worse player in it.
    pub open spec fn add(self, player: TopPlayerView) -> TallyView {
        TallyView { count: self.count + 1, top: top_insert(self.top, player) }
    }
}

impl Tally {
    /// The tally of a prefix that no record has carried yet.
    pub fn new() -> (r: Tally)
        ensures
            r@ == TallyView::empty(),
    {
        let r = Tally { count: 0, top: Vec::new() };
        assert(r@.top =~= Seq::<TopPlayerView>::empty());
        r
    }

    /// Counts one more record and puts its player into the top list.
    pub fn add(&mut self, player: TopPlayer)
        requires
            old(self).count < u32::MAX,
        ensures
            final(self)@ == old(self)@.add(player@),
            is_top_list(old(self)@.top) ==> is_top_list(final(self)@.top),
    {
        let ghost before = top_views(self.top@);
        proof {
            if is_top_list(before) {
                lemma_top_insert_is_top_list(before, player@);
            }
        }
        let mut at: usize = 0;
        assert(before.skip(0) =~= before);
        while at < self.top.len() && self.top[at].value >= player.value
            invariant
                at <= self.top@.len(),
                before == top_views(self.top@),
                self.count == old(self).count,
                insertion_point(before, player.value) == at + insertion_point(
                    before.skip(at as int),
                    player.value,
                ),
            decreases self.top@.len() - at,
        {
            assert(before.skip(at as int)[0] == self.top@[at as int]@);
            assert(before.skip(at as int).skip(1) =~= before.skip(at + 1));
            at = at + 1;
        }
        proof {
            if at < self.top@.len() {
                assert(before.skip(at as int)[0] == self.top@[at as int]@);
            }
            assert(insertion_point(before, player.value) == at);
        }
        self.count = self.count + 1;
        self.top.insert(at, player);
        assert(top_views(self.top@) =~= before.insert(at as int, player@));
        if self.top.len() > TOP_LIMIT {
            self.top.truncate(TOP_LIMIT);
            assert(top_views(self.top@) =~= before.insert(at as int, player@).take(TOP_LIMIT as int));
        }
    }

    /// A copy of the tally.
    pub fn duplicate(&self) -> (r: Tally)
        ensures
            r@ == self@,
    {
        let mut top: Vec<TopPlayer> = Vec::new();
        let mut k: usize = 0;
        while k < self.top.len()
            invariant
                k <= self.top@.len(),
                top@.len() == k,
                forall|a: int| 0 <= a < k ==> (#[trigger] top@[a])@ == self.top@[a]@,
            decreases self.top@.len() - k,
        {
            top.push(TopPlayer { name: self.top[k].name.clone(), value: self.top[k].value });
            k = k + 1;
        }
        let r = Tally { count: self.count, top };
        assert(r@.top =~= self@.top);
        r
    }
}

} // verus!
