//! The leaderboard itself: the rating store and the set of counted matches,
//! kept in two vectors.

use vstd::prelude::*;
use crate::board::{involving, Board};
use crate::matches::{Match, Player};
use crate::rating::{default_rating, Rating};

verus! {

/// One line of the rating store.
#[derive(Clone, Copy, Debug, PartialEq, Eq, Structural)]
pub struct Entry {
    pub player: Player,
    pub rating: Rating,
}

/// Ratings of the players seen so far, in the order in which they were first
/// seen, and the matches counted so far.
pub struct Leaderboard {
    ratings: Vec<Entry>,
    matches: Vec<Match>,
}

spec fn listed(entries: Seq<Entry>, p: Player) -> bool {
    exists|i: int| 0 <= i < entries.len() && (#[trigger] entries[i]).player == p
}

spec fn slot_of(entries: Seq<Entry>, p: Player) -> int {
    choose|i: int| 0 <= i < entries.len() && (#[trigger] entries[i]).player == p
}

spec fn distinct(entries: Seq<Entry>) -> bool {
    forall|i: int, j: int|
        0 <= i < j < entries.len() ==> (#[trigger] entries[i]).player != (
        #[trigger] entries[j]).player
}

spec fn players_of(entries: Seq<Entry>) -> Seq<Player> {
    Seq::new(entries.len(), |i: int| entries[i].player)
}

spec fn ratings_of(entries: Seq<Entry>) -> Map<Player, Rating> {
    Map::new(|p: Player| listed(entries, p), |p: Player| entries[slot_of(entries, p)].rating)
}

proof fn lemma_slot(entries: Seq<Entry>, i: int)
    requires
        distinct(entries),
        0 <= i < entries.len(),
    ensures
        listed(entries, entries[i].player),
        slot_of(entries, entries[i].player) == i,
        ratings_of(entries).dom().contains(entries[i].player),
        ratings_of(entries)[entries[i].player] == entries[i].rating,
{
    let p = entries[i].player;
    let j = slot_of(entries, p);
    assert(0 <= j < entries.len() && entries[j].player == p);
    if j < i {
        assert(entries[j].player != entries[i].player);
    } else if i < j {
        assert(entries[i].player != entries[j].player);
    }
}

proof fn lemma_push(entries: Seq<Entry>, e: Entry)
    requires
        distinct(entries),
        !listed(entries, e.player),
    ensures
        distinct(entries.push(e)),
        players_of(entries.push(e)) == players_of(entries).push(e.player),
        ratings_of(entries.push(e)) == ratings_of(entries).insert(e.player, e.rating),
{
    let next = entries.push(e);
    assert forall|i: int, j: int| 0 <= i < j < next.len() implies (#[trigger] next[i]).player != (
    #[trigger] next[j]).player by {
        if j < entries.len() {
            assert(entries[i].player != entries[j].player);
        } else {
            assert(entries[i].player != e.player);
        }
    }
    assert(distinct(next));
    assert(players_of(next) =~= players_of(entries).push(e.player));
    let grown = ratings_of(entries).insert(e.player, e.rating);
    assert forall|p: Player| ratings_of(next).dom().contains(p) <==> grown.dom().contains(
        p,
    ) by {
        if listed(entries, p) {
            let i = slot_of(entries, p);
            assert(next[i].player == p);
        }
        if p == e.player {
            assert(next[entries.len() as int].player == p);
        }
        if listed(next, p) && p != e.player {
            let i = slot_of(next, p);
            assert(entries[i].player == p);
        }
    }
    assert forall|p: Player| ratings_of(next).dom().contains(p) implies ratings_of(next)[p]
        == grown[p] by {
        let i = slot_of(next, p);
        lemma_slot(next, i);
        if i < entries.len() {
            lemma_slot(entries, i);
        }
    }
    assert(ratings_of(next) =~= grown);
}

/// The lines with the rating at place `i` overwritten.
spec fn rerated(entries: Seq<Entry>, i: int, r: Rating) -> Seq<Entry> {
    entries.update(i, Entry { player: entries[i].player, rating: r })
}

proof fn lemma_update(entries: Seq<Entry>, i: int, r: Rating)
    requires
        distinct(entries),
        0 <= i < entries.len(),
    ensures
        distinct(rerated(entries, i, r)),
        players_of(rerated(entries, i, r)) == players_of(entries),
        ratings_of(rerated(entries, i, r)) == ratings_of(entries).insert(entries[i].player, r),
{
    let q = entries[i].player;
    let next = rerated(entries, i, r);
    assert forall|a: int, b: int| 0 <= a < b < next.len() implies (#[trigger] next[a]).player != (
    #[trigger] next[b]).player by {
        assert(entries[a].player != entries[b].player);
    }
    assert(distinct(next));
    assert(players_of(next) =~= players_of(entries));
    let changed = ratings_of(entries).insert(q, r);
    assert forall|p: Player| ratings_of(next).dom().contains(p) <==> changed.dom().contains(
        p,
    ) by {
        if listed(entries, p) {
            let k = slot_of(entries, p);
            assert(next[k].player == p);
        }
        if listed(next, p) {
            let k = slot_of(next, p);
            assert(entries[k].player == p);
        }
        assert(next[i].player == q);
    }
    assert forall|p: Player| ratings_of(next).dom().contains(p) implies ratings_of(next)[p]
        == changed[p] by {
        let k = slot_of(next, p);
        lemma_slot(next, k);
        lemma_slot(entries, k);
    }
    assert(ratings_of(next) =~= changed);
}

proof fn lemma_count_step(held: Seq<Match>, m: Match, f: spec_fn(Match) -> bool)
    requires
        !held.contains(m),
    ensures
        held.push(m).to_set().filter(f).finite(),
        held.push(m).to_set().filter(f).len() == held.to_set().filter(f).len() + (if f(m) {
            1nat
        } else {
            0nat
        }),
{
    broadcast use vstd::set::group_set_axioms;

    let before = held.to_set();
    vstd::seq_lib::seq_to_set_is_finite(held);
    before.lemma_len_filter(f);
    held.lemma_push_to_set_commute(m);
    if f(m) {
        assert(before.insert(m).filter(f) =~= before.filter(f).insert(m));
    } else {
        assert(before.insert(m).filter(f) =~= before.filter(f));
    }
}

impl View for Leaderboard {
    type V = Board;

    closed spec fn view(&self) -> Board {
        Board {
            order: players_of(self.ratings@),
            ratings: ratings_of(self.ratings@),
            matches: self.matches@.to_set(),
        }
    }
}

impl Leaderboard {
    /// No player has two lines, no match is held twice, and whoever played in
    /// a held match has a line.
    pub closed spec fn wf(&self) -> bool {
        &&& distinct(self.ratings@)
        &&& self.matches@.no_duplicates()
        &&& forall|k: int|
            0 <= k < self.matches@.len() ==> listed(self.ratings@, (#[trigger] self.matches@[k]).winner)
                && listed(self.ratings@, self.matches@[k].loser)
    }

    /// A well-formed leaderboard stands for a well-formed board.
    pub proof fn lemma_view_wf(&self)
        requires
            self.wf(),
        ensures
            self@.wf(),
    {
        let entries = self.ratings@;
        let order = players_of(entries);
        assert forall|i: int, j: int|
            0 <= i < order.len() && 0 <= j < order.len() && i != j implies order[i] != order[j] by {
            if i < j {
                assert(entries[i].player != entries[j].player);
            } else {
                assert(entries[j].player != entries[i].player);
            }
        }
        assert forall|p: Player| self@.knows(p) <==> order.contains(p) by {
            if listed(entries, p) {
                let i = slot_of(entries, p);
                assert(order[i] == p);
            }
            if order.contains(p) {
                let i = choose|i: int| 0 <= i < order.len() && order[i] == p;
                assert(entries[i].player == p);
            }
        }
        vstd::seq_lib::seq_to_set_is_finite(self.matches@);
        assert forall|m: Match| #[trigger] self@.matches.contains(m) implies self@.knows(m.winner)
            && self@.knows(m.loser) by {
            let k = choose|k: int| 0 <= k < self.matches@.len() && self.matches@[k] == m;
            assert(listed(entries, self.matches@[k].winner));
        }
    }

    /// A leaderboard that has seen no player and counted no match.
    pub fn new() -> (db: Leaderboard)
        ensures
            db.wf(),
            db@ == Board::empty(),
    {
        let db = Leaderboard { ratings: Vec::new(), matches: Vec::new() };
        proof {
            assert(db@.order =~= Seq::<Player>::empty());
            assert(db@.ratings =~= Map::<Player, Rating>::empty());
            assert(db@.matches =~= Set::<Match>::empty());
        }
        db
    }

    /// Where the line of `id` stands, if there is one.
    fn find(&self, id: Player) -> (at: Option<usize>)
        ensures
            at matches Some(i) ==> i < self.ratings@.len() && self.ratings@[i as int].player == id,
            at is None ==> !listed(self.ratings@, id),
    {
        let mut i: usize = 0;
        while i < self.ratings.len()
            invariant
                i <= self.ratings@.len(),
                forall|k: int| 0 <= k < i ==> (#[trigger] self.ratings@[k]).player != id,
            decreases self.ratings@.len() - i,
        {
            if self.ratings[i].player == id {
                return Some(i);
            }
            i += 1;
        }
        None
    }

    /// Whether `id` has been seen.
    pub fn knows(&self, id: Player) -> (b: bool)
        requires
            self.wf(),
        ensures
            b == self@.knows(id),
    {
        self.find(id).is_some()
    }

    /// The rating of `id`. A player not seen before gets a line with the
    /// default rating, after all the others.
    pub fn get_rating(&mut self, id: Player) -> (r: Rating)
        requires
            old(self).wf(),
        ensures
            final(self).wf(),
            r == old(self)@.rating_of(id),
            final(self)@ == old(self)@.touch(id),
    {
        match self.find(id) {
            Some(i) => {
                proof {
                    lemma_slot(self.ratings@, i as int);
                }
                self.ratings[i].rating
            },
            None => {
                let r = default_rating();
                let e = Entry { player: id, rating: r };
                proof {
                    lemma_push(self.ratings@, e);
                    assert forall|k: int| 0 <= k < self.matches@.len() implies listed(
                        self.ratings@.push(e),
                        (#[trigger] self.matches@[k]).winner,
                    ) && listed(self.ratings@.push(e), self.matches@[k].loser) by {
                        let a = slot_of(self.ratings@, self.matches@[k].winner);
                        assert(self.ratings@.push(e)[a].player == self.matches@[k].winner);
                        let b = slot_of(self.ratings@, self.matches@[k].loser);
                        assert(self.ratings@.push(e)[b].player == self.matches@[k].loser);
                    }
                }
                self.ratings.push(e);
                r
            },
        }
    }

    /// Overwrites the rating of a player who has been looked up before.
    pub fn update_rating(&mut self, id: &Player, new_rating: Rating)
        requires
            old(self).wf(),
            old(self)@.knows(*id),
        ensures
            final(self).wf(),
            final(self)@ == old(self)@.set_rating(*id, new_rating),
    {
        let i = self.find(*id).unwrap();
        let e = Entry { player: *id, rating: new_rating };
        proof {
            lemma_update(self.ratings@, i as int, new_rating);
            assert forall|k: int| 0 <= k < self.matches@.len() implies listed(
                self.ratings@.update(i as int, e),
                (#[trigger] self.matches@[k]).winner,
            ) && listed(self.ratings@.update(i as int, e), self.matches@[k].loser) by {
                let a = slot_of(self.ratings@, self.matches@[k].winner);
                assert(self.ratings@.update(i as int, e)[a].player == self.matches@[k].winner);
                let b = slot_of(self.ratings@, self.matches@[k].loser);
                assert(self.ratings@.update(i as int, e)[b].player == self.matches@[k].loser);
            }
        }
        self.ratings[i] = e;
    }

    /// How many players have been seen.
    pub fn player_count(&self) -> (n: usize)
        requires
            self.wf(),
        ensures
            n == self@.order.len(),
    {
        self.ratings.len()
    }

    /// How many matches have been counted.
    pub fn match_count(&self) -> (n: usize)
        requires
            self.wf(),
        ensures
            n == self@.matches.len(),
    {
        proof {
            self.matches@.unique_seq_to_set();
        }
        self.matches.len()
    }

    /// The line at place `i`, counted from the player first seen.
    pub fn entry(&self, i: usize) -> (e: Entry)
        requires
            self.wf(),
            i < self@.order.len(),
        ensures
            e.player == self@.order[i as int],
            self@.knows(e.player),
            e.rating == self@.ratings[e.player],
    {
        proof {
            lemma_slot(self.ratings@, i as int);
        }
        self.ratings[i]
    }

    /// In how many counted matches `p` played: a scan of all of them.
    pub fn matches_of(&self, p: Player) -> (n: usize)
        requires
            self.wf(),
        ensures
            n == self@.matches_of(p),
    {
        let mut n: usize = 0;
        let mut i: usize = 0;
        proof {
            assert(self.matches@.take(0).to_set() =~= Set::<Match>::empty());
            assert(Set::<Match>::empty().filter(involving(p)) =~= Set::<Match>::empty());
        }
        while i < self.matches.len()
            invariant
                self.matches@.no_duplicates(),
                i <= self.matches@.len(),
                n <= i,
                n == self.matches@.take(i as int).to_set().filter(involving(p)).len(),
            decreases self.matches@.len() - i,
        {
            proof {
                let held = self.matches@.take(i as int);
                let m = self.matches@[i as int];
                assert(!held.contains(m)) by {
                    if held.contains(m) {
                        let k = choose|k: int| 0 <= k < held.len() && held[k] == m;
                        assert(self.matches@[k] == self.matches@[i as int]);
                    }
                }
                assert(self.matches@.take(i + 1) =~= held.push(m));
                lemma_count_step(held, m, involving(p));
            }
            if self.matches[i].has_player(p) {
                n += 1;
            }
            i += 1;
        }
        proof {
            assert(self.matches@.take(i as int) =~= self.matches@);
        }
        n
    }

    /// Remembers `m` as counted; a match counted before is not held twice.
    /// Tells whether `m` was new. Both players of `m` have been looked up
    /// before: whoever played in a counted match has a rating.
    pub fn insert_match(&mut self, m: Match) -> (fresh: bool)
        requires
            old(self).wf(),
            old(self)@.knows(m.winner),
            old(self)@.knows(m.loser),
        ensures
            final(self).wf(),
            fresh == !old(self)@.matches.contains(m),
            final(self)@ == old(self)@.add_match(m),
    {
        if self.contains_match(&m) {
            proof {
                assert(self@.matches.insert(m) =~= self@.matches);
            }
            false
        } else {
            proof {
                self.matches@.lemma_push_to_set_commute(m);
                assert forall|i: int, j: int|
                    0 <= i < self.matches@.push(m).len() && 0 <= j < self.matches@.push(m).len()
                        && i != j implies self.matches@.push(m)[i] != self.matches@.push(m)[j] by {
                    if i < self.matches@.len() && j < self.matches@.len() {
                        assert(self.matches@[i] != self.matches@[j]);
                    } else if i < self.matches@.len() {
                        assert(self.matches@.contains(self.matches@[i]));
                    } else {
                        assert(self.matches@.contains(self.matches@[j]));
                    }
                }
            }
            self.matches.push(m);
            true
        }
    }

    /// Whether `m` has been counted.
    pub fn contains_match(&self, m: &Match) -> (b: bool)
        requires
            self.wf(),
        ensures
            b == self@.matches.contains(*m),
    {
        let mut i: usize = 0;
        while i < self.matches.len()
            invariant
                i <= self.matches@.len(),
                forall|k: int| 0 <= k < i ==> self.matches@[k] != *m,
            decreases self.matches@.len() - i,
        {
            if self.matches[i] == *m {
                return true;
            }
            i += 1;
        }
        false
    }
}

} // verus!
