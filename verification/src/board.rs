//! The leaderboard as a mathematical value, and what ingestion does to it.
//!
//! A [`Board`] is what the contracts of the engine speak of: the players in
//! the order in which they were first seen, the rating of each, and the set of
//! matches already counted.

use vstd::prelude::*;
use crate::matches::{Match, Player};
use crate::rating::{default_rating_spec, Rating};

verus! {

/// The state of a leaderboard.
pub struct Board {
    /// The known players, in the order in which they were first seen.
    pub order: Seq<Player>,
    /// The rating of each known player.
    pub ratings: Map<Player, Rating>,
    /// The matches already counted.
    pub matches: Set<Match>,
}

impl Board {
    /// The board of a leaderboard that has seen nothing.
    pub open spec fn empty() -> Board {
        Board { order: Seq::empty(), ratings: Map::empty(), matches: Set::empty() }
    }

    /// Whether `p` has a rating.
    pub open spec fn knows(self, p: Player) -> bool {
        self.ratings.dom().contains(p)
    }

    /// No player is listed twice, the rated players are the listed ones, the
    /// matches are finitely many, and whoever played in a counted match is known.
    pub open spec fn wf(self) -> bool {
        &&& self.order.no_duplicates()
        &&& forall|p: Player| self.knows(p) <==> self.order.contains(p)
        &&& self.matches.finite()
        &&& forall|m: Match| #[trigger]
            self.matches.contains(m) ==> self.knows(m.winner) && self.knows(m.loser)
    }

    /// The rating that a lookup of `p` gives: the stored one, or the default
    /// for a player not seen yet.
    pub open spec fn rating_of(self, p: Player) -> Rating {
        if self.knows(p) {
            self.ratings[p]
        } else {
            default_rating_spec()
        }
    }

    /// The board after a lookup of `p`: a player not seen yet is listed last,
    /// with the default rating.
    pub open spec fn touch(self, p: Player) -> Board {
        if self.knows(p) {
            self
        } else {
            Board {
                order: self.order.push(p),
                ratings: self.ratings.insert(p, default_rating_spec()),
                matches: self.matches,
            }
        }
    }

    /// The board with the rating of `p` overwritten.
    pub open spec fn set_rating(self, p: Player, r: Rating) -> Board {
        Board { order: self.order, ratings: self.ratings.insert(p, r), matches: self.matches }
    }

    /// The board with `m` among the counted matches.
    pub open spec fn add_match(self, m: Match) -> Board {
        Board { order: self.order, ratings: self.ratings, matches: self.matches.insert(m) }
    }

    /// Whether `m`, met at time `now`, is to be counted: it is not dated after
    /// `now` and has not been counted before.
    pub open spec fn admits(self, m: Match, now: i64) -> bool {
        !m.is_after(now) && !self.matches.contains(m)
    }

    /// The board after `m` was counted with `winner` and `loser` as the new
    /// ratings of its two players: both are looked up, winner first, both
    /// ratings are written, winner first, and the match is remembered.
    pub open spec fn record(self, m: Match, winner: Rating, loser: Rating) -> Board {
        self.touch(m.winner).touch(m.loser).set_rating(m.winner, winner).set_rating(
            m.loser,
            loser,
        ).add_match(m)
    }

    /// In how many counted matches `p` played.
    pub open spec fn matches_of(self, p: Player) -> nat {
        self.matches.filter(involving(p)).len()
    }
}

/// The test that picks the matches in which `p` played.
pub open spec fn involving(p: Player) -> spec_fn(Match) -> bool {
    |m: Match| m.involves(p)
}

/// One match met at time `now` takes the board from `pre` to `post`: a match
/// that is not admitted leaves the board as it is; an admitted one is recorded
/// with a pair of ratings that `duel` may return for the ratings of its winner
/// and loser.
pub open spec fn step<F: Fn(Rating, Rating) -> (Rating, Rating)>(
    duel: F,
    pre: Board,
    m: Match,
    now: i64,
    post: Board,
) -> bool {
    if pre.admits(m, now) {
        exists|w: Rating, l: Rating|
            #![trigger pre.record(m, w, l)]
            duel.ensures((pre.rating_of(m.winner), pre.rating_of(m.loser)), (w, l)) && post
                == pre.record(m, w, l)
    } else {
        post == pre
    }
}

/// The matches of `batch`, met one after the other, the `i`-th at time
/// `clock[i]`, take the board from `pre` to `post`.
pub open spec fn run<F: Fn(Rating, Rating) -> (Rating, Rating)>(
    duel: F,
    pre: Board,
    batch: Seq<Match>,
    clock: Seq<i64>,
    post: Board,
) -> bool
    recommends
        clock.len() == batch.len(),
    decreases batch.len(),
{
    if batch.len() == 0 {
        post == pre
    } else {
        exists|mid: Board|
            #![trigger step(duel, mid, batch.last(), clock.last(), post)]
            run(duel, pre, batch.drop_last(), clock.drop_last(), mid) && step(
                duel,
                mid,
                batch.last(),
                clock.last(),
                post,
            )
    }
}

/// The board after one match met at time `now`, where the new ratings of an
/// admitted match are those that the function `model` gives.
pub open spec fn replay_one(
    model: spec_fn(Rating, Rating) -> (Rating, Rating),
    pre: Board,
    m: Match,
    now: i64,
) -> Board {
    if pre.admits(m, now) {
        let new = model(pre.rating_of(m.winner), pre.rating_of(m.loser));
        pre.record(m, new.0, new.1)
    } else {
        pre
    }
}

/// The board after the matches of `batch`, met one after the other, the
/// `i`-th at time `clock[i]`, with the function `model` as the rating model.
pub open spec fn replay(
    model: spec_fn(Rating, Rating) -> (Rating, Rating),
    pre: Board,
    batch: Seq<Match>,
    clock: Seq<i64>,
) -> Board
    recommends
        clock.len() == batch.len(),
    decreases batch.len(),
{
    if batch.len() == 0 {
        pre
    } else {
        replay_one(
            model,
            replay(model, pre, batch.drop_last(), clock.drop_last()),
            batch.last(),
            clock.last(),
        )
    }
}

/// A clock that shows `now` at each of `n` readings.
pub open spec fn steady(n: nat, now: i64) -> Seq<i64> {
    Seq::new(n, |i: int| now)
}

} // verus!
