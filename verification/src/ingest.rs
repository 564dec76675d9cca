//! Ingestion: how new matches change the leaderboard.
//!
//! The rating model is handed in as `duel`, a function from the ratings of a
//! winner and a loser to their new ratings. The engine asks of it only that it
//! takes every pair of ratings; what it returns is stored as it comes.

use vstd::prelude::*;
use crate::board::{run, steady, step};
use crate::clock::unix_now;
use crate::laws::{lemma_run_extends, lemma_step_counts};
use crate::matches::Match;
use crate::rating::Rating;
use crate::store::Leaderboard;

verus! {

impl Leaderboard {
    /// Counts the match `m`, met at time `now`. A match dated after `now`, or
    /// counted before, is passed over and nothing changes. Otherwise the
    /// ratings of winner and loser are looked up, `duel` is asked once, both
    /// new ratings are written and the match is remembered. Tells whether the
    /// match was counted.
    pub fn ingest_match<F: Fn(Rating, Rating) -> (Rating, Rating)>(
        &mut self,
        m: Match,
        now: i64,
        duel: &F,
    ) -> (counted: bool)
        requires
            old(self).wf(),
            forall|w: Rating, l: Rating| duel.requires((w, l)),
        ensures
            final(self).wf(),
            counted == old(self)@.admits(m, now),
            step(*duel, old(self)@, m, now, final(self)@),
    {
        if m.timestamp > now {
            return false;
        }
        if self.contains_match(&m) {
            return false;
        }
        let winner = self.get_rating(m.winner);
        let loser = self.get_rating(m.loser);
        let (new_winner, new_loser) = duel(winner, loser);
        self.update_rating(&m.winner, new_winner);
        self.update_rating(&m.loser, new_loser);
        self.insert_match(m);
        proof {
            assert(self@ == old(self)@.record(m, new_winner, new_loser));
        }
        true
    }

    /// Counts the matches of `batch` one after the other, in the order given,
    /// all met at time `now`. Returns how many were counted.
    pub fn ingest_batch<F: Fn(Rating, Rating) -> (Rating, Rating)>(
        &mut self,
        batch: &[Match],
        now: i64,
        duel: &F,
    ) -> (counted: usize)
        requires
            old(self).wf(),
            forall|w: Rating, l: Rating| duel.requires((w, l)),
        ensures
            final(self).wf(),
            run(*duel, old(self)@, batch@, steady(batch@.len(), now), final(self)@),
            counted <= batch@.len(),
            final(self)@.matches.len() == old(self)@.matches.len() + counted,
    {
        let mut counted: usize = 0;
        let mut i: usize = 0;
        proof {
            assert(batch@.take(0) =~= Seq::<Match>::empty());
        }
        while i < batch.len()
            invariant
                self.wf(),
                forall|w: Rating, l: Rating| duel.requires((w, l)),
                i <= batch@.len(),
                counted <= i,
                self@.matches.len() == old(self)@.matches.len() + counted,
                run(*duel, old(self)@, batch@.take(i as int), steady(i as nat, now), self@),
            decreases batch@.len() - i,
        {
            let ghost before = self@;
            proof {
                self.lemma_view_wf();
            }
            let m = batch[i];
            if self.ingest_match(m, now, duel) {
                counted += 1;
            }
            proof {
                lemma_step_counts(*duel, before, m, now, self@);
                lemma_run_extends(
                    *duel,
                    old(self)@,
                    batch@.take(i as int),
                    steady(i as nat, now),
                    before,
                    m,
                    now,
                    self@,
                );
                assert(batch@.take(i + 1) =~= batch@.take(i as int).push(m));
                assert(steady((i + 1) as nat, now) =~= steady(i as nat, now).push(now));
            }
            i += 1;
        }
        proof {
            assert(batch@.take(i as int) =~= batch@);
        }
        counted
    }
}

/// One round of the database update, given what the feed answered. Where
/// the feed failed, the round is given up: nothing changes and the failure is
/// handed back. Where it gave matches, they are counted one after the other,
/// in the order given, each met at the time that the wall clock shows when
/// its turn comes; the number of matches counted is returned.
pub fn update_database<E, F: Fn(Rating, Rating) -> (Rating, Rating)>(
    db: &mut Leaderboard,
    fetched: Result<Vec<Match>, E>,
    duel: &F,
) -> (done: Result<usize, E>)
    requires
        old(db).wf(),
        forall|w: Rating, l: Rating| duel.requires((w, l)),
    ensures
        final(db).wf(),
        fetched matches Err(e) ==> done == Err::<usize, E>(e) && final(db)@ == old(db)@,
        fetched matches Ok(replays) ==> done matches Ok(counted) && counted <= replays@.len()
            && final(db)@.matches.len() == old(db)@.matches.len() + counted,
        fetched matches Ok(replays) ==> exists|clock: Seq<i64>|
            clock.len() == replays@.len() && run(*duel, old(db)@, replays@, clock, final(db)@),
{
    let replays = match fetched {
        Ok(replays) => replays,
        Err(e) => {
            return Err(e);
        },
    };
    let mut counted: usize = 0;
    let mut i: usize = 0;
    let ghost mut clock: Seq<i64> = Seq::empty();
    proof {
        assert(replays@.take(0) =~= Seq::<Match>::empty());
    }
    while i < replays.len()
        invariant
            db.wf(),
            forall|w: Rating, l: Rating| duel.requires((w, l)),
            i <= replays@.len(),
            counted <= i,
            clock.len() == i,
            db@.matches.len() == old(db)@.matches.len() + counted,
            run(*duel, old(db)@, replays@.take(i as int), clock, db@),
        decreases replays@.len() - i,
    {
        let ghost before = db@;
        proof {
            db.lemma_view_wf();
        }
        let m = replays[i];
        let now = unix_now();
        if db.ingest_match(m, now, duel) {
            counted += 1;
        }
        proof {
            lemma_step_counts(*duel, before, m, now, db@);
            lemma_run_extends(*duel, old(db)@, replays@.take(i as int), clock, before, m, now, db@);
            assert(replays@.take(i + 1) =~= replays@.take(i as int).push(m));
            clock = clock.push(now);
        }
        i += 1;
    }
    proof {
        assert(replays@.take(i as int) =~= replays@);
    }
    Ok(counted)
}

} // verus!
