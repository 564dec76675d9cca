//! What holds of every leaderboard: laws of lookup and of ingestion, each
//! proved of the model in which the contracts are written.

use vstd::prelude::*;
use crate::board::{replay, run, step, Board};
use crate::matches::{Match, Player};
use crate::rating::{default_rating_spec, lemma_default_sigma_is_nonnegative, rank_key, Rating};

verus! {

/// How many matches of `batch` are duplicates: in `seen` already, or standing
/// earlier in `batch` as well.
pub open spec fn duplicates(seen: Set<Match>, batch: Seq<Match>) -> nat
    decreases batch.len(),
{
    if batch.len() == 0 {
        0
    } else {
        let earlier = batch.drop_last();
        duplicates(seen, earlier) + if seen.contains(batch.last()) || earlier.contains(
            batch.last(),
        ) {
            1nat
        } else {
            0nat
        }
    }
}

/// Whether the `i`-th match of `batch` is dated no later than the time at
/// which it is met.
pub open spec fn timely(batch: Seq<Match>, clock: Seq<i64>, i: int) -> bool {
    0 <= i < batch.len() && !batch[i].is_after(clock[i])
}

/// A lookup of a player never seen gives the default rating, a second lookup
/// gives what the first gave, and a second lookup changes nothing.
pub proof fn lemma_lookup_is_stable(b: Board, p: Player)
    ensures
        !b.knows(p) ==> b.rating_of(p) == default_rating_spec(),
        b.touch(p).knows(p),
        b.touch(p).rating_of(p) == b.rating_of(p),
        b.touch(p).touch(p) == b.touch(p),
{
}

/// A lookup keeps a board well formed.
pub proof fn lemma_touch_preserves_wf(b: Board, p: Player)
    requires
        b.wf(),
    ensures
        b.touch(p).wf(),
{
    if !b.knows(p) {
        let next = b.touch(p);
        assert forall|q: Player| next.knows(q) <==> next.order.contains(q) by {
            assert(b.knows(q) <==> b.order.contains(q));
            if b.order.contains(q) {
                let i = choose|i: int| 0 <= i < b.order.len() && b.order[i] == q;
                assert(next.order[i] == q);
            }
            if q == p {
                assert(next.order[b.order.len() as int] == q);
            }
            if next.order.contains(q) && q != p {
                let i = choose|i: int| 0 <= i < next.order.len() && next.order[i] == q;
                assert(b.order[i] == q);
            }
        }
        assert forall|i: int, j: int|
            0 <= i < next.order.len() && 0 <= j < next.order.len() && i != j implies next.order[i]
            != next.order[j] by {
            if i < b.order.len() && j < b.order.len() {
            } else if i < b.order.len() {
                assert(b.order.contains(b.order[i]));
            } else {
                assert(b.order.contains(b.order[j]));
            }
        }
    }
}

/// A step keeps a board well formed.
pub proof fn lemma_step_preserves_wf<F: Fn(Rating, Rating) -> (Rating, Rating)>(
    duel: F,
    pre: Board,
    m: Match,
    now: i64,
    post: Board,
)
    requires
        pre.wf(),
        step(duel, pre, m, now, post),
    ensures
        post.wf(),
{
    broadcast use vstd::set::group_set_axioms;

    if pre.admits(m, now) {
        let first = pre.touch(m.winner);
        let both = first.touch(m.loser);
        lemma_touch_preserves_wf(pre, m.winner);
        lemma_touch_preserves_wf(first, m.loser);
        assert(both.knows(m.winner) && both.knows(m.loser));
        assert forall|q: Player| post.knows(q) <==> post.order.contains(q) by {
            assert(both.knows(q) <==> both.order.contains(q));
        }
        assert forall|x: Match| #[trigger] post.matches.contains(x) implies post.knows(x.winner)
            && post.knows(x.loser) by {
            if x != m {
                assert(pre.matches.contains(x));
                assert(both.knows(x.winner) && both.knows(x.loser));
            }
        }
    }
}

/// A run followed by one more step is a run of the longer batch.
pub proof fn lemma_run_extends<F: Fn(Rating, Rating) -> (Rating, Rating)>(
    duel: F,
    pre: Board,
    batch: Seq<Match>,
    clock: Seq<i64>,
    mid: Board,
    m: Match,
    now: i64,
    post: Board,
)
    requires
        clock.len() == batch.len(),
        run(duel, pre, batch, clock, mid),
        step(duel, mid, m, now, post),
    ensures
        run(duel, pre, batch.push(m), clock.push(now), post),
{
    let longer = batch.push(m);
    let later = clock.push(now);
    assert(longer.drop_last() =~= batch);
    assert(later.drop_last() =~= clock);
    assert(run(duel, pre, longer.drop_last(), later.drop_last(), mid) && step(
        duel,
        mid,
        longer.last(),
        later.last(),
        post,
    ));
}

/// A step adds one match to the counted ones when it admits the match, and
/// none when it does not.
pub proof fn lemma_step_counts<F: Fn(Rating, Rating) -> (Rating, Rating)>(
    duel: F,
    pre: Board,
    m: Match,
    now: i64,
    post: Board,
)
    requires
        pre.wf(),
        step(duel, pre, m, now, post),
    ensures
        post.matches == (if pre.admits(m, now) {
            pre.matches.insert(m)
        } else {
            pre.matches
        }),
        post.matches.len() == pre.matches.len() + (if pre.admits(m, now) {
            1nat
        } else {
            0nat
        }),
{
    broadcast use vstd::set::group_set_axioms;

}

/// A run over a batch that is not empty is a run over all but its last
/// match, to some board, and a step from there with the last.
pub proof fn lemma_run_splits<F: Fn(Rating, Rating) -> (Rating, Rating)>(
    duel: F,
    pre: Board,
    batch: Seq<Match>,
    clock: Seq<i64>,
    post: Board,
) -> (mid: Board)
    requires
        batch.len() > 0,
        run(duel, pre, batch, clock, post),
    ensures
        run(duel, pre, batch.drop_last(), clock.drop_last(), mid),
        step(duel, mid, batch.last(), clock.last(), post),
{
    choose|mid: Board|
        #![trigger step(duel, mid, batch.last(), clock.last(), post)]
        run(duel, pre, batch.drop_last(), clock.drop_last(), mid) && step(
            duel,
            mid,
            batch.last(),
            clock.last(),
            post,
        )
}

/// A run keeps a board well formed.
pub proof fn lemma_run_preserves_wf<F: Fn(Rating, Rating) -> (Rating, Rating)>(
    duel: F,
    pre: Board,
    batch: Seq<Match>,
    clock: Seq<i64>,
    post: Board,
)
    requires
        pre.wf(),
        run(duel, pre, batch, clock, post),
    ensures
        post.wf(),
    decreases batch.len(),
{
    if batch.len() > 0 {
        let mid = lemma_run_splits(duel, pre, batch, clock, post);
        lemma_run_preserves_wf(duel, pre, batch.drop_last(), clock.drop_last(), mid);
        lemma_step_preserves_wf(duel, mid, batch.last(), clock.last(), post);
    }
}

/// A match dated after the time at which it is met changes nothing: it is not
/// remembered, no rating moves and no player is added.
pub proof fn lemma_future_match_is_passed_over<F: Fn(Rating, Rating) -> (Rating, Rating)>(
    duel: F,
    pre: Board,
    m: Match,
    now: i64,
    post: Board,
)
    requires
        m.is_after(now),
        step(duel, pre, m, now, post),
    ensures
        post == pre,
{
}

/// Feeding a match a second time changes nothing: the board after the
/// second feeding is the board after the first. This holds unless the match
/// was dated after the time of the first feeding and no longer after the time
/// of the second: then only the second counts it.
pub proof fn lemma_step_is_idempotent<F: Fn(Rating, Rating) -> (Rating, Rating)>(
    duel: F,
    pre: Board,
    m: Match,
    first: i64,
    again: i64,
    once: Board,
    twice: Board,
)
    requires
        m.is_after(first) ==> m.is_after(again),
        step(duel, pre, m, first, once),
        step(duel, once, m, again, twice),
    ensures
        twice == once,
{
}

/// The matches counted after a run are those counted before it and the
/// matches of the batch that were not dated after the time at which they were
/// met; no others.
pub proof fn lemma_run_matches<F: Fn(Rating, Rating) -> (Rating, Rating)>(
    duel: F,
    pre: Board,
    batch: Seq<Match>,
    clock: Seq<i64>,
    post: Board,
)
    requires
        clock.len() == batch.len(),
        run(duel, pre, batch, clock, post),
    ensures
        forall|m: Match|
            post.matches.contains(m) <==> pre.matches.contains(m) || exists|i: int|
                #[trigger] timely(batch, clock, i) && batch[i] == m,
    decreases batch.len(),
{
    if batch.len() > 0 {
        let earlier = batch.drop_last();
        let before = clock.drop_last();
        let last = batch.len() - 1;
        let mid = lemma_run_splits(duel, pre, batch, clock, post);
        lemma_run_matches(duel, pre, earlier, before, mid);
        assert forall|m: Match|
            post.matches.contains(m) <==> pre.matches.contains(m) || exists|i: int|
                #[trigger] timely(batch, clock, i) && batch[i] == m by {
            if post.matches.contains(m) && !pre.matches.contains(m) {
                if mid.matches.contains(m) {
                    let i = choose|i: int| #[trigger] timely(earlier, before, i) && earlier[i] == m;
                    assert(timely(batch, clock, i) && batch[i] == m);
                } else {
                    assert(timely(batch, clock, last) && batch[last] == m);
                }
            }
            if exists|i: int| #[trigger] timely(batch, clock, i) && batch[i] == m {
                let i = choose|i: int| #[trigger] timely(batch, clock, i) && batch[i] == m;
                if i < last {
                    assert(timely(earlier, before, i) && earlier[i] == m);
                }
            }
        }
    }
}

/// A run over matches that are each dated after the time at which they are
/// met, or counted already, changes nothing.
pub proof fn lemma_run_of_nothing_new<F: Fn(Rating, Rating) -> (Rating, Rating)>(
    duel: F,
    pre: Board,
    batch: Seq<Match>,
    clock: Seq<i64>,
    post: Board,
)
    requires
        clock.len() == batch.len(),
        forall|i: int| #[trigger] timely(batch, clock, i) ==> pre.matches.contains(batch[i]),
        run(duel, pre, batch, clock, post),
    ensures
        post == pre,
    decreases batch.len(),
{
    if batch.len() > 0 {
        let earlier = batch.drop_last();
        let before = clock.drop_last();
        let last = batch.len() - 1;
        let mid = lemma_run_splits(duel, pre, batch, clock, post);
        assert forall|i: int| #[trigger] timely(earlier, before, i) implies pre.matches.contains(
            earlier[i],
        ) by {
            assert(timely(batch, clock, i));
        }
        lemma_run_of_nothing_new(duel, pre, earlier, before, mid);
        assert(timely(batch, clock, last) ==> pre.matches.contains(batch[last]));
    }
}

/// Feeding a batch a second time changes nothing: the board after the
/// second feeding is the board after the first. This holds where no match of
/// the batch was dated after the time at which it was first met and no longer
/// after the time at which it was met again.
pub proof fn lemma_run_is_idempotent<F: Fn(Rating, Rating) -> (Rating, Rating)>(
    duel: F,
    pre: Board,
    batch: Seq<Match>,
    first: Seq<i64>,
    again: Seq<i64>,
    once: Board,
    twice: Board,
)
    requires
        first.len() == batch.len(),
        again.len() == batch.len(),
        forall|i: int| #[trigger] timely(batch, again, i) ==> timely(batch, first, i),
        run(duel, pre, batch, first, once),
        run(duel, once, batch, again, twice),
    ensures
        twice == once,
{
    lemma_run_matches(duel, pre, batch, first, once);
    assert forall|i: int| #[trigger] timely(batch, again, i) implies once.matches.contains(
        batch[i],
    ) by {
        assert(timely(batch, first, i) && batch[i] == batch[i]);
    }
    lemma_run_of_nothing_new(duel, once, batch, again, twice);
}

/// Of a batch of `k` matches, none dated after the time at which it is met,
/// with `d` duplicates, a run counts `k - d`: the number of counted matches
/// grows by exactly that.
pub proof fn lemma_run_conserves<F: Fn(Rating, Rating) -> (Rating, Rating)>(
    duel: F,
    pre: Board,
    batch: Seq<Match>,
    clock: Seq<i64>,
    post: Board,
)
    requires
        pre.wf(),
        clock.len() == batch.len(),
        forall|i: int| 0 <= i < batch.len() ==> #[trigger] timely(batch, clock, i),
        run(duel, pre, batch, clock, post),
    ensures
        duplicates(pre.matches, batch) <= batch.len(),
        post.matches.len() == pre.matches.len() + batch.len() - duplicates(pre.matches, batch),
    decreases batch.len(),
{
    broadcast use vstd::set::group_set_axioms;

    if batch.len() > 0 {
        let earlier = batch.drop_last();
        let before = clock.drop_last();
        let m = batch.last();
        let mid = lemma_run_splits(duel, pre, batch, clock, post);
        assert forall|i: int| 0 <= i < earlier.len() implies #[trigger] timely(
            earlier,
            before,
            i,
        ) by {
            assert(timely(batch, clock, i));
        }
        lemma_run_conserves(duel, pre, earlier, before, mid);
        lemma_run_preserves_wf(duel, pre, earlier, before, mid);
        lemma_run_matches(duel, pre, earlier, before, mid);
        assert(timely(batch, clock, batch.len() - 1));
        if earlier.contains(m) {
            let i = choose|i: int| 0 <= i < earlier.len() && earlier[i] == m;
            assert(timely(earlier, before, i) && earlier[i] == m);
        }
        if mid.matches.contains(m) && !pre.matches.contains(m) {
            let i = choose|i: int| #[trigger] timely(earlier, before, i) && earlier[i] == m;
            assert(earlier[i] == m);
        }
        assert(mid.matches.contains(m) <==> pre.matches.contains(m) || earlier.contains(m));
    }
}

/// A step moves no rating but those of the two players of its match, and
/// adds no player but them.
pub proof fn lemma_step_leaves_others<F: Fn(Rating, Rating) -> (Rating, Rating)>(
    duel: F,
    pre: Board,
    m: Match,
    now: i64,
    post: Board,
    p: Player,
)
    requires
        step(duel, pre, m, now, post),
        !m.involves(p),
    ensures
        post.knows(p) == pre.knows(p),
        post.rating_of(p) == pre.rating_of(p),
{
}

/// Whether every rating that `b` holds is `good`.
pub open spec fn all_ratings(b: Board, good: spec_fn(Rating) -> bool) -> bool {
    forall|p: Player| #[trigger] b.knows(p) ==> good(b.ratings[p])
}

/// Whether `duel`, given two `good` ratings, returns two `good` ratings.
pub open spec fn keeps<F: Fn(Rating, Rating) -> (Rating, Rating)>(
    duel: F,
    good: spec_fn(Rating) -> bool,
) -> bool {
    forall|w: Rating, l: Rating, r: (Rating, Rating)|
        good(w) && good(l) && #[trigger] duel.ensures((w, l), r) ==> good(r.0) && good(r.1)
}

/// What the model keeps, a counted match keeps: where the default rating is
/// `good` and `duel` returns `good` ratings for `good` ones, a board that
/// holds only `good` ratings does so after a step.
pub proof fn lemma_step_keeps_ratings<F: Fn(Rating, Rating) -> (Rating, Rating)>(
    duel: F,
    good: spec_fn(Rating) -> bool,
    pre: Board,
    m: Match,
    now: i64,
    post: Board,
)
    requires
        good(default_rating_spec()),
        keeps(duel, good),
        all_ratings(pre, good),
        step(duel, pre, m, now, post),
    ensures
        all_ratings(post, good),
{
    if pre.admits(m, now) {
        let (w, l) = choose|w: Rating, l: Rating|
            #![trigger pre.record(m, w, l)]
            duel.ensures((pre.rating_of(m.winner), pre.rating_of(m.loser)), (w, l)) && post
                == pre.record(m, w, l);
        assert(pre.knows(m.winner) ==> good(pre.ratings[m.winner]));
        assert(pre.knows(m.loser) ==> good(pre.ratings[m.loser]));
        assert(good(w) && good(l));
        assert forall|p: Player| #[trigger] post.knows(p) implies good(post.ratings[p]) by {
            if !m.involves(p) {
                assert(pre.knows(p));
            }
        }
    }
}

/// What the model keeps, the leaderboard keeps: where the default rating is
/// `good` and `duel` returns `good` ratings for `good` ones, a board that
/// holds only `good` ratings does so after a run.
pub proof fn lemma_run_keeps_ratings<F: Fn(Rating, Rating) -> (Rating, Rating)>(
    duel: F,
    good: spec_fn(Rating) -> bool,
    pre: Board,
    batch: Seq<Match>,
    clock: Seq<i64>,
    post: Board,
)
    requires
        good(default_rating_spec()),
        keeps(duel, good),
        all_ratings(pre, good),
        run(duel, pre, batch, clock, post),
    ensures
        all_ratings(post, good),
    decreases batch.len(),
{
    if batch.len() > 0 {
        let mid = lemma_run_splits(duel, pre, batch, clock, post);
        lemma_run_keeps_ratings(duel, good, pre, batch.drop_last(), clock.drop_last(), mid);
        lemma_step_keeps_ratings(duel, good, mid, batch.last(), clock.last(), post);
    }
}

/// The test that picks the ratings whose `sigma` is at least zero.
pub open spec fn nonnegative_sigma() -> spec_fn(Rating) -> bool {
    |r: Rating| r.sigma_is_nonnegative()
}

/// No `sigma` goes below zero: with a model that returns ratings of `sigma`
/// at least zero for such ratings, a board on which every `sigma` is at least
/// zero is such a board after a run. The empty board is one.
pub proof fn lemma_run_keeps_sigma_nonnegative<F: Fn(Rating, Rating) -> (Rating, Rating)>(
    duel: F,
    pre: Board,
    batch: Seq<Match>,
    clock: Seq<i64>,
    post: Board,
)
    requires
        keeps(duel, nonnegative_sigma()),
        all_ratings(pre, nonnegative_sigma()),
        run(duel, pre, batch, clock, post),
    ensures
        all_ratings(post, nonnegative_sigma()),
        all_ratings(Board::empty(), nonnegative_sigma()),
{
    lemma_default_sigma_is_nonnegative();
    lemma_run_keeps_ratings(duel, nonnegative_sigma(), pre, batch, clock, post);
}

/// A run over one match is a step.
pub proof fn lemma_run_of_one<F: Fn(Rating, Rating) -> (Rating, Rating)>(
    duel: F,
    pre: Board,
    m: Match,
    now: i64,
    post: Board,
)
    ensures
        run(duel, pre, seq![m], seq![now], post) <==> step(duel, pre, m, now, post),
{
    let batch = seq![m];
    let clock = seq![now];
    assert(batch.drop_last() =~= Seq::<Match>::empty());
    assert(clock.drop_last() =~= Seq::<i64>::empty());
    assert(batch.last() == m && clock.last() == now);
    if step(duel, pre, m, now, post) {
        assert(run(duel, pre, batch.drop_last(), clock.drop_last(), pre));
        assert(step(duel, pre, batch.last(), clock.last(), post));
    }
    if run(duel, pre, batch, clock, post) {
        let mid = lemma_run_splits(duel, pre, batch, clock, post);
        assert(mid == pre);
    }
}

/// Whether `duel` never returns a rating less certain than the one it was
/// given: the `sigma` of each player after a duel is at most the one before.
pub open spec fn narrows<F: Fn(Rating, Rating) -> (Rating, Rating)>(duel: F) -> bool {
    forall|w: Rating, l: Rating, r: (Rating, Rating)| #[trigger]
        duel.ensures((w, l), r) ==> rank_key(r.0.sigma) <= rank_key(w.sigma) && rank_key(
            r.1.sigma,
        ) <= rank_key(l.sigma)
}

/// With a model that narrows, no player's `sigma` ever grows: after a run it
/// is at most what a lookup gave before the run.
pub proof fn lemma_run_never_raises_sigma<F: Fn(Rating, Rating) -> (Rating, Rating)>(
    duel: F,
    pre: Board,
    batch: Seq<Match>,
    clock: Seq<i64>,
    post: Board,
)
    requires
        narrows(duel),
        run(duel, pre, batch, clock, post),
    ensures
        forall|p: Player|
            rank_key(#[trigger] post.rating_of(p).sigma) <= rank_key(pre.rating_of(p).sigma),
    decreases batch.len(),
{
    if batch.len() > 0 {
        let mid = lemma_run_splits(duel, pre, batch, clock, post);
        lemma_run_never_raises_sigma(duel, pre, batch.drop_last(), clock.drop_last(), mid);
        let m = batch.last();
        assert forall|p: Player|
            rank_key(#[trigger] post.rating_of(p).sigma) <= rank_key(
                pre.rating_of(p).sigma,
            ) by {
            assert(rank_key(mid.rating_of(p).sigma) <= rank_key(pre.rating_of(p).sigma));
            if mid.admits(m, clock.last()) {
                let (w, l) = choose|w: Rating, l: Rating|
                    #![trigger mid.record(m, w, l)]
                    duel.ensures((mid.rating_of(m.winner), mid.rating_of(m.loser)), (w, l))
                        && post == mid.record(m, w, l);
                assert(rank_key(w.sigma) <= rank_key(mid.rating_of(m.winner).sigma));
                assert(rank_key(l.sigma) <= rank_key(mid.rating_of(m.loser).sigma));
            }
        }
    }
}

/// Whether `duel` moves two equally certain ratings the right way: where
/// winner and loser come with the same `sigma`, the winner's `mu` does not
/// fall, the loser's `mu` does not rise, and neither `sigma` grows.
pub open spec fn directional<F: Fn(Rating, Rating) -> (Rating, Rating)>(duel: F) -> bool {
    forall|w: Rating, l: Rating, r: (Rating, Rating)| #[trigger]
        duel.ensures((w, l), r) && w.sigma == l.sigma ==> {
            &&& rank_key(r.0.mu) >= rank_key(w.mu)
            &&& rank_key(r.1.mu) <= rank_key(l.mu)
            &&& rank_key(r.0.sigma) <= rank_key(w.sigma)
            &&& rank_key(r.1.sigma) <= rank_key(l.sigma)
        }
}

/// What a directional model does to two ratings, a counted match does to the
/// leaderboard: where two different players met with the same `sigma`, the
/// winner's `mu` has not fallen, the loser's has not risen, and neither
/// `sigma` has grown.
pub proof fn lemma_step_is_directional<F: Fn(Rating, Rating) -> (Rating, Rating)>(
    duel: F,
    pre: Board,
    m: Match,
    now: i64,
    post: Board,
)
    requires
        directional(duel),
        pre.admits(m, now),
        m.winner != m.loser,
        pre.rating_of(m.winner).sigma == pre.rating_of(m.loser).sigma,
        step(duel, pre, m, now, post),
    ensures
        rank_key(post.rating_of(m.winner).mu) >= rank_key(pre.rating_of(m.winner).mu),
        rank_key(post.rating_of(m.loser).mu) <= rank_key(pre.rating_of(m.loser).mu),
        rank_key(post.rating_of(m.winner).sigma) <= rank_key(pre.rating_of(m.winner).sigma),
        rank_key(post.rating_of(m.loser).sigma) <= rank_key(pre.rating_of(m.loser).sigma),
{
}

/// Whether `duel` returns what the function `model` gives, and nothing else.
pub open spec fn follows<F: Fn(Rating, Rating) -> (Rating, Rating)>(
    duel: F,
    model: spec_fn(Rating, Rating) -> (Rating, Rating),
) -> bool {
    forall|w: Rating, l: Rating, r: (Rating, Rating)| #[trigger]
        duel.ensures((w, l), r) ==> r == model(w, l)
}

/// With a model that is a function, so is ingestion: the board after a run
/// is the board that replaying the batch with that function gives.
pub proof fn lemma_run_follows_model<F: Fn(Rating, Rating) -> (Rating, Rating)>(
    duel: F,
    model: spec_fn(Rating, Rating) -> (Rating, Rating),
    pre: Board,
    batch: Seq<Match>,
    clock: Seq<i64>,
    post: Board,
)
    requires
        follows(duel, model),
        run(duel, pre, batch, clock, post),
    ensures
        post == replay(model, pre, batch, clock),
    decreases batch.len(),
{
    if batch.len() > 0 {
        let mid = lemma_run_splits(duel, pre, batch, clock, post);
        lemma_run_follows_model(duel, model, pre, batch.drop_last(), clock.drop_last(), mid);
    }
}

} // verus!
