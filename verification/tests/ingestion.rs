use leaderboard::ingest::update_database;
use leaderboard::matches::{Match, Player};
use leaderboard::rating::{default_rating, Rating, DEFAULT_MU, DEFAULT_SIGMA};
use leaderboard::store::Leaderboard;

const ALICE: Player = Player { id: 11 };
const BOB: Player = Player { id: 22 };
const CAROL: Player = Player { id: 33 };

/// A model that is easy to follow: the winner's `mu` goes up by one pattern,
/// the loser's down by one, and both `sigma` go down by one.
fn nudge(winner: Rating, loser: Rating) -> (Rating, Rating) {
    (
        Rating::new(winner.mu + 1, winner.sigma - 1),
        Rating::new(loser.mu - 1, loser.sigma - 1),
    )
}

fn to_outside(r: Rating) -> bbt::Rating {
    bbt::Rating::new(f64::from_bits(r.mu), f64::from_bits(r.sigma))
}

fn from_outside(r: &bbt::Rating) -> Rating {
    Rating::new(r.mu().to_bits(), r.sigma().to_bits())
}

fn bayes(winner: Rating, loser: Rating) -> (Rating, Rating) {
    let rater = bbt::Rater::new(1500.0 * 0.8);
    let (w, l) = rater.duel(to_outside(winner), to_outside(loser), bbt::Outcome::Win);
    (from_outside(&w), from_outside(&l))
}

#[test]
fn new_leaderboard_is_empty() {
    let db = Leaderboard::new();
    assert_eq!(db.player_count(), 0);
    assert_eq!(db.match_count(), 0);
    assert!(!db.knows(ALICE));
    assert!(db.top_n(10).is_empty());
}

#[test]
fn default_rating_is_1500_and_500() {
    let r = default_rating();
    assert_eq!(r.mu, DEFAULT_MU);
    assert_eq!(r.sigma, DEFAULT_SIGMA);
    assert_eq!(f64::from_bits(r.mu), 1500.0);
    assert_eq!(f64::from_bits(r.sigma), 1500.0 / 3.0);
}

#[test]
fn unseen_player_gets_default_and_keeps_it() {
    let mut db = Leaderboard::new();
    let first = db.get_rating(ALICE);
    assert_eq!(first, default_rating());
    assert_eq!(db.player_count(), 1);
    let second = db.get_rating(ALICE);
    assert_eq!(second, first);
    assert_eq!(db.player_count(), 1);
    assert!(db.knows(ALICE));
    assert!(!db.knows(BOB));
}

#[test]
fn update_overwrites_the_stored_rating() {
    let mut db = Leaderboard::new();
    db.get_rating(ALICE);
    db.get_rating(BOB);
    db.update_rating(&ALICE, Rating::new(7, 9));
    assert_eq!(db.get_rating(ALICE), Rating::new(7, 9));
    assert_eq!(db.get_rating(BOB), default_rating());
    db.update_rating(&ALICE, Rating::new(8, 1));
    assert_eq!(db.get_rating(ALICE), Rating::new(8, 1));
    assert_eq!(db.player_count(), 2);
}

#[test]
fn insert_match_is_a_set_insert() {
    let mut db = Leaderboard::new();
    db.get_rating(ALICE);
    db.get_rating(BOB);
    let m = Match::new(ALICE, BOB, 100);
    assert!(!db.contains_match(&m));
    assert!(db.insert_match(m));
    assert!(db.contains_match(&m));
    assert!(!db.insert_match(m));
    assert_eq!(db.match_count(), 1);
    assert!(!db.contains_match(&Match::new(BOB, ALICE, 100)));
    assert!(!db.contains_match(&Match::new(ALICE, BOB, 101)));
}

#[test]
fn one_match_moves_both_ratings() {
    let mut db = Leaderboard::new();
    let m = Match::new(ALICE, BOB, 100);
    assert!(db.ingest_match(m, 1000, &nudge));
    assert_eq!(db.match_count(), 1);
    assert_eq!(db.player_count(), 2);
    assert_eq!(db.get_rating(ALICE), Rating::new(DEFAULT_MU + 1, DEFAULT_SIGMA - 1));
    assert_eq!(db.get_rating(BOB), Rating::new(DEFAULT_MU - 1, DEFAULT_SIGMA - 1));
    assert_eq!(db.entry(0).player, ALICE);
    assert_eq!(db.entry(1).player, BOB);
}

#[test]
fn same_match_twice_counts_once() {
    let m = Match::new(ALICE, BOB, 100);
    let mut once = Leaderboard::new();
    once.ingest_match(m, 1000, &nudge);
    let mut twice = Leaderboard::new();
    assert!(twice.ingest_match(m, 1000, &nudge));
    assert!(!twice.ingest_match(m, 1000, &nudge));
    assert_eq!(twice.match_count(), once.match_count());
    assert_eq!(twice.player_count(), once.player_count());
    assert_eq!(twice.top_n(5), once.top_n(5));
    assert_eq!(twice.get_rating(ALICE), once.get_rating(ALICE));
    assert_eq!(twice.get_rating(BOB), once.get_rating(BOB));
}

#[test]
fn batch_grows_matches_by_k_minus_d() {
    let mut db = Leaderboard::new();
    let seen = Match::new(ALICE, BOB, 10);
    db.ingest_match(seen, 1000, &nudge);
    let before = db.match_count();
    let batch = vec![
        Match::new(ALICE, CAROL, 20),
        seen,
        Match::new(CAROL, BOB, 30),
        Match::new(ALICE, CAROL, 20),
        Match::new(BOB, ALICE, 40),
    ];
    let counted = db.ingest_batch(&batch, 1000, &nudge);
    assert_eq!(counted, 3);
    assert_eq!(db.match_count(), before + 5 - 2);
}

#[test]
fn future_match_is_passed_over() {
    let mut db = Leaderboard::new();
    db.ingest_match(Match::new(ALICE, BOB, 10), 1000, &nudge);
    let rows = db.top_n(5);
    let m = Match::new(CAROL, ALICE, 1001);
    assert!(!db.ingest_match(m, 1000, &nudge));
    assert!(!db.contains_match(&m));
    assert!(!db.knows(CAROL));
    assert_eq!(db.match_count(), 1);
    assert_eq!(db.top_n(5), rows);
}

#[test]
fn match_dated_now_is_counted() {
    let mut db = Leaderboard::new();
    assert!(db.ingest_match(Match::new(ALICE, BOB, 1000), 1000, &nudge));
    assert!(!db.ingest_match(Match::new(ALICE, BOB, i64::MAX), i64::MAX - 1, &nudge));
    assert!(db.ingest_match(Match::new(ALICE, BOB, i64::MIN), i64::MIN, &nudge));
    assert_eq!(db.match_count(), 2);
}

#[test]
fn future_match_is_counted_once_its_time_has_come() {
    let mut db = Leaderboard::new();
    let m = Match::new(ALICE, BOB, 500);
    assert!(!db.ingest_match(m, 499, &nudge));
    assert_eq!(db.player_count(), 0);
    assert!(db.ingest_match(m, 500, &nudge));
    assert_eq!(db.match_count(), 1);
}

#[test]
fn same_pair_twice_in_a_batch_builds_on_the_first() {
    let mut db = Leaderboard::new();
    let batch = vec![Match::new(ALICE, BOB, 1), Match::new(ALICE, BOB, 2)];
    assert_eq!(db.ingest_batch(&batch, 10, &nudge), 2);
    assert_eq!(db.get_rating(ALICE), Rating::new(DEFAULT_MU + 2, DEFAULT_SIGMA - 2));
    assert_eq!(db.get_rating(BOB), Rating::new(DEFAULT_MU - 2, DEFAULT_SIGMA - 2));
}

#[test]
fn batch_is_applied_in_the_order_given() {
    let mut db = Leaderboard::new();
    let batch = vec![Match::new(CAROL, BOB, 9), Match::new(ALICE, CAROL, 3)];
    db.ingest_batch(&batch, 10, &nudge);
    assert_eq!(db.entry(0).player, CAROL);
    assert_eq!(db.entry(1).player, BOB);
    assert_eq!(db.entry(2).player, ALICE);
    assert_eq!(db.get_rating(CAROL), Rating::new(DEFAULT_MU, DEFAULT_SIGMA - 2));
}

#[test]
fn player_against_itself_keeps_the_losers_rating() {
    let mut db = Leaderboard::new();
    assert!(db.ingest_match(Match::new(ALICE, ALICE, 1), 10, &nudge));
    assert_eq!(db.player_count(), 1);
    assert_eq!(db.get_rating(ALICE), Rating::new(DEFAULT_MU - 1, DEFAULT_SIGMA - 1));
    assert_eq!(db.matches_of(ALICE), 1);
}

#[test]
fn empty_batch_changes_nothing() {
    let mut db = Leaderboard::new();
    assert_eq!(db.ingest_batch(&[], 10, &nudge), 0);
    assert_eq!(db.match_count(), 0);
    assert_eq!(db.player_count(), 0);
}

#[test]
fn update_database_reads_the_clock() {
    let now = chrono::Utc::now().timestamp();
    let mut db = Leaderboard::new();
    let replays = vec![
        Match::new(ALICE, BOB, now - 3600),
        Match::new(BOB, CAROL, now + 3600),
        Match::new(ALICE, BOB, now - 3600),
        Match::new(CAROL, ALICE, 0),
    ];
    let first: Result<usize, String> = update_database(&mut db, Ok(replays.clone()), &nudge);
    assert_eq!(first, Ok(2));
    assert_eq!(db.match_count(), 2);
    assert!(db.contains_match(&replays[0]));
    assert!(!db.contains_match(&replays[1]));
    assert!(db.contains_match(&replays[3]));
    assert!(!db.knows(Player { id: 44 }));
    let second: Result<usize, String> = update_database(&mut db, Ok(replays), &nudge);
    assert_eq!(second, Ok(0));
    assert_eq!(db.match_count(), 2);
}

#[test]
fn failed_feed_changes_nothing() {
    let mut db = Leaderboard::new();
    db.ingest_match(Match::new(ALICE, BOB, 10), 1000, &nudge);
    let rows = db.top_n(10);
    let done = update_database(&mut db, Err("feed is down"), &nudge);
    assert_eq!(done, Err("feed is down"));
    assert_eq!(db.match_count(), 1);
    assert_eq!(db.player_count(), 2);
    assert_eq!(db.top_n(10), rows);
    let next: Result<usize, &str> =
        update_database(&mut db, Ok(vec![Match::new(BOB, CAROL, 20)]), &nudge);
    assert_eq!(next, Ok(1));
    assert_eq!(db.match_count(), 2);
}

#[test]
fn update_database_with_the_bayesian_model() {
    let mut db = Leaderboard::new();
    let replays = vec![Match::new(ALICE, BOB, 100), Match::new(ALICE, BOB, 100)];
    let done: Result<usize, String> = update_database(&mut db, Ok(replays), &bayes);
    assert_eq!(done, Ok(1));
    let (won, lost) = bayes(default_rating(), default_rating());
    assert_eq!(db.get_rating(ALICE), won);
    assert_eq!(db.get_rating(BOB), lost);
    assert!(won != default_rating());
    assert!(lost != default_rating());
}

#[test]
fn end_to_end_with_the_bayesian_model() {
    let mut db = Leaderboard::new();
    let batch = vec![
        Match::new(ALICE, BOB, 100),
        Match::new(ALICE, BOB, 100),
        Match::new(CAROL, ALICE, 200),
    ];
    assert_eq!(db.ingest_batch(&batch, 1000, &bayes), 2);
    assert_eq!(db.match_count(), 2);

    let (alice_won, bob_lost) = bayes(default_rating(), default_rating());
    let (carol_won, alice_lost) = bayes(default_rating(), alice_won);
    assert_eq!(db.get_rating(ALICE), alice_lost);
    assert_eq!(db.get_rating(BOB), bob_lost);
    assert_eq!(db.get_rating(CAROL), carol_won);

    let mu = |r: Rating| f64::from_bits(r.mu);
    let sigma = |r: Rating| f64::from_bits(r.sigma);
    assert!(mu(alice_won) > 1500.0);
    assert!(mu(bob_lost) < 1500.0);
    assert!(mu(carol_won) > 1500.0);
    assert!(mu(alice_lost) < mu(alice_won));
    assert!(sigma(alice_won) <= 500.0);
    assert!(sigma(bob_lost) <= 500.0);
    assert!(sigma(alice_lost) <= sigma(alice_won));
    assert!(sigma(carol_won) <= 500.0);

    let rows = db.top_n(3);
    assert_eq!(rows.len(), 3);
    let mut expected = vec![(ALICE, alice_lost, 2usize), (BOB, bob_lost, 1), (CAROL, carol_won, 1)];
    expected.sort_by(|a, b| mu(b.1).partial_cmp(&mu(a.1)).unwrap());
    for (i, row) in rows.iter().enumerate() {
        assert_eq!(row.rank, i + 1);
        assert_eq!(row.player, expected[i].0);
        assert_eq!(row.rating, expected[i].1);
        assert_eq!(row.matches, expected[i].2);
    }
    assert!(mu(rows[0].rating) >= mu(rows[1].rating));
    assert!(mu(rows[1].rating) >= mu(rows[2].rating));
    assert_eq!(db.top_n(3), rows);
}

#[test]
fn bayesian_model_moves_equal_sigma_ratings_the_right_way() {
    let a = Rating::new(1600.0f64.to_bits(), 300.0f64.to_bits());
    let b = Rating::new(1450.0f64.to_bits(), 300.0f64.to_bits());
    let (a2, b2) = bayes(a, b);
    assert!(f64::from_bits(a2.mu) >= 1600.0);
    assert!(f64::from_bits(b2.mu) <= 1450.0);
    assert!(f64::from_bits(a2.sigma) <= 300.0);
    assert!(f64::from_bits(b2.sigma) <= 300.0);
    let (b3, a3) = bayes(b, a);
    assert!(f64::from_bits(b3.mu) >= 1450.0);
    assert!(f64::from_bits(a3.mu) <= 1600.0);
    assert!(f64::from_bits(a3.sigma) <= 300.0);
    assert!(f64::from_bits(b3.sigma) <= 300.0);
}

#[test]
fn ratings_pass_through_the_store_unchanged() {
    let rater = bbt::Rater::default();
    let small = |winner: Rating, loser: Rating| {
        let (w, l) = rater.duel(to_outside(winner), to_outside(loser), bbt::Outcome::Win);
        (from_outside(&w), from_outside(&l))
    };
    let start = from_outside(&bbt::Rating::default());
    let mut db = Leaderboard::new();
    db.get_rating(ALICE);
    db.get_rating(BOB);
    db.update_rating(&ALICE, start);
    db.update_rating(&BOB, start);
    assert!(db.ingest_match(Match::new(ALICE, BOB, 1), 2, &small));
    let alice = db.get_rating(ALICE);
    let bob = db.get_rating(BOB);
    assert!((f64::from_bits(alice.mu) - 27.63523138).abs() < 1.0 / 100000000.0);
    assert!((f64::from_bits(alice.sigma) - 8.0655063).abs() < 1.0 / 1000000.0);
    assert!((f64::from_bits(bob.mu) - 22.36476861).abs() < 1.0 / 100000000.0);
    assert!((f64::from_bits(bob.sigma) - 8.0655063).abs() < 1.0 / 1000000.0);
    let rows = db.top_n(2);
    assert_eq!(rows[0].player, ALICE);
    assert_eq!(rows[1].player, BOB);
}

#[test]
fn sigma_stays_at_or_above_zero() {
    assert!(default_rating().has_nonnegative_sigma());
    assert!(Rating::new(0, 0).has_nonnegative_sigma());
    assert!(Rating::new(0, f64::INFINITY.to_bits()).has_nonnegative_sigma());
    assert!(!Rating::new(0, (-1.0f64).to_bits()).has_nonnegative_sigma());
    assert!(!Rating::new(0, (-0.0f64).to_bits()).has_nonnegative_sigma());
    assert!(Rating::new((-5.0f64).to_bits(), 3.0f64.to_bits()).has_nonnegative_sigma());

    let mut db = Leaderboard::new();
    let batch = vec![
        Match::new(ALICE, BOB, 1),
        Match::new(BOB, CAROL, 2),
        Match::new(CAROL, ALICE, 3),
        Match::new(ALICE, BOB, 4),
    ];
    assert_eq!(db.ingest_batch(&batch, 10, &bayes), 4);
    for row in db.top_n(3) {
        assert!(row.rating.has_nonnegative_sigma());
        assert!(f64::from_bits(row.rating.sigma) >= 0.0);
        assert!(f64::from_bits(row.rating.sigma) <= 500.0);
    }
}
