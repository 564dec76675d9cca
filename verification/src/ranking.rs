//! The ranked view of the leaderboard: the best players by `mu`, best first.

use vstd::prelude::*;
use crate::board::Board;
use crate::matches::Player;
use crate::rating::Rating;
use crate::store::Leaderboard;

verus! {

/// One line of the ranked view.
#[derive(Clone, Copy, Debug, PartialEq, Eq, Structural)]
pub struct Row {
    /// Place in the ranking, from 1.
    pub rank: usize,
    pub player: Player,
    pub rating: Rating,
    /// In how many counted matches the player played.
    pub matches: usize,
}

/// Whether `p` has a line in `rows`.
pub open spec fn shown(rows: Seq<Row>, p: Player) -> bool {
    exists|k: int| 0 <= k < rows.len() && (#[trigger] rows[k]).player == p
}

impl Board {
    /// Whether `p` was first seen before `q`.
    pub open spec fn seen_before(self, p: Player, q: Player) -> bool {
        exists|i: int, j: int|
            0 <= i < j < self.order.len() && self.order[i] == p && self.order[j] == q
    }

    /// Whether `p` ranks above `q`: by the larger `mu`, and of two players
    /// with the same `mu`, the one first seen earlier.
    pub open spec fn outranks(self, p: Player, q: Player) -> bool {
        let a = self.ratings[p].key();
        let b = self.ratings[q].key();
        a > b || (a == b && self.seen_before(p, q))
    }

    /// Whether `row` is the line of its player at place `k`, counted from 0.
    pub open spec fn is_row(self, k: int, row: Row) -> bool {
        &&& row.rank == k + 1
        &&& self.knows(row.player)
        &&& row.rating == self.ratings[row.player]
        &&& row.matches == self.matches_of(row.player)
    }

    /// Whether `rows` is the ranked view of the best `n` players: as many
    /// lines as asked for, or one for each player where there are fewer; each
    /// line true of its player; each line's player ranking above those of the
    /// lines below and above every player without a line.
    pub open spec fn is_top(self, n: nat, rows: Seq<Row>) -> bool {
        &&& rows.len() == if n <= self.order.len() {
            n
        } else {
            self.order.len()
        }
        &&& forall|k: int| 0 <= k < rows.len() ==> self.is_row(k, #[trigger] rows[k])
        &&& forall|a: int, b: int|
            0 <= a < b < rows.len() ==> self.outranks(
                (#[trigger] rows[a]).player,
                (#[trigger] rows[b]).player,
            )
        &&& forall|k: int, p: Player|
            0 <= k < rows.len() && self.knows(p) && !shown(rows, p) ==> #[trigger] self.outranks(
                rows[k].player,
                p,
            )
    }
}

impl Board {
    /// Whether the player at place `i` of the order of first sight ranks
    /// above the one at place `j`.
    spec fn ahead(self, i: int, j: int) -> bool {
        let a = self.ratings[self.order[i]].key();
        let b = self.ratings[self.order[j]].key();
        a > b || (a == b && i < j)
    }

    /// Whether `places` holds the places of the first `upto` players in the
    /// order of first sight, each once, best first.
    spec fn ranks(self, places: Seq<usize>, upto: int) -> bool {
        &&& places.len() == upto
        &&& forall|k: int| 0 <= k < places.len() ==> (#[trigger] places[k]) < upto
        &&& forall|a: int, b: int|
            0 <= a < b < places.len() ==> self.ahead(
                (#[trigger] places[a]) as int,
                (#[trigger] places[b]) as int,
            )
        &&& forall|i: int| 0 <= i < upto ==> #[trigger] placed(places, i)
    }
}

/// Whether the place `i` stands in `places`.
spec fn placed(places: Seq<usize>, i: int) -> bool {
    exists|k: int| 0 <= k < places.len() && #[trigger] places[k] == i
}

/// Of two players none ranks above the other and below it too, nor above itself.
pub proof fn lemma_outranks_is_asymmetric(b: Board, p: Player, q: Player)
    requires
        b.wf(),
    ensures
        !(b.outranks(p, q) && b.outranks(q, p)),
{
    if b.seen_before(p, q) && b.seen_before(q, p) {
        let (i, j) = choose|i: int, j: int|
            0 <= i < j < b.order.len() && b.order[i] == p && b.order[j] == q;
        let (x, y) = choose|x: int, y: int|
            0 <= x < y < b.order.len() && b.order[x] == q && b.order[y] == p;
        assert(i == y);
        assert(j == x);
    }
}

/// Who ranks above one who ranks above a third, ranks above the third.
pub proof fn lemma_outranks_is_transitive(b: Board, p: Player, q: Player, r: Player)
    requires
        b.wf(),
        b.outranks(p, q),
        b.outranks(q, r),
    ensures
        b.outranks(p, r),
{
    if b.seen_before(p, q) && b.seen_before(q, r) {
        let (i, j) = choose|i: int, j: int|
            0 <= i < j < b.order.len() && b.order[i] == p && b.order[j] == q;
        let (x, y) = choose|x: int, y: int|
            0 <= x < y < b.order.len() && b.order[x] == q && b.order[y] == r;
        assert(j == x);
        assert(0 <= i < y < b.order.len() && b.order[i] == p && b.order[y] == r);
    }
}

/// Of two different known players one ranks above the other.
pub proof fn lemma_outranks_is_total(b: Board, p: Player, q: Player)
    requires
        b.wf(),
        b.knows(p),
        b.knows(q),
        p != q,
    ensures
        b.outranks(p, q) || b.outranks(q, p),
{
    assert(b.order.contains(p));
    assert(b.order.contains(q));
    let i = choose|i: int| 0 <= i < b.order.len() && b.order[i] == p;
    let j = choose|j: int| 0 <= j < b.order.len() && b.order[j] == q;
    if i < j {
        assert(b.seen_before(p, q));
    } else {
        assert(j < i);
        assert(b.seen_before(q, p));
    }
}

/// By places in the order of first sight, `ahead` says what `outranks` says
/// of the players.
proof fn lemma_ahead_is_outranks(b: Board, i: int, j: int)
    requires
        b.wf(),
        0 <= i < b.order.len(),
        0 <= j < b.order.len(),
    ensures
        b.ahead(i, j) <==> b.outranks(b.order[i], b.order[j]),
{
    let p = b.order[i];
    let q = b.order[j];
    if b.seen_before(p, q) {
        let (x, y) = choose|x: int, y: int|
            0 <= x < y < b.order.len() && b.order[x] == p && b.order[y] == q;
        assert(x == i);
        assert(y == j);
    }
    if i < j {
        assert(b.seen_before(p, q));
    }
}

/// At each place the two ranked views of one board show the same player.
proof fn lemma_top_same_player(b: Board, n: nat, first: Seq<Row>, second: Seq<Row>, k: int)
    requires
        b.wf(),
        b.is_top(n, first),
        b.is_top(n, second),
        0 <= k < first.len(),
    ensures
        first[k].player == second[k].player,
    decreases k,
{
    let p = first[k].player;
    let q = second[k].player;
    assert forall|j: int| 0 <= j < k implies first[j].player == second[j].player by {
        lemma_top_same_player(b, n, first, second, j);
    }
    assert(b.is_row(k, first[k]) && b.is_row(k, second[k]));
    if p != q {
        lemma_outranks_is_total(b, p, q);
        lemma_outranks_is_asymmetric(b, p, q);
        lemma_outranks_is_asymmetric(b, p, p);
        lemma_outranks_is_asymmetric(b, q, q);
        if b.outranks(q, p) {
            if shown(first, q) {
                let j = choose|j: int| 0 <= j < first.len() && (#[trigger] first[j]).player == q;
                if j < k {
                    assert(b.outranks(second[j].player, second[k].player));
                } else {
                    assert(b.outranks(first[k].player, first[j].player));
                }
            } else {
                assert(b.outranks(first[k].player, q));
            }
        } else {
            if shown(second, p) {
                let j = choose|j: int| 0 <= j < second.len() && (#[trigger] second[j]).player == p;
                if j < k {
                    assert(b.outranks(first[j].player, first[k].player));
                } else {
                    assert(b.outranks(second[k].player, second[j].player));
                }
            } else {
                assert(b.outranks(second[k].player, p));
            }
        }
    }
}

/// A board has one ranked view of its best `n` players: two that both are
/// one are the same, line by line.
pub proof fn lemma_top_is_unique(b: Board, n: nat, first: Seq<Row>, second: Seq<Row>)
    requires
        b.wf(),
        b.is_top(n, first),
        b.is_top(n, second),
    ensures
        first == second,
{
    assert forall|k: int| 0 <= k < first.len() implies first[k] == second[k] by {
        lemma_top_same_player(b, n, first, second, k);
        assert(b.is_row(k, first[k]) && b.is_row(k, second[k]));
    }
    assert(first =~= second);
}

impl Leaderboard {
    /// The places of all players in the order of first sight, best first: an
    /// insertion sort that puts each player below those with the same `mu`
    /// who were seen earlier.
    fn ranked_places(&self) -> (places: Vec<usize>)
        requires
            self.wf(),
        ensures
            self@.ranks(places@, self@.order.len() as int),
    {
        let total = self.player_count();
        let mut places: Vec<usize> = Vec::new();
        let mut i: usize = 0;
        while i < total
            invariant
                self.wf(),
                total == self@.order.len(),
                i <= total,
                self@.ranks(places@, i as int),
            decreases total - i,
        {
            let key = self.entry(i).rating.rank_key();
            let mut j: usize = 0;
            while j < places.len() && self.entry(places[j]).rating.rank_key() >= key
                invariant
                    self.wf(),
                    total == self@.order.len(),
                    i < total,
                    self@.ranks(places@, i as int),
                    key == self@.ratings[self@.order[i as int]].key(),
                    j <= places@.len(),
                    forall|k: int|
                        0 <= k < j ==> self@.ratings[self@.order[(#[trigger] places@[k]) as int]].key()
                            >= key,
                decreases places@.len() - j,
            {
                j += 1;
            }
            let ghost before = places@;
            places.insert(j, i);
            proof {
                let b = self@;
                let after = places@;
                assert forall|x: int, y: int| 0 <= x < y < after.len() implies b.ahead(
                    (#[trigger] after[x]) as int,
                    (#[trigger] after[y]) as int,
                ) by {
                    if y < j {
                        assert(b.ahead(before[x] as int, before[y] as int));
                    } else if y == j {
                        assert(before[x] < i);
                    } else if x < j {
                        assert(b.ahead(before[x] as int, before[y - 1] as int));
                    } else if x == j {
                        if j < y - 1 {
                            assert(b.ahead(before[j as int] as int, before[y - 1] as int));
                        }
                        assert(before[y - 1] < i);
                    } else {
                        assert(b.ahead(before[x - 1] as int, before[y - 1] as int));
                    }
                }
                assert forall|x: int| 0 <= x < i + 1 implies #[trigger] placed(after, x) by {
                    if x == i {
                        assert(after[j as int] == x);
                    } else {
                        assert(placed(before, x));
                        let k = choose|k: int| 0 <= k < before.len() && #[trigger] before[k] == x;
                        if k < j {
                            assert(after[k] == x);
                        } else {
                            assert(after[k + 1] == x);
                        }
                    }
                }
                assert forall|k: int| 0 <= k < after.len() implies (#[trigger] after[k]) < i
                    + 1 by {
                    if k < j {
                        assert(before[k] < i);
                    } else if k > j {
                        assert(before[k - 1] < i);
                    }
                }
            }
            i += 1;
        }
        places
    }

    /// The ranked view of the best `n` players, best first: the players by
    /// `mu`, the larger first, and of two with the same `mu` the one first
    /// seen earlier; with each the rank from 1, the rating and the number of
    /// counted matches in which the player played. Changes nothing.
    pub fn top_n(&self, n: usize) -> (rows: Vec<Row>)
        requires
            self.wf(),
        ensures
            self@.is_top(n as nat, rows@),
    {
        let places = self.ranked_places();
        let limit = if n <= places.len() {
            n
        } else {
            places.len()
        };
        let mut rows: Vec<Row> = Vec::new();
        let mut k: usize = 0;
        while k < limit
            invariant
                self.wf(),
                self@.ranks(places@, self@.order.len() as int),
                limit <= places@.len(),
                k <= limit,
                rows@.len() == k,
                forall|t: int|
                    0 <= t < k ==> self@.is_row(t, #[trigger] rows@[t]) && rows@[t].player
                        == self@.order[places@[t] as int],
            decreases limit - k,
        {
            let e = self.entry(places[k]);
            let row = Row {
                rank: k + 1,
                player: e.player,
                rating: e.rating,
                matches: self.matches_of(e.player),
            };
            rows.push(row);
            k += 1;
        }
        proof {
            let b = self@;
            self.lemma_view_wf();
            assert forall|x: int, y: int| 0 <= x < y < rows@.len() implies b.outranks(
                (#[trigger] rows@[x]).player,
                (#[trigger] rows@[y]).player,
            ) by {
                assert(b.ahead(places@[x] as int, places@[y] as int));
                lemma_ahead_is_outranks(b, places@[x] as int, places@[y] as int);
            }
            assert forall|x: int, p: Player|
                0 <= x < rows@.len() && b.knows(p) && !shown(rows@, p) implies #[trigger] b.outranks(
                rows@[x].player,
                p,
            ) by {
                assert(b.order.contains(p));
                let i = choose|i: int| 0 <= i < b.order.len() && b.order[i] == p;
                assert(placed(places@, i));
                let t = choose|t: int| 0 <= t < places@.len() && #[trigger] places@[t] == i;
                if t < rows@.len() {
                    assert(rows@[t].player == p);
                }
                assert(b.ahead(places@[x] as int, places@[t] as int));
                lemma_ahead_is_outranks(b, places@[x] as int, places@[t] as int);
            }
        }
        rows
    }
}

} // verus!
