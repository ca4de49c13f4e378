//! Players: cash, holdings and hand; majority and second-place bonuses.
use vstd::prelude::*;

use crate::board::{Tile, MAX_NUM_CHAINS, MAX_SHARE_PRICE};

verus! {

/// One player's cash, shares per chain and hand of tiles.
#[derive(Clone)]
pub struct Player {
    pub cash: usize,
    pub stocks: [usize; MAX_NUM_CHAINS],
    pub tiles: Vec<Tile>,
}

/// The sum of a sequence of counts.
pub open spec fn sum_of(s: Seq<usize>) -> int
    decreases s.len(),
{
    if s.len() == 0 {
        0
    } else {
        sum_of(s.drop_last()) + s.last()
    }
}

/// The largest value of `h`, 0 for an empty sequence.
pub open spec fn max_of(h: Seq<usize>) -> int
    decreases h.len(),
{
    if h.len() == 0 {
        0
    } else {
        let m = max_of(h.drop_last());
        if h.last() > m {
            h.last() as int
        } else {
            m
        }
    }
}

/// The largest value of `h` below `bound`, 0 if there is none.
pub open spec fn max_below(h: Seq<usize>, bound: int) -> int
    decreases h.len(),
{
    if h.len() == 0 {
        0
    } else {
        let m = max_below(h.drop_last(), bound);
        if h.last() < bound && h.last() > m {
            h.last() as int
        } else {
            m
        }
    }
}

/// How many entries of `h` equal `v`.
pub open spec fn count_eq(h: Seq<usize>, v: int) -> nat
    decreases h.len(),
{
    if h.len() == 0 {
        0
    } else {
        count_eq(h.drop_last(), v) + if h.last() == v {
            1nat
        } else {
            0nat
        }
    }
}

/// `x` rounded up to the next multiple of 100.
pub open spec fn round_up_100(x: int) -> int {
    if x % 100 == 0 {
        x
    } else {
        x + (100 - x % 100)
    }
}

/// The amount each of `k` players receives when they share `bonus`.
pub open spec fn bonus_share(bonus: int, k: int) -> int {
    round_up_100(bonus / k)
}

/// What each player holds of chain `c`.
pub open spec fn holdings_of(players: Seq<Player>, c: int) -> Seq<usize> {
    Seq::new(players.len(), |p: int| players[p].stocks@[c])
}

/// The bonus that the holder at position `p` of `h` receives when a chain
/// whose share costs `price` is retired.
///
/// Only holders count: when nobody holds a share, nobody is paid. The
/// majority bonus is ten times the price and the second bonus half of
/// that. Players tied for the most shares split both, each share rounded up
/// to 100. A sole majority holder takes the majority bonus, and the second
/// bonus too when nobody else holds any share; otherwise the players tied for
/// second place split the second bonus.
pub open spec fn bonus_for(h: Seq<usize>, price: int, p: int) -> int {
    let majority = price * 10;
    let second = majority / 2;
    let top = max_of(h);
    let n_top = count_eq(h, top);
    let runner_up = max_below(h, top);
    if top == 0 {
        0
    } else if n_top > 1 {
        if h[p] == top {
            bonus_share(majority + second, n_top as int)
        } else {
            0
        }
    } else if h[p] == top {
        if runner_up == 0 {
            majority + second
        } else {
            majority
        }
    } else if runner_up > 0 && h[p] == runner_up {
        bonus_share(second, count_eq(h, runner_up) as int)
    } else {
        0
    }
}

/// How often `p` occurs in `s`.
pub open spec fn count_in(s: Seq<usize>, p: int) -> nat
    decreases s.len(),
{
    if s.len() == 0 {
        0
    } else {
        count_in(s.drop_last(), p) + if s.last() == p {
            1nat
        } else {
            0nat
        }
    }
}

/// `q` is `p` with `extra` more cash and nothing else changed.
pub open spec fn paid(p: Player, q: Player, extra: int) -> bool {
    &&& q.cash == p.cash + extra
    &&& q.stocks == p.stocks
    &&& q.tiles == p.tiles
}

impl Player {
    /// A player with `cash`, the hand `tiles` and no shares.
    pub fn new(cash: usize, tiles: Vec<Tile>) -> (r: Player)
        ensures
            r.cash == cash,
            r.tiles == tiles,
            forall|i: int| 0 <= i < MAX_NUM_CHAINS ==> r.stocks@[i] == 0,
    {
        Player { cash, stocks: [0; MAX_NUM_CHAINS], tiles }
    }

    /// The number of shares held, over all chains.
    pub fn total_shares(&self) -> (r: usize)
        requires
            sum_of(self.stocks@) <= usize::MAX,
        ensures
            r == sum_of(self.stocks@),
    {
        let mut total: usize = 0;
        let mut i: usize = 0;
        while i < MAX_NUM_CHAINS
            invariant
                i <= MAX_NUM_CHAINS,
                total == sum_of(self.stocks@.take(i as int)),
                sum_of(self.stocks@) <= usize::MAX,
            decreases MAX_NUM_CHAINS - i,
        {
            assert(self.stocks@.take(i + 1).drop_last() == self.stocks@.take(i as int));
            proof {
                lemma_sum_prefix_le(self.stocks@, i + 1);
            }
            total = total + self.stocks[i];
            i = i + 1;
        }
        assert(self.stocks@.take(MAX_NUM_CHAINS as int) == self.stocks@);
        total
    }

    /// The number of tiles in hand.
    pub fn num_tiles(&self) -> (r: usize)
        ensures
            r == self.tiles@.len(),
    {
        self.tiles.len()
    }
}

/// A prefix of a sequence of counts sums to no more than the whole.
pub proof fn lemma_sum_prefix_le(s: Seq<usize>, i: int)
    requires
        0 <= i <= s.len(),
    ensures
        sum_of(s.take(i)) <= sum_of(s),
    decreases s.len() - i,
{
    if i < s.len() {
        lemma_sum_prefix_le(s, i + 1);
        assert(s.take(i + 1).drop_last() == s.take(i));
    } else {
        assert(s.take(i) == s);
    }
}

/// Gives each player listed in `receiving_players` an equal part of `bonus`,
/// rounded up to the next multiple of 100 (a player listed twice is paid twice).
pub fn distribute_bonus(bonus: usize, receiving_players: &[usize], players: &mut [Player])
    requires
        receiving_players@.len() > 0,
        forall|i: int|
            0 <= i < receiving_players@.len() ==> receiving_players@[i] < old(players)@.len(),
        forall|p: int|
            0 <= p < old(players)@.len() ==> old(players)@[p].cash + count_in(
                receiving_players@,
                p,
            ) * bonus_share(bonus as int, receiving_players@.len() as int) <= usize::MAX,
    ensures
        final(players)@.len() == old(players)@.len(),
        forall|p: int|
            0 <= p < old(players)@.len() ==> paid(
                #[trigger] old(players)@[p],
                final(players)@[p],
                count_in(receiving_players@, p) * bonus_share(
                    bonus as int,
                    receiving_players@.len() as int,
                ),
            ),
{
    let ghost k = receiving_players@.len() as int;
    let ghost share = bonus_share(bonus as int, k);
    let mut amount = bonus / receiving_players.len();
    proof {
        lemma_count_in_member(receiving_players@, 0);
        let first_receiver = receiving_players@[0] as int;
        assert(count_in(receiving_players@, first_receiver) * share >= share) by (nonlinear_arith)
            requires
                count_in(receiving_players@, first_receiver) >= 1,
                share >= 0,
        ;
    }
    if amount % 100 != 0 {
        amount = amount + (100 - amount % 100);
    }
    assert(amount == share);
    let ghost start = players@;
    let mut i: usize = 0;
    assert forall|p: int| 0 <= p < start.len() implies paid(
        #[trigger] start[p],
        players@[p],
        count_in(receiving_players@.take(0), p) * share,
    ) by {
        assert(receiving_players@.take(0) == Seq::<usize>::empty());
        assert(count_in(receiving_players@.take(0), p) == 0);
    }
    while i < receiving_players.len()
        invariant
            i <= receiving_players@.len(),
            amount == share,
            share == bonus_share(bonus as int, receiving_players@.len() as int),
            players@.len() == start.len(),
            forall|j: int|
                0 <= j < receiving_players@.len() ==> receiving_players@[j] < start.len(),
            forall|p: int|
                0 <= p < start.len() ==> start[p].cash + count_in(receiving_players@, p) * share
                    <= usize::MAX,
            forall|p: int|
                0 <= p < start.len() ==> paid(
                    #[trigger] start[p],
                    players@[p],
                    count_in(receiving_players@.take(i as int), p) * share,
                ),
        decreases receiving_players@.len() - i,
    {
        let p = receiving_players[i];
        assert(receiving_players@.take(i + 1).drop_last() == receiving_players@.take(i as int));
        proof {
            lemma_count_in_prefix_le(receiving_players@, i + 1, p as int);
            assert(share >= 0);
            assert(count_in(receiving_players@.take(i + 1), p as int) * share <= count_in(
                receiving_players@,
                p as int,
            ) * share) by (nonlinear_arith)
                requires
                    count_in(receiving_players@.take(i + 1), p as int) <= count_in(
                        receiving_players@,
                        p as int,
                    ),
                    share >= 0,
            ;
            assert(count_in(receiving_players@.take(i + 1), p as int) * share == count_in(
                receiving_players@.take(i as int),
                p as int,
            ) * share + share) by (nonlinear_arith)
                requires
                    count_in(receiving_players@.take(i + 1), p as int) == count_in(
                        receiving_players@.take(i as int),
                        p as int,
                    ) + 1,
            ;
        }
        players[p].cash = players[p].cash + amount;
        i = i + 1;
    }
    assert(receiving_players@.take(receiving_players@.len() as int) == receiving_players@);
}

/// An entry of a sequence occurs in it at least once.
pub proof fn lemma_count_in_member(s: Seq<usize>, j: int)
    requires
        0 <= j < s.len(),
    ensures
        count_in(s, s[j] as int) >= 1,
    decreases s.len(),
{
    if j < s.len() - 1 {
        lemma_count_in_member(s.drop_last(), j);
    }
}

/// A prefix holds an index no more often than the whole sequence.
pub proof fn lemma_count_in_prefix_le(s: Seq<usize>, i: int, p: int)
    requires
        0 <= i <= s.len(),
    ensures
        count_in(s.take(i), p) <= count_in(s, p),
    decreases s.len() - i,
{
    if i < s.len() {
        lemma_count_in_prefix_le(s, i + 1, p);
        assert(s.take(i + 1).drop_last() == s.take(i));
    } else {
        assert(s.take(i) == s);
    }
}


/// The most shares of chain `c` that any player holds.
fn max_holding(players: &[Player], c: usize) -> (r: usize)
    requires
        c < MAX_NUM_CHAINS,
    ensures
        r == max_of(holdings_of(players@, c as int)),
{
    let ghost h = holdings_of(players@, c as int);
    let mut best: usize = 0;
    let mut i: usize = 0;
    while i < players.len()
        invariant
            c < MAX_NUM_CHAINS,
            h == holdings_of(players@, c as int),
            i <= players@.len(),
            best == max_of(h.take(i as int)),
        decreases players@.len() - i,
    {
        assert(h.take(i + 1).drop_last() == h.take(i as int));
        let held = players[i].stocks[c];
        if held > best {
            best = held;
        }
        i = i + 1;
    }
    assert(h.take(players@.len() as int) == h);
    best
}

/// The most shares of chain `c` that any player holds below `bound`, 0 if none.
fn max_holding_below(players: &[Player], c: usize, bound: usize) -> (r: usize)
    requires
        c < MAX_NUM_CHAINS,
    ensures
        r == max_below(holdings_of(players@, c as int), bound as int),
{
    let ghost h = holdings_of(players@, c as int);
    let mut best: usize = 0;
    let mut i: usize = 0;
    while i < players.len()
        invariant
            c < MAX_NUM_CHAINS,
            h == holdings_of(players@, c as int),
            i <= players@.len(),
            best == max_below(h.take(i as int), bound as int),
        decreases players@.len() - i,
    {
        assert(h.take(i + 1).drop_last() == h.take(i as int));
        let held = players[i].stocks[c];
        if held < bound && held > best {
            best = held;
        }
        i = i + 1;
    }
    assert(h.take(players@.len() as int) == h);
    best
}

/// The players, in seat order, who hold exactly `v` shares of chain `c`.
fn holders_of(players: &[Player], c: usize, v: usize) -> (r: Vec<usize>)
    requires
        c < MAX_NUM_CHAINS,
    ensures
        r@.len() == count_eq(holdings_of(players@, c as int), v as int),
        forall|j: int| 0 <= j < r@.len() ==> r@[j] < players@.len(),
        forall|q: int|
            0 <= q < players@.len() ==> #[trigger] count_in(r@, q) == if holdings_of(
                players@,
                c as int,
            )[q] == v {
                1nat
            } else {
                0nat
            },
{
    let ghost h = holdings_of(players@, c as int);
    let mut r: Vec<usize> = Vec::new();
    let mut i: usize = 0;
    while i < players.len()
        invariant
            c < MAX_NUM_CHAINS,
            h == holdings_of(players@, c as int),
            i <= players@.len(),
            r@.len() == count_eq(h.take(i as int), v as int),
            forall|j: int| 0 <= j < r@.len() ==> r@[j] < i,
            forall|q: int|
                0 <= q < players@.len() ==> #[trigger] count_in(r@, q) == if q < i && h[q] == v {
                    1nat
                } else {
                    0nat
                },
        decreases players@.len() - i,
    {
        assert(h.take(i + 1).drop_last() == h.take(i as int));
        let ghost before = r@;
        if players[i].stocks[c] == v {
            r.push(i);
            assert(r@.drop_last() == before);
        }
        assert forall|q: int| 0 <= q < players@.len() implies #[trigger] count_in(r@, q) == if q
            < i + 1 && h[q] == v {
            1nat
        } else {
            0nat
        } by {
            if h[i as int] == v {
                assert(count_in(r@, q) == count_in(before, q) + if i == q {
                    1nat
                } else {
                    0nat
                });
            }
        }
        i = i + 1;
    }
    assert(h.take(players@.len() as int) == h);
    r
}

/// The largest value of a non-empty sequence occurs in it.
pub proof fn lemma_max_attained(h: Seq<usize>)
    requires
        h.len() > 0,
    ensures
        count_eq(h, max_of(h)) >= 1,
        forall|q: int| 0 <= q < h.len() ==> h[q] <= max_of(h),
    decreases h.len(),
{
    if h.len() > 1 {
        lemma_max_attained(h.drop_last());
        lemma_count_eq_monotone(h.drop_last(), max_of(h.drop_last()));
        if h.last() > max_of(h.drop_last()) {
            assert(count_eq(h, h.last() as int) >= 1);
        }
        assert forall|q: int| 0 <= q < h.len() implies h[q] <= max_of(h) by {
            if q < h.len() - 1 {
                assert(h[q] == h.drop_last()[q]);
            }
        }
    } else {
        assert(h.drop_last().len() == 0);
        assert(count_eq(h.drop_last(), max_of(h)) == 0);
        assert(max_of(h.drop_last()) == 0);
        assert(max_of(h) == h[0]);
    }
}

/// A positive largest value below a bound occurs in the sequence, and is below the bound.
pub proof fn lemma_max_below_attained(h: Seq<usize>, bound: int)
    requires
        max_below(h, bound) > 0,
    ensures
        count_eq(h, max_below(h, bound)) >= 1,
        max_below(h, bound) < bound,
    decreases h.len(),
{
    let m = max_below(h.drop_last(), bound);
    if h.last() < bound && h.last() > m {
        assert(count_eq(h, h.last() as int) >= 1);
    } else {
        lemma_max_below_attained(h.drop_last(), bound);
        lemma_count_eq_monotone(h, m);
    }
}

/// `count_eq` of a sequence is at least that of the sequence without its last entry.
pub proof fn lemma_count_eq_monotone(h: Seq<usize>, v: int)
    requires
        h.len() > 0,
    ensures
        count_eq(h, v) >= count_eq(h.drop_last(), v),
{
}

/// A one-element list holds its entry once and nothing else.
proof fn lemma_count_in_single(s: Seq<usize>, q: int)
    requires
        s.len() == 1,
    ensures
        count_in(s, q) == if s[0] == q {
            1nat
        } else {
            0nat
        },
{
    assert(s.drop_last().len() == 0);
    assert(count_in(s.drop_last(), q) == 0);
}

/// Pays the majority and second-place bonuses of chain `stock_index`, whose
/// share costs `stock_price`, according to each player's holdings in it.
pub fn pay_bonuses(stock_index: usize, stock_price: usize, players: &mut [Player])
    requires
        stock_index < MAX_NUM_CHAINS,
        stock_price <= MAX_SHARE_PRICE,
        forall|p: int|
            0 <= p < old(players)@.len() ==> old(players)@[p].cash + bonus_for(
                holdings_of(old(players)@, stock_index as int),
                stock_price as int,
                p,
            ) <= usize::MAX,
    ensures
        final(players)@.len() == old(players)@.len(),
        forall|p: int|
            0 <= p < old(players)@.len() ==> paid(
                #[trigger] old(players)@[p],
                final(players)@[p],
                bonus_for(holdings_of(old(players)@, stock_index as int), stock_price as int, p),
            ),
{
    let ghost start = players@;
    let ghost h = holdings_of(start, stock_index as int);
    let ghost price = stock_price as int;
    let majority_bonus = stock_price * 10;
    let second_bonus = majority_bonus / 2;
    let max_held = max_holding(players, stock_index);
    if max_held == 0 {
        // Nobody holds a share: no bonus.
        return;
    }
    let majority_players = holders_of(players, stock_index, max_held);
    if majority_players.len() == 0 {
        assert forall|p: int| 0 <= p < start.len() implies paid(
            #[trigger] start[p],
            players@[p],
            bonus_for(h, price, p),
        ) by {
            lemma_max_attained(h);
        }
        return;
    }
    proof {
        lemma_max_attained(h);
    }
    if majority_players.len() > 1 {
        let ghost share = bonus_share(majority_bonus + second_bonus, majority_players@.len() as int);
        assert forall|p: int| 0 <= p < start.len() implies #[trigger] bonus_for(h, price, p)
            == count_in(majority_players@, p) * share by {
            assert(count_eq(h, max_of(h)) > 1);
            assert(share == bonus_share(price * 10 + (price * 10) / 2, count_eq(h, max_of(h)) as int));
            if h[p] == max_held {
                assert(count_in(majority_players@, p) == 1);
                assert(bonus_for(h, price, p) == share);
            } else {
                assert(count_in(majority_players@, p) == 0);
            }
        }
        assert forall|p: int| 0 <= p < start.len() implies start[p].cash + count_in(
            majority_players@,
            p,
        ) * share <= usize::MAX by {
            assert(bonus_for(h, price, p) == count_in(majority_players@, p) * share);
        }
        distribute_bonus(majority_bonus + second_bonus, majority_players.as_slice(), players);
    } else {
        let majority_player = majority_players[0];
        proof {
            lemma_count_in_single(majority_players@, majority_player as int);
            assert forall|q: int| 0 <= q < start.len() && q != majority_player implies h[q]
                != max_held by {
                lemma_count_in_single(majority_players@, q);
            }
        }
        let second_held = max_holding_below(players, stock_index, max_held);
        assert(bonus_for(h, price, majority_player as int) == majority_bonus + if second_held == 0 {
            second_bonus as int
        } else {
            0
        });
        if second_held == 0 {
            players[majority_player].cash = players[majority_player].cash + majority_bonus
                + second_bonus;
            assert forall|p: int| 0 <= p < start.len() implies paid(
                #[trigger] start[p],
                players@[p],
                bonus_for(h, price, p),
            ) by {}
        } else {
            let second_players = holders_of(players, stock_index, second_held);
            proof {
                lemma_max_below_attained(h, max_held as int);
            }
            players[majority_player].cash = players[majority_player].cash + majority_bonus;
            let ghost mid = players@;
            let ghost share = bonus_share(second_bonus as int, second_players@.len() as int);
            assert(holdings_of(mid, stock_index as int) == h);
            assert forall|p: int| 0 <= p < start.len() implies #[trigger] bonus_for(h, price, p)
                == (if p == majority_player {
                majority_bonus as int
            } else {
                0
            }) + count_in(second_players@, p) * share by {
                assert(count_eq(h, max_of(h)) == 1);
                assert(max_below(h, max_of(h)) == second_held);
                assert(h[majority_player as int] == max_held);
                assert(second_held < max_held);
                if p == majority_player {
                    assert(count_in(second_players@, p) == 0);
                    assert(bonus_for(h, price, p) == majority_bonus);
                } else if h[p] == second_held {
                    assert(h[p] != max_held);
                    assert(bonus_for(h, price, p) == share);
                    assert(count_in(second_players@, p) == 1);
                } else {
                    assert(h[p] != max_held);
                    assert(bonus_for(h, price, p) == 0);
                }
                if h[p] == second_held {
                    assert(p != majority_player);
                    assert(count_in(second_players@, p) == 1);
                } else {
                    assert(count_in(second_players@, p) == 0);
                }
            }
            assert forall|p: int| 0 <= p < start.len() implies mid[p].cash + count_in(
                second_players@,
                p,
            ) * share <= usize::MAX by {
                assert(bonus_for(h, price, p) == (if p == majority_player {
                    majority_bonus as int
                } else {
                    0
                }) + count_in(second_players@, p) * share);
            }
            distribute_bonus(second_bonus, second_players.as_slice(), players);
        }
    }
}


/// Each entry of a sequence of counts is at most its sum.
pub proof fn lemma_entry_le_sum(s: Seq<usize>, i: int)
    requires
        0 <= i < s.len(),
    ensures
        s[i] <= sum_of(s),
    decreases s.len(),
{
    lemma_sum_nonneg(s.drop_last());
    if i < s.len() - 1 {
        lemma_entry_le_sum(s.drop_last(), i);
    }
}

/// A sum of counts is non-negative.
pub proof fn lemma_sum_nonneg(s: Seq<usize>)
    ensures
        sum_of(s) >= 0,
    decreases s.len(),
{
    if s.len() > 0 {
        lemma_sum_nonneg(s.drop_last());
    }
}

/// Replacing one entry changes the sum by the difference.
pub proof fn lemma_sum_update(s: Seq<usize>, i: int, v: usize)
    requires
        0 <= i < s.len(),
    ensures
        sum_of(s.update(i, v)) == sum_of(s) - s[i] + v,
    decreases s.len(),
{
    if i < s.len() - 1 {
        lemma_sum_update(s.drop_last(), i, v);
        assert(s.update(i, v).drop_last() == s.drop_last().update(i, v));
    } else {
        assert(s.update(i, v).drop_last() == s.drop_last());
    }
}

/// No player's bonus for one chain exceeds 20000 when a share costs at most 1200.
pub proof fn lemma_bonus_bounded(h: Seq<usize>, price: int, p: int)
    requires
        0 <= price <= MAX_SHARE_PRICE,
        0 <= p < h.len(),
    ensures
        0 <= bonus_for(h, price, p) <= 20000,
{
    let majority = price * 10;
    let second = majority / 2;
    let top = max_of(h);
    let n_top = count_eq(h, top);
    let runner_up = max_below(h, top);
    lemma_max_attained(h);
    if n_top > 1 {
        lemma_share_bounded(majority + second, n_top as int);
    } else if h[p] != top && runner_up > 0 && h[p] == runner_up {
        lemma_max_below_attained(h, top);
        lemma_share_bounded(second, count_eq(h, runner_up) as int);
    }
}

/// A share of a bonus is at most the bonus plus 99.
pub proof fn lemma_share_bounded(bonus: int, k: int)
    requires
        0 <= bonus,
        k >= 1,
    ensures
        0 <= bonus_share(bonus, k) <= bonus + 99,
{
    assert(bonus / k <= bonus) by (nonlinear_arith)
        requires
            0 <= bonus,
            k >= 1,
    ;
    assert(bonus / k >= 0) by (nonlinear_arith)
        requires
            0 <= bonus,
            k >= 1,
    ;
}

/// When a single player holds shares of a chain, that player receives both
/// the majority and the second bonus in full, unrounded, and nobody else
/// receives anything.
pub proof fn lemma_sole_holder_bonus(h: Seq<usize>, price: int, q: int)
    requires
        0 <= q < h.len(),
        h[q] > 0,
        forall|p: int| 0 <= p < h.len() && p != q ==> #[trigger] h[p] == 0,
    ensures
        bonus_for(h, price, q) == price * 10 + (price * 10) / 2,
        forall|p: int| 0 <= p < h.len() && p != q ==> #[trigger] bonus_for(h, price, p) == 0,
{
    lemma_max_attained(h);
    let top = max_of(h);
    assert(h[q] <= top);
    if top != h[q] {
        lemma_count_eq_witness(h, top);
    }
    assert(top == h[q]);
    lemma_count_eq_one(h, q);
    lemma_max_below_zero(h, top, q);
}

/// A value counted in `h` occurs at some position.
proof fn lemma_count_eq_witness(h: Seq<usize>, v: int)
    requires
        count_eq(h, v) >= 1,
    ensures
        exists|p: int| 0 <= p < h.len() && h[p] == v,
    decreases h.len(),
{
    if h.last() == v {
        assert(h[h.len() - 1] == v);
    } else {
        lemma_count_eq_witness(h.drop_last(), v);
        let p = choose|p: int| 0 <= p < h.drop_last().len() && h.drop_last()[p] == v;
        assert(h[p] == v);
    }
}

/// A positive value held at `q` alone is counted once.
proof fn lemma_count_eq_one(h: Seq<usize>, q: int)
    requires
        0 <= q < h.len(),
        h[q] > 0,
        forall|p: int| 0 <= p < h.len() && p != q ==> #[trigger] h[p] == 0,
    ensures
        count_eq(h, h[q] as int) == 1,
    decreases h.len(),
{
    if q < h.len() - 1 {
        assert forall|p: int| 0 <= p < h.drop_last().len() && p != q implies #[trigger] h.drop_last()[p] == 0 by {
            assert(h.drop_last()[p] == h[p]);
        }
        lemma_count_eq_one(h.drop_last(), q);
        assert(h.drop_last()[q] == h[q]);
    } else {
        lemma_count_eq_zero(h.drop_last(), h[q] as int);
    }
}

/// A positive value is not counted among zeros.
proof fn lemma_count_eq_zero(h: Seq<usize>, v: int)
    requires
        v > 0,
        forall|p: int| 0 <= p < h.len() ==> #[trigger] h[p] == 0,
    ensures
        count_eq(h, v) == 0,
    decreases h.len(),
{
    if h.len() > 0 {
        lemma_count_eq_zero(h.drop_last(), v);
    }
}

/// Where only position `q` is positive, nothing positive lies below its value.
proof fn lemma_max_below_zero(h: Seq<usize>, bound: int, q: int)
    requires
        0 <= q < h.len(),
        bound == h[q],
        forall|p: int| 0 <= p < h.len() && p != q ==> #[trigger] h[p] == 0,
    ensures
        max_below(h, bound) == 0,
    decreases h.len(),
{
    if h.len() > 0 {
        if q < h.len() - 1 {
            assert forall|p: int| 0 <= p < h.drop_last().len() && p != q implies #[trigger] h.drop_last()[p] == 0 by {
                assert(h.drop_last()[p] == h[p]);
            }
            assert(h.drop_last()[q] == h[q]);
            lemma_max_below_zero(h.drop_last(), bound, q);
        } else {
            lemma_max_below_zeros(h.drop_last(), bound);
        }
    }
}

/// Among zeros nothing positive lies below any bound.
proof fn lemma_max_below_zeros(h: Seq<usize>, bound: int)
    requires
        forall|p: int| 0 <= p < h.len() ==> #[trigger] h[p] == 0,
    ensures
        max_below(h, bound) == 0,
    decreases h.len(),
{
    if h.len() > 0 {
        lemma_max_below_zeros(h.drop_last(), bound);
    }
}

/// When nobody holds a share of a chain, nobody receives a bonus for it.
pub proof fn lemma_no_holder_no_bonus(h: Seq<usize>, price: int, p: int)
    requires
        0 <= p < h.len(),
        forall|q: int| 0 <= q < h.len() ==> #[trigger] h[q] == 0,
    ensures
        bonus_for(h, price, p) == 0,
{
    lemma_max_zeros(h);
}

/// The largest of zeros is zero.
proof fn lemma_max_zeros(h: Seq<usize>)
    requires
        forall|q: int| 0 <= q < h.len() ==> #[trigger] h[q] == 0,
    ensures
        max_of(h) == 0,
    decreases h.len(),
{
    if h.len() > 0 {
        lemma_max_zeros(h.drop_last());
    }
}

} // verus!
