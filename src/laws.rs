//! Properties of the rules that hold across transitions.
use vstd::prelude::*;

use crate::board::{MAX_NUM_CHAINS, SAFE_CHAIN_SIZE, STOCKS_PER_CHAIN};
use crate::game::{TilePlayability, TurnAction};
use crate::player::lemma_sum_update;
use crate::rules::{
    all_chains, cash_reserve, count_chains, create_chain, draw, end_turn, holdings, is_game_over,
    place_tile, playability, playable_indices, resolve_merger, shares_conserved, shares_held,
    size_reserve, step, sum_ints, tiles_left, touched_chains, touched_safe_chains, touches,
    value_of, well_formed, with_bonuses, with_final_bonuses, with_hand, GameModel, PhaseModel,
    PlayerModel, CASH_LIMIT, FINAL_BONUS_BOUND, MERGER_CASH_PER_TILE, SIZE_LIMIT, SIZE_PER_TILE,
};

verus! {

/// Paying bonuses changes nobody's shares.
pub proof fn lemma_bonuses_keep_holdings(players: Seq<PlayerModel>, c: int, price: int, k: int)
    ensures
        holdings(with_bonuses(players, c, price), k) == holdings(players, k),
{
    assert(holdings(with_bonuses(players, c, price), k) =~= holdings(players, k));
}

/// Paying the final bonuses changes nobody's shares.
pub proof fn lemma_final_bonuses_keep_holdings(players: Seq<PlayerModel>, sizes: Seq<usize>, n: int, k: int)
    ensures
        holdings(with_final_bonuses(players, sizes, n), k) == holdings(players, k),
    decreases n,
{
    if n > 0 {
        lemma_final_bonuses_keep_holdings(players, sizes, n - 1, k);
        let before = with_final_bonuses(players, sizes, n - 1);
        if sizes[n - 1] > 0 {
            lemma_bonuses_keep_holdings(before, n - 1, crate::board::share_price(n - 1, sizes[n - 1] as int), k);
        }
    }
}

/// Changing hands changes nobody's shares.
pub proof fn lemma_hands_keep_holdings(m: GameModel, m2: GameModel)
    requires
        m2.players.len() == m.players.len(),
        forall|p: int| 0 <= p < m.players.len() ==> (#[trigger] m2.players[p]).stocks == m.players[p].stocks,
        m2.market == m.market,
    ensures
        forall|c: int| #[trigger] shares_held(m2.players, c) == shares_held(m.players, c),
{
    assert forall|c: int| #[trigger] shares_held(m2.players, c) == shares_held(m.players, c) by {
        assert(holdings(m2.players, c) =~= holdings(m.players, c));
    }
}

/// Ending a turn keeps every chain's shares, held and in the market, as they were.
pub proof fn lemma_end_turn_conserves(m: GameModel)
    requires
        shares_conserved(m),
        0 <= m.current < m.players.len(),
    ensures
        shares_conserved(end_turn(m)),
{
    let (pile, drawn) = draw(m.grid, m.sizes, m.pile);
    let cur = m.players[m.current];
    let hand = match drawn {
        Some(t) => cur.tiles.push(t),
        None => cur.tiles,
    };
    let players = m.players.update(m.current, PlayerModel { tiles: hand, ..cur });
    let m1 = GameModel { players, ..m };
    lemma_hands_keep_holdings(m, m1);
    assert forall|c: int| 0 <= c < MAX_NUM_CHAINS implies #[trigger] shares_held(end_turn(m).players, c)
        + end_turn(m).market[c] == STOCKS_PER_CHAIN by {
        if is_game_over(m.sizes) {
            lemma_final_bonuses_keep_holdings(players, m.sizes, MAX_NUM_CHAINS as int, c);
        }
        assert(holdings(end_turn(m).players, c) == holdings(players, c));
        assert(holdings(players, c) =~= holdings(m.players, c));
        assert(shares_held(players, c) == shares_held(m.players, c));
        assert(shares_held(m.players, c) + m.market[c] == STOCKS_PER_CHAIN);
    }
}

/// Every chain's 25 shares are, after any accepted action, still either held
/// by players or in the market: trading, buying, founding, mergers and the
/// end of the game only move them.
pub proof fn lemma_step_conserves_shares(m: GameModel, a: TurnAction)
    requires
        well_formed(m),
        step(m, a) is Ok,
    ensures
        shares_conserved(step(m, a)->Ok_0),
{
    let m2 = step(m, a)->Ok_0;
    match a {
        TurnAction::PlaceTile(idx) => {
            let hand = m.players[m.current].tiles;
            let m1 = GameModel { players: with_hand(m.players, m.current, hand.remove(idx as int)), ..m };
            lemma_hands_keep_holdings(m, m1);
            let t = hand[idx as int];
            let g1 = crate::rules::set_cell(m.grid, t, crate::board::GridCell::Hotel);
            let mh = GameModel { grid: g1, ..m1 };
            assert(shares_conserved(m1));
            assert(shares_conserved(mh));
            if crate::board::neighbors_of(t, m.grid).len() == 0 {
                lemma_end_turn_conserves(mh);
            }
        },
        TurnAction::CreateChain(ci) => {
            let c = ci as int;
            let cur = m.players[m.current];
            if m.market[c] > 0 {
                crate::game::lemma_holdings_bounded(m, m.current);
                assert forall|k: int| 0 <= k < MAX_NUM_CHAINS implies #[trigger] shares_held(m2.players, k)
                    + m2.market[k] == STOCKS_PER_CHAIN by {
                    let h = holdings(m.players, k);
                    assert(shares_held(m.players, k) + m.market[k] == STOCKS_PER_CHAIN);
                    if k == c {
                        assert(holdings(m2.players, k) =~= h.update(m.current, (h[m.current] + 1) as usize));
                        lemma_sum_update(h, m.current, (h[m.current] + 1) as usize);
                    } else {
                        assert(holdings(m2.players, k) =~= h);
                    }
                }
            } else {
                lemma_hands_keep_holdings(m, m2);
            }
        },
        TurnAction::PickWinningChain(ci) => {
            lemma_hands_keep_holdings(m, m2);
        },
        TurnAction::ResolveMerger(sell, trade) => {
            lemma_resolve_conserves(m, sell, trade);
        },
        TurnAction::BuyStock(order) => {
            lemma_buy_conserves(m, order@);
        },
    }
}

/// Selling and trading during a merger only moves shares.
proof fn lemma_resolve_conserves(m: GameModel, sell: usize, trade: usize)
    requires
        well_formed(m),
        resolve_merger(m, sell, trade) is Ok,
    ensures
        shares_conserved(resolve_merger(m, sell, trade)->Ok_0),
{
    let (w, losers, sp) = match m.phase {
        PhaseModel::ResolveMerger(w, losers, sp) => (w, losers, sp),
        _ => arbitrary(),
    };
    let l = losers[0] as int;
    let seller = m.players[sp];
    let traded = trade / 2;
    crate::game::lemma_holdings_bounded(m, sp);
    let stocks1 = seller.stocks.update(l, (seller.stocks[l] - sell - trade) as usize);
    let stocks2 = stocks1.update(w, (stocks1[w] + traded) as usize);
    let market1 = m.market.update(l, (m.market[l] + sell + trade) as usize);
    let market2 = market1.update(w, (market1[w] - traded) as usize);
    let price = crate::board::share_price(l, m.sizes[l] as int);
    let players1 = m.players.update(sp, PlayerModel { cash: seller.cash + price * sell, stocks: stocks2, ..seller });
    assert forall|k: int| 0 <= k < MAX_NUM_CHAINS implies #[trigger] shares_held(players1, k)
        + market2[k] == STOCKS_PER_CHAIN by {
        let h = holdings(m.players, k);
        assert(shares_held(m.players, k) + m.market[k] == STOCKS_PER_CHAIN);
        crate::player::lemma_sum_nonneg(h);
        assert(holdings(players1, k) =~= h.update(sp, stocks2[k]));
        lemma_sum_update(h, sp, stocks2[k]);
    }
    let m2 = resolve_merger(m, sell, trade)->Ok_0;
    assert forall|k: int| #[trigger] holdings(m2.players, k) == holdings(players1, k) by {
        if sp == m.current {
            lemma_bonuses_keep_holdings(players1, l, price, k);
        }
    }
    assert forall|k: int| 0 <= k < MAX_NUM_CHAINS implies #[trigger] shares_held(m2.players, k)
        + m2.market[k] == STOCKS_PER_CHAIN by {
        assert(holdings(m2.players, k) == holdings(players1, k));
        assert(shares_held(m2.players, k) == shares_held(players1, k));
        assert(m2.market == market2);
        assert(shares_held(players1, k) + market2[k] == STOCKS_PER_CHAIN);
    }
}

/// Buying only moves shares from the market to the buyer.
proof fn lemma_buy_conserves(m: GameModel, order: Seq<usize>)
    requires
        well_formed(m),
        crate::rules::buy_stock(m, order) is Ok,
    ensures
        shares_conserved(crate::rules::buy_stock(m, order)->Ok_0),
{
    let avail = m.phase->BuyStock_0;
    let cur = m.players[m.current];
    let cost = crate::rules::order_cost(m.sizes, order, MAX_NUM_CHAINS as int);
    lemma_first_short_none(order, avail, 0);
    crate::game::lemma_holdings_bounded(m, m.current);
    let buyer = PlayerModel {
        cash: cur.cash - cost,
        stocks: Seq::new(MAX_NUM_CHAINS as nat, |i: int| (cur.stocks[i] + order[i]) as usize),
        ..cur
    };
    let mid = GameModel {
        players: m.players.update(m.current, buyer),
        market: Seq::new(MAX_NUM_CHAINS as nat, |i: int| (m.market[i] - order[i]) as usize),
        ..m
    };
    assert forall|k: int| 0 <= k < MAX_NUM_CHAINS implies #[trigger] shares_held(mid.players, k)
        + mid.market[k] == STOCKS_PER_CHAIN by {
        let h = holdings(m.players, k);
        assert(shares_held(m.players, k) + m.market[k] == STOCKS_PER_CHAIN);
        crate::player::lemma_sum_nonneg(h);
        assert(avail[k] <= m.market[k]);
        assert(holdings(mid.players, k) =~= h.update(m.current, (h[m.current] + order[k]) as usize));
        lemma_sum_update(h, m.current, (h[m.current] + order[k]) as usize);
    }
    lemma_end_turn_conserves(mid);
}

/// When no order exceeds what is buyable from `k` on, each is within it.
pub proof fn lemma_first_short_none(order: Seq<usize>, avail: Seq<usize>, k: int)
    requires
        0 <= k <= MAX_NUM_CHAINS,
        crate::rules::first_short(order, avail, k) >= MAX_NUM_CHAINS,
    ensures
        forall|j: int| k <= j < MAX_NUM_CHAINS ==> #[trigger] order[j] <= avail[j],
    decreases MAX_NUM_CHAINS - k,
{
    if k < MAX_NUM_CHAINS {
        lemma_first_short_none(order, avail, k + 1);
    }
}

/// When an action ends the game, each player's final value is their cash
/// (final bonuses included) plus their shares at the final prices.
pub proof fn lemma_game_over_values(m: GameModel, a: TurnAction)
    requires
        step(m, a) is Ok,
        step(m, a)->Ok_0.phase is GameOver,
    ensures
        ({
            let m2 = step(m, a)->Ok_0;
            let values = m2.phase->GameOver_0;
            &&& values.len() == m2.players.len()
            &&& forall|p: int|
                0 <= p < values.len() ==> #[trigger] values[p] == value_of(m2.players[p], m2.sizes)
        }),
{
}

/// A count of chains grows with its predicate.
pub proof fn lemma_count_chains_monotone(k: int, narrow: spec_fn(int) -> bool, wide: spec_fn(int) -> bool)
    requires
        forall|c: int| 0 <= c < k && #[trigger] narrow(c) ==> wide(c),
    ensures
        count_chains(k, narrow) <= count_chains(k, wide),
    decreases k,
{
    if k > 0 {
        lemma_count_chains_monotone(k - 1, narrow, wide);
    }
}

/// A tile that touches two or more safe chains can never be placed.
pub proof fn lemma_two_safe_chains_unplayable(
    g: crate::rules::GridModel,
    sizes: Seq<usize>,
    t: crate::board::Tile,
)
    requires
        touched_safe_chains(g, sizes, t) >= 2,
    ensures
        playability(g, sizes, t) == TilePlayability::PermanentlyUnplayable,
{
    let safe = |c: int| touches(g, t, c) && sizes[c] >= SAFE_CHAIN_SIZE;
    let any = |c: int| touches(g, t, c);
    lemma_count_chains_monotone(MAX_NUM_CHAINS as int, safe, any);
    if crate::board::neighbors_of(t, g).len() == 0 {
        assert forall|c: int| 0 <= c < MAX_NUM_CHAINS implies !#[trigger] safe(c) by {}
        crate::rules::lemma_count_chains_zero(MAX_NUM_CHAINS as int, safe);
    }
}

/// Each index that `playable_indices` lists points at a playable tile.
pub proof fn lemma_playable_indices(
    g: crate::rules::GridModel,
    sizes: Seq<usize>,
    hand: Seq<crate::board::Tile>,
    k: int,
)
    requires
        0 <= k <= hand.len(),
        hand.len() <= usize::MAX,
    ensures
        forall|j: int|
            0 <= j < playable_indices(g, sizes, hand, k).len() ==> {
                let i = #[trigger] playable_indices(g, sizes, hand, k)[j] as int;
                &&& 0 <= i < k
                &&& playability(g, sizes, hand[i]) == TilePlayability::Playable
            },
    decreases k,
{
    if k > 0 {
        lemma_playable_indices(g, sizes, hand, k - 1);
        let prev = playable_indices(g, sizes, hand, k - 1);
        let cur = playable_indices(g, sizes, hand, k);
        assert forall|j: int| 0 <= j < cur.len() implies {
            let i = #[trigger] cur[j] as int;
            &&& 0 <= i < k
            &&& playability(g, sizes, hand[i]) == TilePlayability::Playable
        } by {
            if j < prev.len() {
                assert(cur[j] == prev[j]);
            }
        }
    }
}

/// Whenever an action leads to tile placement, every tile offered is
/// playable; in particular no tile that touches two safe chains is offered.
pub proof fn lemma_offered_tiles_playable(m: GameModel, a: TurnAction)
    requires
        well_formed(m),
        step(m, a) is Ok,
        step(m, a)->Ok_0.phase is PlaceTile,
        step(m, a)->Ok_0.players[step(m, a)->Ok_0.current].tiles.len() <= usize::MAX,
    ensures
        ({
            let m2 = step(m, a)->Ok_0;
            let offered = m2.phase->PlaceTile_0;
            forall|j: int|
                0 <= j < offered.len() ==> {
                    let t = m2.players[m2.current].tiles[#[trigger] offered[j] as int];
                    &&& offered[j] < m2.players[m2.current].tiles.len()
                    &&& playability(m2.grid, m2.sizes, t) == TilePlayability::Playable
                    &&& touched_safe_chains(m2.grid, m2.sizes, t) < 2
                }
        }),
{
    let m2 = step(m, a)->Ok_0;
    let hand = m2.players[m2.current].tiles;
    lemma_playable_indices(m2.grid, m2.sizes, hand, hand.len() as int);
    let offered = m2.phase->PlaceTile_0;
    assert(offered == playable_indices(m2.grid, m2.sizes, hand, hand.len() as int));
    assert forall|j: int| 0 <= j < offered.len() implies touched_safe_chains(
        m2.grid,
        m2.sizes,
        hand[#[trigger] offered[j] as int],
    ) < 2 by {
        if touched_safe_chains(m2.grid, m2.sizes, hand[offered[j] as int]) >= 2 {
            lemma_two_safe_chains_unplayable(m2.grid, m2.sizes, hand[offered[j] as int]);
        }
    }
}

// ----- Preservation of well-formedness -----

/// The hand sizes of the players.
pub open spec fn hand_sizes(players: Seq<PlayerModel>) -> Seq<int> {
    Seq::new(players.len(), |p: int| players[p].tiles.len() as int)
}

/// Replacing one entry changes the sum by the difference.
pub proof fn lemma_sum_ints_update(s: Seq<int>, i: int, v: int)
    requires
        0 <= i < s.len(),
    ensures
        sum_ints(s.update(i, v)) == sum_ints(s) - s[i] + v,
    decreases s.len(),
{
    if i < s.len() - 1 {
        lemma_sum_ints_update(s.drop_last(), i, v);
        assert(s.update(i, v).drop_last() == s.drop_last().update(i, v));
    } else {
        assert(s.update(i, v).drop_last() == s.drop_last());
    }
}

/// Each entry of a sequence of non-negative integers is at most its sum.
pub proof fn lemma_sum_ints_entry(s: Seq<int>, i: int)
    requires
        0 <= i < s.len(),
        forall|j: int| 0 <= j < s.len() ==> s[j] >= 0,
    ensures
        s[i] <= sum_ints(s),
    decreases s.len(),
{
    crate::rules::lemma_sum_ints_nonneg(s.drop_last());
    if i < s.len() - 1 {
        lemma_sum_ints_entry(s.drop_last(), i);
    }
}

/// Giving player `p` a hand of `h` tiles changes the tiles left by the difference.
pub proof fn lemma_tiles_left_with_hand(m: GameModel, p: int, hand: Seq<crate::board::Tile>)
    requires
        0 <= p < m.players.len(),
    ensures
        tiles_left(GameModel { players: m.players.update(p, PlayerModel { tiles: hand, ..m.players[p] }), ..m })
            == tiles_left(m) - m.players[p].tiles.len() + hand.len(),
{
    let m2 = GameModel { players: m.players.update(p, PlayerModel { tiles: hand, ..m.players[p] }), ..m };
    assert(hand_sizes(m2.players) =~= hand_sizes(m.players).update(p, hand.len() as int));
    lemma_sum_ints_update(hand_sizes(m.players), p, hand.len() as int);
    assert(tiles_left(m) == sum_ints(hand_sizes(m.players)) + m.pile.len());
    assert(tiles_left(m2) == sum_ints(hand_sizes(m2.players)) + m2.pile.len());
}

/// Each hand holds no more than the tiles left, and the tiles left are few.
pub proof fn lemma_hand_bounded(m: GameModel, p: int)
    requires
        0 <= p < m.players.len(),
    ensures
        m.players[p].tiles.len() <= tiles_left(m),
{
    lemma_sum_ints_entry(hand_sizes(m.players), p);
    assert(tiles_left(m) == sum_ints(hand_sizes(m.players)) + m.pile.len());
}

/// Drawing leaves a prefix of the pile, and takes a tile from it if any.
pub proof fn lemma_draw(g: crate::rules::GridModel, sizes: Seq<usize>, pile: Seq<crate::board::Tile>)
    ensures
        ({
            let (rest, drawn) = draw(g, sizes, pile);
            &&& rest.len() + (if drawn is Some { 1int } else { 0 }) <= pile.len()
            &&& rest == pile.take(rest.len() as int)
            &&& (drawn matches Some(t) ==> pile.contains(t))
            &&& (drawn matches Some(t) ==> rest.len() < pile.len() && t == pile[rest.len() as int])
        }),
    decreases pile.len(),
{
    if pile.len() > 0 {
        if playability(g, sizes, pile.last()) == TilePlayability::PermanentlyUnplayable {
            lemma_draw(g, sizes, pile.drop_last());
            let (rest, drawn) = draw(g, sizes, pile.drop_last());
            assert(pile.drop_last().take(rest.len() as int) == pile.take(rest.len() as int));
            if drawn is Some {
                let t = drawn->Some_0;
                let j = choose|j: int| 0 <= j < pile.drop_last().len() && pile.drop_last()[j] == t;
                assert(pile[j] == t);
            }
        } else {
            assert(pile[pile.len() - 1] == pile.last());
        }
    } else {
        assert(pile.take(0) == pile);
    }
}

/// Paying final bonuses adds at most 20000 per chain to anyone's cash.
pub proof fn lemma_final_bonuses_bounded(players: Seq<PlayerModel>, sizes: Seq<usize>, k: int, p: int)
    requires
        0 <= p < players.len(),
        0 <= k <= MAX_NUM_CHAINS,
        sizes.len() == MAX_NUM_CHAINS,
    ensures
        with_final_bonuses(players, sizes, k).len() == players.len(),
        players[p].cash <= with_final_bonuses(players, sizes, k)[p].cash <= players[p].cash + 20000 * k,
        with_final_bonuses(players, sizes, k)[p].tiles == players[p].tiles,
        with_final_bonuses(players, sizes, k)[p].stocks == players[p].stocks,
    decreases k,
{
    if k > 0 {
        lemma_final_bonuses_bounded(players, sizes, k - 1, p);
        let before = with_final_bonuses(players, sizes, k - 1);
        if sizes[k - 1] > 0 {
            let price = crate::board::share_price(k - 1, sizes[k - 1] as int);
            crate::player::lemma_bonus_bounded(holdings(before, k - 1), price, p);
        }
    }
}

/// What ending a turn needs to leave a well-formed state: room for every
/// tile still to come and for the final bonuses.
pub open spec fn end_turn_ready(m: GameModel) -> bool {
    &&& crate::rules::turn_can_end(m)
    &&& forall|p: int|
        0 <= p < m.players.len() ==> #[trigger] m.players[p].cash + MERGER_CASH_PER_TILE * tiles_left(m)
            + FINAL_BONUS_BOUND <= CASH_LIMIT
    &&& forall|c: int|
        0 <= c < MAX_NUM_CHAINS ==> #[trigger] m.sizes[c] + SIZE_PER_TILE * tiles_left(m) <= SIZE_LIMIT
}

/// Ending a turn from a ready state leaves a well-formed state.
pub proof fn lemma_end_turn_wf(m: GameModel)
    requires
        end_turn_ready(m),
    ensures
        well_formed(end_turn(m)),
{
    let (pile, drawn) = draw(m.grid, m.sizes, m.pile);
    lemma_draw(m.grid, m.sizes, m.pile);
    let cur = m.players[m.current];
    let hand = match drawn {
        Some(t) => cur.tiles.push(t),
        None => cur.tiles,
    };
    let players = m.players.update(m.current, PlayerModel { tiles: hand, ..cur });
    let m1 = GameModel { players, pile, ..m };
    let e = end_turn(m);
    lemma_tiles_left_with_hand(GameModel { pile, ..m }, m.current, hand);
    assert(tiles_left(m1) <= tiles_left(m));
    crate::rules::lemma_sum_ints_nonneg(hand_sizes(m1.players));
    lemma_end_turn_conserves(m);
    assert forall|p: int, k: int|
        0 <= p < m1.players.len() && 0 <= k < m1.players[p].tiles.len() implies (
    #[trigger] m1.players[p].tiles[k]).in_grid() by {
        if p != m.current {
            assert(m1.players[p] == m.players[p]);
        } else if k < cur.tiles.len() {
            assert(hand[k] == cur.tiles[k]);
        } else {
            let t = drawn->Some_0;
            let j = choose|j: int| 0 <= j < m.pile.len() && m.pile[j] == t;
            assert(m.pile[j].in_grid());
        }
    }
    assert forall|k: int| 0 <= k < m1.pile.len() implies (#[trigger] m1.pile[k]).in_grid() by {
        assert(m1.pile[k] == m.pile[k]);
    }
    // Every hand is small.
    assert(m.players[0].cash >= 0);
    assert(MERGER_CASH_PER_TILE * tiles_left(m) <= CASH_LIMIT);
    if is_game_over(m.sizes) {
        let paid = with_final_bonuses(players, m.sizes, MAX_NUM_CHAINS as int);
        lemma_final_bonuses_bounded(players, m.sizes, MAX_NUM_CHAINS as int, 0);

        assert forall|p: int| 0 <= p < e.players.len() implies (#[trigger] e.players[p]).stocks.len()
            == MAX_NUM_CHAINS by {
            lemma_final_bonuses_bounded(players, m.sizes, MAX_NUM_CHAINS as int, p);
        }
        assert forall|p: int, k: int|
            0 <= p < e.players.len() && 0 <= k < e.players[p].tiles.len() implies (
        #[trigger] e.players[p].tiles[k]).in_grid() by {
            lemma_final_bonuses_bounded(players, m.sizes, MAX_NUM_CHAINS as int, p);
            assert(e.players[p].tiles[k] == m1.players[p].tiles[k]);
        }
        assert(hand_sizes(e.players) =~= hand_sizes(m1.players)) by {
            assert forall|p: int| 0 <= p < e.players.len() implies #[trigger] hand_sizes(e.players)[p]
                == hand_sizes(m1.players)[p] by {
                lemma_final_bonuses_bounded(players, m.sizes, MAX_NUM_CHAINS as int, p);
            }
            lemma_final_bonuses_bounded(players, m.sizes, MAX_NUM_CHAINS as int, 0);
        }
        assert(tiles_left(e) == tiles_left(m1));
        assert forall|p: int| 0 <= p < e.players.len() implies 0 <= #[trigger] e.players[p].cash
            && e.players[p].cash + cash_reserve(e, p) <= CASH_LIMIT by {
            lemma_final_bonuses_bounded(players, m.sizes, MAX_NUM_CHAINS as int, p);
            assert(players[p].cash == m.players[p].cash);
            assert(m.players[p].cash + MERGER_CASH_PER_TILE * tiles_left(m) + FINAL_BONUS_BOUND <= CASH_LIMIT);
            assert(cash_reserve(e, p) == MERGER_CASH_PER_TILE * tiles_left(e));
        }
    } else {
        let next = crate::rules::next_seat(m.current, m.players.len() as int);
        let next_hand = players[next].tiles;
        lemma_hand_bounded(m1, next);
        lemma_playable_indices(m.grid, m.sizes, next_hand, next_hand.len() as int);
        assert(tiles_left(e) == tiles_left(m1));
        assert forall|p: int| 0 <= p < e.players.len() implies 0 <= #[trigger] e.players[p].cash
            && e.players[p].cash + cash_reserve(e, p) <= CASH_LIMIT by {
            assert(e.players[p].cash == m.players[p].cash);
        }
    }
}

/// Setting one cell on the grid keeps its shape.
pub proof fn lemma_set_cell_shape(g: crate::rules::GridModel, t: crate::board::Tile, x: crate::board::GridCell)
    requires
        g.len() == crate::board::GRID_HEIGHT,
        forall|r: int| 0 <= r < crate::board::GRID_HEIGHT ==> (#[trigger] g[r]).len() == crate::board::GRID_WIDTH,
        t.in_grid(),
    ensures
        crate::rules::set_cell(g, t, x).len() == crate::board::GRID_HEIGHT,
        forall|r: int|
            0 <= r < crate::board::GRID_HEIGHT ==> (#[trigger] crate::rules::set_cell(g, t, x)[r]).len()
                == crate::board::GRID_WIDTH,
{
}

/// Painting on-grid entries keeps the grid's shape.
pub proof fn lemma_paint_shape(
    g: crate::rules::GridModel,
    nb: Seq<(crate::board::Tile, crate::board::GridCell)>,
    x: crate::board::GridCell,
    pred: spec_fn(crate::board::GridCell) -> bool,
)
    requires
        g.len() == crate::board::GRID_HEIGHT,
        forall|r: int| 0 <= r < crate::board::GRID_HEIGHT ==> (#[trigger] g[r]).len() == crate::board::GRID_WIDTH,
        forall|k: int| 0 <= k < nb.len() ==> (#[trigger] nb[k]).0.in_grid(),
    ensures
        crate::rules::paint_entries(g, nb, x, pred).len() == crate::board::GRID_HEIGHT,
        forall|r: int|
            0 <= r < crate::board::GRID_HEIGHT ==> (#[trigger] crate::rules::paint_entries(g, nb, x, pred)[r]).len()
                == crate::board::GRID_WIDTH,
    decreases nb.len(),
{
    if nb.len() > 0 {
        lemma_paint_shape(g, nb.drop_last(), x, pred);
        let g1 = crate::rules::paint_entries(g, nb.drop_last(), x, pred);
        lemma_set_cell_shape(g1, nb.last().0, x);
    }
}

/// The free slots are chain slots of size zero, and there is one when some
/// slot is free.
pub proof fn lemma_free_slots(sizes: Seq<usize>, k: int)
    requires
        0 <= k <= MAX_NUM_CHAINS,
    ensures
        all_chains(crate::rules::free_slots(sizes, k)),
        forall|j: int|
            0 <= j < crate::rules::free_slots(sizes, k).len() ==> sizes[#[trigger] crate::rules::free_slots(
                sizes,
                k,
            )[j] as int] == 0,
        (exists|c: int| 0 <= c < k && #[trigger] sizes[c] == 0) ==> crate::rules::free_slots(sizes, k).len() > 0,
    decreases k,
{
    if k > 0 {
        lemma_free_slots(sizes, k - 1);
        let prev = crate::rules::free_slots(sizes, k - 1);
        let cur = crate::rules::free_slots(sizes, k);
        assert forall|j: int| 0 <= j < cur.len() implies #[trigger] cur[j] < MAX_NUM_CHAINS && sizes[cur[j] as int] == 0 by {
            if j < prev.len() {
                assert(cur[j] == prev[j]);
            }
        }
        if exists|c: int| 0 <= c < k && #[trigger] sizes[c] == 0 {
            if sizes[k - 1] != 0 {
                let c = choose|c: int| 0 <= c < k && #[trigger] sizes[c] == 0;
                assert(c < k - 1);
            }
        }
    }
}

/// The chains with the size of the first entry include the first entry.
pub proof fn lemma_of_size_nonempty(s: Seq<usize>, sizes: Seq<usize>, v: usize)
    requires
        s.len() > 0,
        sizes[s[0] as int] == v,
    ensures
        crate::rules::of_size(s, sizes, v).len() > 0,
    decreases s.len(),
{
    if s.len() > 1 {
        lemma_of_size_nonempty(s.drop_last(), sizes, v);
    }
}

/// The chains of a given size are among the chains listed.
pub proof fn lemma_of_size(s: Seq<usize>, sizes: Seq<usize>, v: usize)
    ensures
        forall|j: int|
            0 <= j < crate::rules::of_size(s, sizes, v).len() ==> s.contains(
                #[trigger] crate::rules::of_size(s, sizes, v)[j],
            ),
    decreases s.len(),
{
    if s.len() > 0 {
        lemma_of_size(s.drop_last(), sizes, v);
        let prev = crate::rules::of_size(s.drop_last(), sizes, v);
        let cur = crate::rules::of_size(s, sizes, v);
        assert forall|j: int| 0 <= j < cur.len() implies s.contains(#[trigger] cur[j]) by {
            if j < prev.len() {
                assert(cur[j] == prev[j]);
                let i = choose|i: int| 0 <= i < s.drop_last().len() && s.drop_last()[i] == prev[j];
                assert(s[i] == prev[j]);
            } else {
                assert(s[s.len() - 1] == cur[j]);
            }
        }
    }
}

/// Removing an entry that occurs once shortens a list by one and keeps the rest.
pub proof fn lemma_without(s: Seq<usize>, x: usize)
    requires
        s.no_duplicates(),
    ensures
        crate::rules::without(s, x).len() == if s.contains(x) {
            s.len() - 1
        } else {
            s.len() as int
        },
        forall|j: int|
            0 <= j < crate::rules::without(s, x).len() ==> s.contains(
                #[trigger] crate::rules::without(s, x)[j],
            ),
    decreases s.len(),
{
    if s.len() > 0 {
        let d = s.drop_last();
        assert(d.no_duplicates());
        lemma_without(d, x);
        let prev = crate::rules::without(d, x);
        let cur = crate::rules::without(s, x);
        if s.last() == x {
            assert(!d.contains(x));
        } else {
            assert(s.contains(x) == d.contains(x)) by {
                if s.contains(x) {
                    let i = choose|i: int| 0 <= i < s.len() && s[i] == x;
                    assert(d[i] == x);
                }
            }
        }
        assert forall|j: int| 0 <= j < cur.len() implies s.contains(#[trigger] cur[j]) by {
            if j < prev.len() {
                assert(cur[j] == prev[j]);
                let i = choose|i: int| 0 <= i < d.len() && d[i] == prev[j];
                assert(s[i] == prev[j]);
            } else {
                assert(s[s.len() - 1] == cur[j]);
            }
        }
    }
}

/// Counting chains by two predicates that agree gives the same count.
pub proof fn lemma_count_chains_ext(k: int, pred_a: spec_fn(int) -> bool, pred_b: spec_fn(int) -> bool)
    requires
        forall|c: int| 0 <= c < k ==> #[trigger] pred_a(c) == pred_b(c),
    ensures
        count_chains(k, pred_a) == count_chains(k, pred_b),
    decreases k,
{
    if k > 0 {
        lemma_count_chains_ext(k - 1, pred_a, pred_b);
    }
}

/// At most `k` of the chains `0..k` are counted.
pub proof fn lemma_count_chains_le(k: int, pred: spec_fn(int) -> bool)
    requires
        k >= 0,
    ensures
        count_chains(k, pred) <= k,
    decreases k,
{
    if k > 0 {
        lemma_count_chains_le(k - 1, pred);
    }
}

/// Clearing one set flag lowers the count of set flags by one.
pub proof fn lemma_count_clear(f: Seq<bool>, b: int, k: int)
    requires
        0 <= k <= f.len(),
        0 <= b < f.len(),
    ensures
        count_chains(k, |c: int| f.update(b, false)[c]) == count_chains(k, |c: int| f[c]) - if b < k
            && f[b] {
            1int
        } else {
            0
        },
    decreases k,
{
    if k > 0 {
        lemma_count_clear(f, b, k - 1);
    }
}

/// Ordering by size keeps every flagged chain, as fuel allows.
pub proof fn lemma_by_size_len(flags: Seq<bool>, sizes: Seq<usize>, fuel: nat)
    requires
        flags.len() == MAX_NUM_CHAINS,
    ensures
        crate::rules::by_size(flags, sizes, fuel).len() == if fuel < count_chains(
            MAX_NUM_CHAINS as int,
            |c: int| flags[c],
        ) {
            fuel as int
        } else {
            count_chains(MAX_NUM_CHAINS as int, |c: int| flags[c]) as int
        },
    decreases fuel,
{
    crate::rules::lemma_largest_flagged(flags, sizes, MAX_NUM_CHAINS as int);
    let b = crate::rules::largest_flagged(flags, sizes, MAX_NUM_CHAINS as int);
    if b < 0 {
        crate::rules::lemma_count_chains_zero(MAX_NUM_CHAINS as int, |c: int| flags[c]);
    } else if fuel > 0 {
        lemma_by_size_len(flags.update(b, false), sizes, (fuel - 1) as nat);
        lemma_count_clear(flags, b, MAX_NUM_CHAINS as int);
    }
}

/// Placing a tile from a well-formed state leaves a well-formed state.
pub proof fn lemma_place_wf(m: GameModel, idx: usize)
    requires
        well_formed(m),
        place_tile(m, idx) is Ok,
    ensures
        well_formed(place_tile(m, idx)->Ok_0),
{
    let m2 = place_tile(m, idx)->Ok_0;
    lemma_step_conserves_shares(m, TurnAction::PlaceTile(idx));
    let cur = m.current;
    let hand = m.players[cur].tiles;
    let t = hand[idx as int];
    let rest = hand.remove(idx as int);
    let m1 = GameModel { players: with_hand(m.players, cur, rest), ..m };
    lemma_tiles_left_with_hand(m, cur, rest);
    assert(tiles_left(m1) == tiles_left(m) - 1);
    crate::rules::lemma_reserve_nonneg(m, 0);
    crate::rules::lemma_sum_ints_nonneg(hand_sizes(m1.players));
    assert(tiles_left(m1) >= 0);
    let nb = crate::board::neighbors_of(t, m.grid);
    crate::board::lemma_neighbors_facts(t, m.grid);
    assert(t.in_grid());
    assert forall|p: int, k: int|
        0 <= p < m1.players.len() && 0 <= k < m1.players[p].tiles.len() implies (
    #[trigger] m1.players[p].tiles[k]).in_grid() by {
        if p == cur {
            if k < idx {
                assert(m1.players[p].tiles[k] == hand[k]);
            } else {
                assert(m1.players[p].tiles[k] == hand[k + 1]);
            }
        } else {
            assert(m1.players[p] == m.players[p]);
        }
    }
    assert forall|p: int| 0 <= p < m1.players.len() implies (#[trigger] m1.players[p]).stocks.len()
        == MAX_NUM_CHAINS by {
        if p != cur {
            assert(m1.players[p] == m.players[p]);
        }
    }
    assert forall|p: int| 0 <= p < m1.players.len() implies #[trigger] m1.players[p].cash
        == m.players[p].cash by {
        if p != cur {
            assert(m1.players[p] == m.players[p]);
        }
    }
    assert forall|p: int| 0 <= p < m.players.len() implies #[trigger] m.players[p].cash
        + MERGER_CASH_PER_TILE * tiles_left(m) + FINAL_BONUS_BOUND <= CASH_LIMIT by {
        assert(m.players[p].cash + cash_reserve(m, p) <= CASH_LIMIT);
    }
    if nb.len() == 0 {
        let mh = GameModel { grid: crate::rules::set_cell(m.grid, t, crate::board::GridCell::Hotel), ..m1 };
        lemma_set_cell_shape(m.grid, t, crate::board::GridCell::Hotel);
        let avail = crate::rules::buyable_list(mh);
        if exists|i: int| 0 <= i < MAX_NUM_CHAINS && #[trigger] avail[i] > 0 {
            assert(tiles_left(m2) == tiles_left(m1));
        } else {
            crate::game::lemma_place_keeps_turn_can_end(m, mh, cur, idx as int);
            assert(tiles_left(mh) == tiles_left(m1));
            lemma_end_turn_wf(mh);
        }
    } else if touched_chains(m.grid, t) == 0 {
        lemma_free_slots(m.sizes, MAX_NUM_CHAINS as int);
        let valid = m.phase->PlaceTile_0;
        let i = choose|i: int| 0 <= i < valid.len() && valid[i] == idx;
        assert(playability(m.grid, m.sizes, hand[valid[i] as int]) == TilePlayability::Playable);
        assert(crate::rules::has_free_slot(m.sizes));
        assert(tiles_left(m2) == tiles_left(m1));
    } else {
        let flags = crate::rules::touched_flags(m.grid, t);
        let merging = crate::rules::merging_chains(m.grid, m.sizes, t);
        crate::rules::lemma_by_size_chains(flags, m.sizes, MAX_NUM_CHAINS as nat);
        lemma_by_size_len(flags, m.sizes, MAX_NUM_CHAINS as nat);
        lemma_count_chains_ext(MAX_NUM_CHAINS as int, |c: int| flags[c], |c: int| touches(m.grid, t, c));
        lemma_count_chains_le(MAX_NUM_CHAINS as int, |c: int| flags[c]);
        assert(merging.len() == touched_chains(m.grid, t));
        assert(tiles_left(m2) == tiles_left(m1));
        if touched_chains(m.grid, t) == 1 {
            let c = merging[0] as int;
            let cell = crate::board::chain_cell(c);
            lemma_set_cell_shape(m.grid, t, cell);
            lemma_paint_shape(crate::rules::set_cell(m.grid, t, cell), nb, cell, |x: crate::board::GridCell| true);
            assert forall|k: int| 0 <= k < MAX_NUM_CHAINS implies #[trigger] m2.sizes[k]
                + size_reserve(m2) <= SIZE_LIMIT by {
                assert(m.sizes[k] + size_reserve(m) <= SIZE_LIMIT);
            }
        } else {
            lemma_set_cell_shape(m.grid, t, crate::board::GridCell::Dummy);
            lemma_paint_shape(
                crate::rules::set_cell(m.grid, t, crate::board::GridCell::Dummy),
                nb,
                crate::board::GridCell::Dummy,
                |x: crate::board::GridCell| x == crate::board::GridCell::Hotel,
            );
            lemma_of_size(merging, m.sizes, m.sizes[merging[0] as int]);
            lemma_of_size_nonempty(merging, m.sizes, m.sizes[merging[0] as int]);
            assert forall|k: int| 0 <= k < MAX_NUM_CHAINS implies #[trigger] m2.sizes[k]
                + size_reserve(m2) <= SIZE_LIMIT by {
                assert(m.sizes[k] + size_reserve(m) <= SIZE_LIMIT);
            }
        }
    }
}

/// Founding a chain from a well-formed state leaves a well-formed state.
pub proof fn lemma_create_wf(m: GameModel, chain: usize)
    requires
        well_formed(m),
        create_chain(m, chain) is Ok,
    ensures
        well_formed(create_chain(m, chain)->Ok_0),
{
    let m2 = create_chain(m, chain)->Ok_0;
    lemma_step_conserves_shares(m, TurnAction::CreateChain(chain));
    let t = m.phase->CreateChain_0;
    let ci = chain as int;
    let nb = crate::board::neighbors_of(t, m.grid);
    crate::board::lemma_neighbors_facts(t, m.grid);
    let cell = crate::board::chain_cell(ci);
    lemma_set_cell_shape(m.grid, t, cell);
    lemma_paint_shape(crate::rules::set_cell(m.grid, t, cell), nb, cell, |x: crate::board::GridCell| true);
    crate::rules::lemma_reserve_nonneg(m, 0);
    assert(hand_sizes(m2.players) =~= hand_sizes(m.players));
    assert(tiles_left(m2) == tiles_left(m));
    assert forall|p: int| 0 <= p < m2.players.len() implies #[trigger] m2.players[p].cash
        == m.players[p].cash && m2.players[p].tiles == m.players[p].tiles && m2.players[p].stocks.len()
        == MAX_NUM_CHAINS by {}
    assert forall|p: int| 0 <= p < m2.players.len() implies 0 <= #[trigger] m2.players[p].cash
        && m2.players[p].cash + cash_reserve(m2, p) <= CASH_LIMIT by {
        assert(m.players[p].cash + cash_reserve(m, p) <= CASH_LIMIT);
    }
    assert forall|k: int| 0 <= k < MAX_NUM_CHAINS implies #[trigger] m2.sizes[k] + size_reserve(m2)
        <= SIZE_LIMIT by {
        assert(m.sizes[k] + size_reserve(m) <= SIZE_LIMIT);
    }
    assert forall|p: int, k: int|
        0 <= p < m2.players.len() && 0 <= k < m2.players[p].tiles.len() implies (
    #[trigger] m2.players[p].tiles[k]).in_grid() by {
        assert(m2.players[p].tiles == m.players[p].tiles);
    }
}

/// How many cells of the first `k` of a row satisfy a predicate: at most `k`.
pub proof fn lemma_count_row_le(row: Seq<crate::board::GridCell>, k: int, pred: spec_fn(crate::board::GridCell) -> bool)
    requires
        k >= 0,
    ensures
        crate::rules::count_row(row, k, pred) <= k,
    decreases k,
{
    if k > 0 {
        lemma_count_row_le(row, k - 1, pred);
    }
}

/// At most twelve cells per row satisfy a predicate.
pub proof fn lemma_count_cells_le(g: crate::rules::GridModel, k: int, pred: spec_fn(crate::board::GridCell) -> bool)
    requires
        k >= 0,
    ensures
        crate::rules::count_cells(g, k, pred) <= k * crate::board::GRID_WIDTH,
    decreases k,
{
    if k > 0 {
        lemma_count_cells_le(g, k - 1, pred);
        lemma_count_row_le(g[k - 1], crate::board::GRID_WIDTH as int, pred);
    }
}

/// Picking the winner of a merger from a well-formed state leaves a well-formed state.
pub proof fn lemma_pick_wf(m: GameModel, chain: usize)
    requires
        well_formed(m),
        crate::rules::pick_winning_chain(m, chain) is Ok,
    ensures
        well_formed(crate::rules::pick_winning_chain(m, chain)->Ok_0),
{
    let m2 = crate::rules::pick_winning_chain(m, chain)->Ok_0;
    lemma_step_conserves_shares(m, TurnAction::PickWinningChain(chain));
    let (valid, merging) = (m.phase->PickWinningChain_0, m.phase->PickWinningChain_1);
    let losers = crate::rules::without(merging, chain);
    lemma_without(merging, chain);
    crate::chain_cells::lemma_without_excludes(merging, chain);
    let k = choose|k: int| 0 <= k < valid.len() && valid[k] == chain;
    assert(merging.contains(valid[k]));
    let pred = |x: crate::board::GridCell| crate::rules::joins_winner(x, losers);
    lemma_count_cells_le(m.grid, crate::board::GRID_HEIGHT as int, pred);
    crate::rules::lemma_reserve_nonneg(m, 0);
    assert forall|j: int| 0 <= j < losers.len() implies #[trigger] losers[j] < MAX_NUM_CHAINS by {
        let i = choose|i: int| 0 <= i < merging.len() && merging[i] == losers[j];
    }
    assert forall|p: int| 0 <= p < m.players.len() implies 0 <= #[trigger] m2.players[p].cash
        && m2.players[p].cash + cash_reserve(m2, p) <= CASH_LIMIT by {
        assert(m.players[p].cash + cash_reserve(m, p) <= CASH_LIMIT);
        assert(crate::rules::sale_pending(m2, p));
    }
    assert forall|c: int| 0 <= c < MAX_NUM_CHAINS implies #[trigger] m2.sizes[c] + size_reserve(m2)
        <= SIZE_LIMIT by {
        assert(m.sizes[c] + size_reserve(m) <= SIZE_LIMIT);
    }
    assert(m2.grid.len() == crate::board::GRID_HEIGHT);
}

/// Buying from a well-formed state leaves a well-formed state.
pub proof fn lemma_buy_wf(m: GameModel, order: Seq<usize>)
    requires
        well_formed(m),
        order.len() == MAX_NUM_CHAINS,
        crate::rules::buy_stock(m, order) is Ok,
    ensures
        well_formed(crate::rules::buy_stock(m, order)->Ok_0),
{
    let avail = m.phase->BuyStock_0;
    let cur = m.players[m.current];
    let cost = crate::rules::order_cost(m.sizes, order, MAX_NUM_CHAINS as int);
    lemma_first_short_none(order, avail, 0);
    let buyer = PlayerModel {
        cash: cur.cash - cost,
        stocks: Seq::new(MAX_NUM_CHAINS as nat, |i: int| (cur.stocks[i] + order[i]) as usize),
        ..cur
    };
    let mid = GameModel {
        players: m.players.update(m.current, buyer),
        market: Seq::new(MAX_NUM_CHAINS as nat, |i: int| (m.market[i] - order[i]) as usize),
        ..m
    };
    assert forall|j: int| 0 <= j < MAX_NUM_CHAINS implies #[trigger] order[j] <= m.market[j] by {
        assert(avail[j] <= m.market[j]);
    }
    lemma_order_cost_nonneg(m.sizes, order, MAX_NUM_CHAINS as int);
    crate::game::lemma_buy_keeps_turn_can_end(m, mid, order);
    crate::rules::lemma_reserve_nonneg(m, 0);
    assert(hand_sizes(mid.players) =~= hand_sizes(m.players));
    assert(tiles_left(mid) == tiles_left(m));
    assert forall|p: int| 0 <= p < mid.players.len() implies #[trigger] mid.players[p].cash
        + MERGER_CASH_PER_TILE * tiles_left(mid) + FINAL_BONUS_BOUND <= CASH_LIMIT by {
        assert(m.players[p].cash + cash_reserve(m, p) <= CASH_LIMIT);
    }
    assert forall|c: int| 0 <= c < MAX_NUM_CHAINS implies #[trigger] mid.sizes[c] + SIZE_PER_TILE
        * tiles_left(mid) <= SIZE_LIMIT by {
        assert(m.sizes[c] + size_reserve(m) <= SIZE_LIMIT);
    }
    lemma_end_turn_wf(mid);
}

/// The cost of an order is never negative.
pub proof fn lemma_order_cost_nonneg(sizes: Seq<usize>, order: Seq<usize>, k: int)
    ensures
        crate::rules::order_cost(sizes, order, k) >= 0,
    decreases k,
{
    if k > 0 {
        lemma_order_cost_nonneg(sizes, order, k - 1);
        let price = crate::board::share_price(k - 1, sizes[k - 1] as int);
        assert(price >= 0);
        assert(price * order[k - 1] >= 0) by (nonlinear_arith)
            requires
                price >= 0,
                order[k - 1] >= 0,
        ;
    }
}

/// Seat offsets from the merging player: the next seat is one further on,
/// unless the round is complete.
pub proof fn lemma_seat_offsets(cur: int, sp: int, n: int)
    requires
        0 <= cur < n,
        0 <= sp < n,
    ensures
        0 <= crate::rules::seat_offset(sp, cur, n) < n,
        crate::rules::next_seat(sp, n) != cur ==> crate::rules::seat_offset(
            crate::rules::next_seat(sp, n),
            cur,
            n,
        ) == crate::rules::seat_offset(sp, cur, n) + 1,
        0 <= crate::rules::next_seat(sp, n) < n,
{
}

/// A merger step from a well-formed state leaves a well-formed state.
pub proof fn lemma_resolve_wf(m: GameModel, sell: usize, trade: usize)
    requires
        well_formed(m),
        resolve_merger(m, sell, trade) is Ok,
    ensures
        well_formed(resolve_merger(m, sell, trade)->Ok_0),
{
    let r = resolve_merger(m, sell, trade)->Ok_0;
    lemma_step_conserves_shares(m, TurnAction::ResolveMerger(sell, trade));
    let (w, losers, sp) = (m.phase->ResolveMerger_0, m.phase->ResolveMerger_1, m.phase->ResolveMerger_2);
    let n = m.players.len() as int;
    let cur = m.current;
    let l = losers[0] as int;
    let price = crate::board::share_price(l, m.sizes[l] as int);
    let seller = m.players[sp];
    let traded = trade / 2;
    crate::game::lemma_holdings_bounded(m, sp);
    assert(price <= crate::board::MAX_SHARE_PRICE && price >= 0);
    assert(price * sell <= 30000 && price * sell >= 0) by (nonlinear_arith)
        requires
            price <= crate::board::MAX_SHARE_PRICE,
            price >= 0,
            sell <= STOCKS_PER_CHAIN,
    ;
    let stocks1 = seller.stocks.update(l, (seller.stocks[l] - sell - trade) as usize);
    let stocks2 = stocks1.update(w, (stocks1[w] + traded) as usize);
    let players1 = m.players.update(sp, PlayerModel { cash: seller.cash + price * sell, stocks: stocks2, ..seller });
    let next = crate::rules::next_seat(sp, n);
    lemma_seat_offsets(cur, sp, n);
    crate::rules::lemma_reserve_nonneg(m, 0);
    // Each player's cash grows by at most the sale and the bonus.
    assert forall|p: int| 0 <= p < n implies {
        &&& #[trigger] r.players[p].tiles == m.players[p].tiles
        &&& r.players[p].stocks.len() == MAX_NUM_CHAINS
        &&& m.players[p].cash <= r.players[p].cash
        &&& r.players[p].cash <= m.players[p].cash + (if p == sp {
            30000int
        } else {
            0
        }) + (if sp == cur {
            20000int
        } else {
            0
        })
    } by {
        if sp == cur {
            crate::player::lemma_bonus_bounded(holdings(players1, l), price, p);
        }
    }
    assert(r.players.len() == n);
    assert(hand_sizes(r.players) =~= hand_sizes(m.players));
    assert(tiles_left(r) == tiles_left(m));
    assert forall|p: int| 0 <= p < n implies 0 <= #[trigger] r.players[p].cash
        && r.players[p].cash + cash_reserve(r, p) <= CASH_LIMIT by {
        assert(m.players[p].cash + cash_reserve(m, p) <= CASH_LIMIT);
        assert(r.players[p].tiles == m.players[p].tiles);
        assert(crate::rules::sale_pending(m, sp));
        let base = MERGER_CASH_PER_TILE * tiles_left(m) + FINAL_BONUS_BOUND;
        assert(cash_reserve(m, p) == base + 50000 * (losers.len() - 1) + (if sp == cur {
            20000int
        } else {
            0
        }) + (if crate::rules::sale_pending(m, p) {
            30000int
        } else {
            0
        }));
        if next != cur {
            assert(cash_reserve(r, p) == base + 50000 * (losers.len() - 1) + (if crate::rules::sale_pending(r, p) {
                30000int
            } else {
                0
            }));
            if crate::rules::sale_pending(r, p) {
                assert(crate::rules::sale_pending(m, p));
                assert(p != sp);
            }
        } else if losers.len() > 1 {
            assert(crate::rules::sale_pending(r, p));
            assert(cash_reserve(r, p) == base + 50000 * (losers.len() - 1));
        } else {
            assert(cash_reserve(r, p) == base);
        }
    }
    assert forall|p: int, k: int| 0 <= p < n && 0 <= k < r.players[p].tiles.len() implies (
    #[trigger] r.players[p].tiles[k]).in_grid() by {
        assert(r.players[p].tiles == m.players[p].tiles);
    }
    assert forall|c: int| 0 <= c < MAX_NUM_CHAINS implies #[trigger] r.sizes[c] + size_reserve(r)
        <= SIZE_LIMIT by {
        assert(m.sizes[c] + size_reserve(m) <= SIZE_LIMIT);
    }
    if next == cur && losers.len() > 1 {
        assert forall|j: int| 0 <= j < losers.drop_first().len() implies #[trigger] losers.drop_first()[j]
            < MAX_NUM_CHAINS by {
            assert(losers.drop_first()[j] == losers[j + 1]);
        }
    }
}

/// Every accepted action keeps the game well formed: shares are conserved,
/// every payload fits the state, and no count can overflow later.
pub proof fn lemma_step_preserves_wf(m: GameModel, a: TurnAction)
    requires
        well_formed(m),
        step(m, a) is Ok,
    ensures
        well_formed(step(m, a)->Ok_0),
{
    match a {
        TurnAction::PlaceTile(idx) => lemma_place_wf(m, idx),
        TurnAction::CreateChain(ci) => lemma_create_wf(m, ci),
        TurnAction::PickWinningChain(ci) => lemma_pick_wf(m, ci),
        TurnAction::ResolveMerger(sell, trade) => lemma_resolve_wf(m, sell, trade),
        TurnAction::BuyStock(order) => lemma_buy_wf(m, order@),
    }
}

/// On a grid without chains and with a free slot, every tile is playable.
pub proof fn lemma_no_chains_playable(g: crate::rules::GridModel, sizes: Seq<usize>, t: crate::board::Tile)
    requires
        t.in_grid(),
        sizes.len() == MAX_NUM_CHAINS,
        sizes[0] == 0,
        forall|r: int, col: int|
            0 <= r < crate::board::GRID_HEIGHT && 0 <= col < crate::board::GRID_WIDTH ==> #[trigger] g[r][col]
                == crate::board::GridCell::Empty || g[r][col] == crate::board::GridCell::Hotel,
    ensures
        playability(g, sizes, t) == TilePlayability::Playable,
{
    let nb = crate::board::neighbors_of(t, g);
    crate::board::lemma_neighbors_facts(t, g);
    let touched = |c: int| touches(g, t, c);
    assert forall|c: int| 0 <= c < MAX_NUM_CHAINS implies !#[trigger] touched(c) by {
        if touches(g, t, c) {
            let k = choose|k: int| 0 <= k < nb.len() && crate::board::chain_of(#[trigger] nb[k].1) == Some(c);
            let pos = nb[k].0;
            assert(g[pos.0 as int][pos.1 as int] == nb[k].1);
        }
    }
    crate::rules::lemma_count_chains_zero(MAX_NUM_CHAINS as int, touched);
    assert(crate::rules::has_free_slot(sizes));
}

/// The order of one share of chain `c`.
pub open spec fn one_share(c: int) -> Seq<usize> {
    Seq::new(MAX_NUM_CHAINS as nat, |i: int| if i == c { 1usize } else { 0usize })
}

/// Sum and cost of an order of one share of chain `c`, over chains `0..k`.
proof fn lemma_one_share_order(sizes: Seq<usize>, c: int, k: int)
    requires
        0 <= c < MAX_NUM_CHAINS,
        0 <= k <= MAX_NUM_CHAINS,
    ensures
        sum_of_prefix(one_share(c), k) == if c < k { 1int } else { 0 },
        crate::rules::order_cost(sizes, one_share(c), k) == if c < k {
            crate::board::share_price(c, sizes[c] as int)
        } else {
            0
        },
    decreases k,
{
    if k > 0 {
        lemma_one_share_order(sizes, c, k - 1);
        assert(one_share(c).take(k).drop_last() == one_share(c).take(k - 1));
        let p = crate::board::share_price(k - 1, sizes[k - 1] as int);
        let o = one_share(c)[k - 1] as int;
        if k - 1 == c {
            assert(o == 1);
            assert(p * o == p) by (nonlinear_arith)
                requires
                    o == 1,
            ;
        } else {
            assert(o == 0);
            assert(p * o == 0) by (nonlinear_arith)
                requires
                    o == 0,
            ;
        }
    }
}

/// The sum of the first `k` entries.
pub open spec fn sum_of_prefix(s: Seq<usize>, k: int) -> int {
    crate::player::sum_of(s.take(k))
}

/// Buying one buyable, affordable share of chain `c` when the game does not
/// end costs the buyer exactly its price, gives them one more share, and
/// takes one from the market.
pub proof fn lemma_buy_one_share(m: GameModel, c: int)
    requires
        well_formed(m),
        0 <= c < MAX_NUM_CHAINS,
        m.phase matches PhaseModel::BuyStock(avail) && avail[c] >= 1,
        crate::board::share_price(c, m.sizes[c] as int) <= m.players[m.current].cash,
        !is_game_over(m.sizes),
    ensures
        crate::rules::buy_stock(m, one_share(c)) is Ok,
        ({
            let r = crate::rules::buy_stock(m, one_share(c))->Ok_0;
            &&& r.players[m.current].cash == m.players[m.current].cash - crate::board::share_price(
                c,
                m.sizes[c] as int,
            )
            &&& r.players[m.current].stocks[c] == m.players[m.current].stocks[c] + 1
            &&& r.market[c] == m.market[c] - 1
        }),
{
    let order = one_share(c);
    lemma_one_share_order(m.sizes, c, MAX_NUM_CHAINS as int);
    assert(order.take(MAX_NUM_CHAINS as int) == order);
    let avail = m.phase->BuyStock_0;
    assert(crate::rules::phase_wf(m));
    assert forall|i: int| 0 <= i < MAX_NUM_CHAINS implies #[trigger] order[i] <= avail[i] by {}
    lemma_first_short_below(order, avail, 0);
    crate::game::lemma_holdings_bounded(m, m.current);
    crate::player::lemma_sum_nonneg(holdings(m.players, c));
    assert(shares_held(m.players, c) + m.market[c] == STOCKS_PER_CHAIN);
}

/// When no order exceeds what is buyable, no chain is short.
proof fn lemma_first_short_below(order: Seq<usize>, avail: Seq<usize>, k: int)
    requires
        0 <= k <= MAX_NUM_CHAINS,
        forall|i: int| 0 <= i < MAX_NUM_CHAINS ==> #[trigger] order[i] <= avail[i],
    ensures
        crate::rules::first_short(order, avail, k) == MAX_NUM_CHAINS,
    decreases MAX_NUM_CHAINS - k,
{
    if k < MAX_NUM_CHAINS {
        lemma_first_short_below(order, avail, k + 1);
    }
}

} // verus!
