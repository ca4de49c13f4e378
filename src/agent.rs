//! Computer players: each picks an action from what the current phase offers.
use vstd::prelude::*;

use crate::board::{grid_neighbors, neighbors_of, Tile, BUY_LIMIT, MAX_NUM_CHAINS};
use crate::game::{GameState, TurnAction, TurnPhase};
use crate::player::sum_of;
use crate::random::{random_element, random_sample, random_up_to};
use crate::rules::{order_cost, well_formed, GameModel, PhaseModel};

verus! {

/// An action that the current phase offers: a tile or chain from the
/// offered list (when it is not empty), a sale of at most the shares held,
/// or a purchase within the buy limit, what is buyable, and the player's cash.
pub open spec fn offered_action(m: GameModel, a: TurnAction) -> bool {
    match m.phase {
        PhaseModel::PlaceTile(v) => v.len() > 0 ==> (a matches TurnAction::PlaceTile(i) && v.contains(i)),
        PhaseModel::CreateChain(_, v) => v.len() > 0 ==> (a matches TurnAction::CreateChain(c)
            && v.contains(c)),
        PhaseModel::PickWinningChain(w, _) => w.len() > 0 ==> (a matches TurnAction::PickWinningChain(c)
            && w.contains(c)),
        PhaseModel::ResolveMerger(_, losers, p) => a matches TurnAction::ResolveMerger(sell, trade)
            && trade == 0 && sell <= m.players[p].stocks[losers[0] as int],
        PhaseModel::BuyStock(avail) => a matches TurnAction::BuyStock(order) && sum_of(order@)
            <= BUY_LIMIT && (forall|i: int| 0 <= i < MAX_NUM_CHAINS ==> #[trigger] order@[i] <= avail[i])
            && order_cost(m.sizes, order@, MAX_NUM_CHAINS as int) <= m.players[m.current].cash,
        PhaseModel::GameOver(_) => a == TurnAction::PlaceTile(0),
    }
}

/// A computer player.
pub trait Agent {
    /// Picks an action for the current phase of `game`.
    fn choose_action(&self, game: &GameState) -> (r: TurnAction)
        requires
            game.wf(),
        ensures
            offered_action(game@, r),
            !(game@.phase is GameOver) ==> crate::rules::step(game@, r) is Ok,
    ;
}

/// Returns a computer player: 0 plays at random, anything else adds simple
/// preferences for tiles and chains.
pub fn create_agent(difficulty: usize) -> Box<dyn Agent> {
    match difficulty {
        0 => Box::new(RandomAgent),
        _ => Box::new(BasicAgent),
    }
}

/// Picks uniformly among the valid choices.
pub struct RandomAgent;

/// The cost of an order grows by a share's price when one share is added.
proof fn lemma_order_cost_add(sizes: Seq<usize>, order: Seq<usize>, i: int, k: int)
    requires
        0 <= i < order.len(),
        0 <= k <= order.len(),
        order[i] < usize::MAX,
    ensures
        order_cost(sizes, order.update(i, (order[i] + 1) as usize), k) == order_cost(sizes, order, k)
            + if i < k {
            crate::board::share_price(i, sizes[i] as int)
        } else {
            0
        },
    decreases k,
{
    if k > 0 {
        lemma_order_cost_add(sizes, order, i, k - 1);
        let p = crate::board::share_price(k - 1, sizes[k - 1] as int);
        if k - 1 == i {
            assert(p * (order[i] + 1) == p * order[i] + p) by (nonlinear_arith);
        }
    }
}

impl RandomAgent {
    /// Picks up to three random buyable shares, stopping before the cash runs out.
    fn choose_purchase(game: &GameState, available: [usize; MAX_NUM_CHAINS]) -> (r: TurnAction)
        requires
            game.wf(),
            game@.phase == PhaseModel::BuyStock(available@),
        ensures
            offered_action(game@, r),
    {
        let my_cash = game.players[game.turn_state.player].cash;
        proof {
            crate::game::lemma_holdings_bounded(game@, game@.current);
        }
        // One entry for each share that could be bought.
        let mut buyable_shares: Vec<usize> = Vec::new();
        let mut i: usize = 0;
        while i < MAX_NUM_CHAINS
            invariant
                i <= MAX_NUM_CHAINS,
                forall|k: int| 0 <= k < buyable_shares@.len() ==> #[trigger] buyable_shares@[k] < MAX_NUM_CHAINS,
            decreases MAX_NUM_CHAINS - i,
        {
            let amount = available[i];
            let price = game.stock_price(i);
            if amount > 0 && price > 0 && price < my_cash {
                let mut max_shares = my_cash / price;
                if max_shares > BUY_LIMIT {
                    max_shares = BUY_LIMIT;
                }
                if max_shares > amount {
                    max_shares = amount;
                }
                let mut j: usize = 0;
                while j < max_shares
                    invariant
                        i < MAX_NUM_CHAINS,
                        j <= max_shares,
                        forall|k: int| 0 <= k < buyable_shares@.len() ==> #[trigger] buyable_shares@[k] < MAX_NUM_CHAINS,
                    decreases max_shares - j,
                {
                    buyable_shares.push(i);
                    j = j + 1;
                }
            }
            i = i + 1;
        }
        // Pick up to 3 random buyable shares and buy them, unless we run out of cash first.
        let picks = random_sample(&buyable_shares, BUY_LIMIT);
        proof {
            assert forall|k: int| 0 <= k < picks@.len() implies #[trigger] picks@[k] < MAX_NUM_CHAINS by {
                let x = picks@[k];
                vstd::seq_lib::to_multiset_contains(picks@, x);
                vstd::seq_lib::to_multiset_contains(buyable_shares@, x);
                let j = choose|j: int| 0 <= j < buyable_shares@.len() && buyable_shares@[j] == x;
            }
        }
        let ghost sizes = game@.sizes;
        let mut buy_order = [0usize; MAX_NUM_CHAINS];
        let mut buy_price: usize = 0;
        let mut bought: usize = 0;
        let mut k: usize = 0;
        assert(order_cost(sizes, buy_order@, MAX_NUM_CHAINS as int) == 0) by {
            lemma_order_cost_zero(sizes, buy_order@, MAX_NUM_CHAINS as int);
        }
        assert(sum_of(buy_order@) == 0) by {
            lemma_sum_zeros(buy_order@);
        }
        while k < picks.len()
            invariant
                k <= picks@.len() <= BUY_LIMIT,
                forall|j: int| 0 <= j < picks@.len() ==> #[trigger] picks@[j] < MAX_NUM_CHAINS,
                sizes == game@.sizes,
                game.wf(),
                game@.phase == PhaseModel::BuyStock(available@),
                my_cash == game@.players[game@.current].cash,
                my_cash <= crate::rules::CASH_LIMIT,
                buy_price <= my_cash,
                bought <= k,
                sum_of(buy_order@) == bought,
                order_cost(sizes, buy_order@, MAX_NUM_CHAINS as int) == buy_price,
                forall|c: int| 0 <= c < MAX_NUM_CHAINS ==> #[trigger] buy_order@[c] <= available@[c],
            decreases picks@.len() - k,
        {
            let chain_idx = picks[k];
            let price = game.stock_price(chain_idx);
            if buy_price + price > my_cash {
                break;
            }
            if buy_order[chain_idx] < available[chain_idx] {
                proof {
                    lemma_order_cost_add(sizes, buy_order@, chain_idx as int, MAX_NUM_CHAINS as int);
                    crate::player::lemma_sum_update(buy_order@, chain_idx as int, (buy_order@[chain_idx as int] + 1) as usize);
                }
                buy_price = buy_price + price;
                buy_order[chain_idx] = buy_order[chain_idx] + 1;
                bought = bought + 1;
            }
            k = k + 1;
        }
        TurnAction::BuyStock(buy_order)
    }
}

/// An order with nothing in it costs nothing.
proof fn lemma_order_cost_zero(sizes: Seq<usize>, order: Seq<usize>, k: int)
    requires
        0 <= k <= order.len(),
        forall|i: int| 0 <= i < order.len() ==> order[i] == 0,
    ensures
        order_cost(sizes, order, k) == 0,
    decreases k,
{
    if k > 0 {
        lemma_order_cost_zero(sizes, order, k - 1);
    }
}

/// Zeros sum to zero.
proof fn lemma_sum_zeros(s: Seq<usize>)
    requires
        forall|i: int| 0 <= i < s.len() ==> s[i] == 0,
    ensures
        sum_of(s) == 0,
    decreases s.len(),
{
    if s.len() > 0 {
        lemma_sum_zeros(s.drop_last());
    }
}

impl RandomAgent {
    /// A random action among those the current phase offers.
    fn pick_action(game: &GameState) -> (r: TurnAction)
        requires
            game.wf(),
        ensures
            offered_action(game@, r),
    {
        match &game.turn_state.phase {
            TurnPhase::PlaceTile(tile_inds) => match random_element(tile_inds) {
                Some(i) => TurnAction::PlaceTile(i),
                None => TurnAction::PlaceTile(0),
            },
            TurnPhase::CreateChain(_, chain_inds) => match random_element(chain_inds) {
                Some(i) => TurnAction::CreateChain(i),
                None => TurnAction::CreateChain(0),
            },
            TurnPhase::PickWinningChain(choices, _) => match random_element(choices) {
                Some(i) => TurnAction::PickWinningChain(i),
                None => TurnAction::PickWinningChain(0),
            },
            TurnPhase::ResolveMerger(_, loser_inds, player_idx) => {
                let loser_idx = loser_inds[0];
                let loser_shares = game.players[*player_idx].stocks[loser_idx];
                let num_sold = random_up_to(loser_shares);
                TurnAction::ResolveMerger(num_sold, 0)
            },
            TurnPhase::BuyStock(buyable_amounts) => RandomAgent::choose_purchase(game, *buyable_amounts),
            TurnPhase::GameOver(_) => TurnAction::PlaceTile(0),
        }
    }
}

/// The last of `chain_inds` of which the active player holds the most shares.
pub fn chain_with_most_shares(game: &GameState, chain_inds: &[usize]) -> (r: usize)
    requires
        game.wf(),
        chain_inds@.len() > 0,
        forall|k: int| 0 <= k < chain_inds@.len() ==> #[trigger] chain_inds@[k] < MAX_NUM_CHAINS,
    ensures
        exists|k: int|
            0 <= k < chain_inds@.len() && chain_inds@[k] == r && (forall|j: int|
                0 <= j < chain_inds@.len() ==> #[trigger] game@.players[game@.current].stocks[chain_inds@[j] as int]
                    <= game@.players[game@.current].stocks[r as int] && (j > k ==> game@.players[game@.current].stocks[chain_inds@[j] as int]
                    < game@.players[game@.current].stocks[r as int])),
{
    let ghost stocks = game@.players[game@.current].stocks;
    let my_stocks = &game.players[game.turn_state.player].stocks;
    let mut best_k: usize = 0;
    let mut best = chain_inds[0];
    let mut k: usize = 1;
    while k < chain_inds.len()
        invariant
            1 <= k <= chain_inds@.len(),
            best_k < k,
            best == chain_inds@[best_k as int],
            forall|j: int| 0 <= j < chain_inds@.len() ==> #[trigger] chain_inds@[j] < MAX_NUM_CHAINS,
            *my_stocks == game.players@[game.turn_state.player as int].stocks,
            stocks == my_stocks@,
            forall|j: int|
                0 <= j < k ==> #[trigger] stocks[chain_inds@[j] as int] <= stocks[best as int] && (j > best_k
                    ==> stocks[chain_inds@[j] as int] < stocks[best as int]),
        decreases chain_inds@.len() - k,
    {
        if my_stocks[chain_inds[k]] >= my_stocks[best] {
            best = chain_inds[k];
            best_k = k;
        }
        k = k + 1;
    }
    best
}

/// Offered tile indices point into the active player's hand, and the tile is on the grid.
proof fn lemma_place_payload(m: GameModel, v: Seq<usize>, k: int)
    requires
        crate::rules::well_formed(m),
        m.phase == PhaseModel::PlaceTile(v),
        0 <= k < v.len(),
    ensures
        v[k] < m.players[m.current].tiles.len(),
        m.players[m.current].tiles[v[k] as int].in_grid(),
{
    assert(m.phase is PlaceTile);
    assert(m.phase->PlaceTile_0 == v);
    assert(crate::rules::phase_wf(m));
    assert(v[k] < m.players[m.current].tiles.len());
}

/// The possible winners of a merger are among the merging chains.
proof fn lemma_pick_payload(m: GameModel, w: Seq<usize>, merging: Seq<usize>, k: int)
    requires
        crate::rules::well_formed(m),
        m.phase == PhaseModel::PickWinningChain(w, merging),
        0 <= k < w.len(),
    ensures
        w[k] < MAX_NUM_CHAINS,
{
    assert(m.phase is PickWinningChain);
    assert(m.phase->PickWinningChain_0 == w);
    assert(m.phase->PickWinningChain_1 == merging);
    assert(crate::rules::phase_wf(m));
    assert(merging.contains(w[k]));
    let j = choose|j: int| 0 <= j < merging.len() && merging[j] == w[k];
    assert(crate::rules::all_chains(merging));
    assert(merging[j] < MAX_NUM_CHAINS);
}

/// Prefers tiles with many neighbours and chains in which it holds many shares.
pub struct BasicAgent;

impl GameState {
    /// The number of placed tiles next to `tile`.
    pub fn num_neighbors(&self, tile: Tile) -> (r: usize)
        requires
            tile.in_grid(),
        ensures
            r == neighbors_of(tile, self@.grid).len(),
    {
        grid_neighbors(tile, &self.board.grid).len()
    }
}

impl BasicAgent {
    /// The offered action with the most neighbours or shares, else a random one.
    fn pick_action(game: &GameState) -> (r: TurnAction)
        requires
            game.wf(),
        ensures
            offered_action(game@, r),
    {
        match &game.turn_state.phase {
            TurnPhase::PlaceTile(tile_inds) => {
                if tile_inds.len() == 0 {
                    return TurnAction::PlaceTile(0);
                }
                // Place the tile that has the most neighbours.
                let my_tiles = &game.players[game.turn_state.player].tiles;
                let ghost hand = game@.players[game@.current].tiles;
                assert(game@.phase == PhaseModel::PlaceTile(tile_inds@));
                assert(crate::rules::phase_wf(game@));
                assert(my_tiles@ == hand);
                proof {
                    lemma_place_payload(game@, tile_inds@, 0);
                }
                assert(hand[tile_inds@[0] as int].in_grid());
                let mut best = tile_inds[0];
                let mut best_count = game.num_neighbors(my_tiles[best]);
                let mut k: usize = 1;
                while k < tile_inds.len()
                    invariant
                        game.wf(),
                        crate::rules::phase_wf(game@),
                        hand == game@.players[game@.current].tiles,
                        my_tiles@ == hand,
                        game@.phase == PhaseModel::PlaceTile(tile_inds@),
                        1 <= k <= tile_inds@.len(),
                        tile_inds@.contains(best),
                    decreases tile_inds@.len() - k,
                {
                    let i = tile_inds[k];
                    proof {
                        lemma_place_payload(game@, tile_inds@, k as int);
                    }
                    assert(hand[i as int].in_grid());
                    let count = game.num_neighbors(my_tiles[i]);
                    if count >= best_count {
                        best = i;
                        best_count = count;
                    }
                    k = k + 1;
                }
                TurnAction::PlaceTile(best)
            },
            TurnPhase::CreateChain(_, chain_inds) => {
                if chain_inds.len() == 0 {
                    return TurnAction::CreateChain(0);
                }
                let c = chain_with_most_shares(game, chain_inds.as_slice());
                TurnAction::CreateChain(c)
            },
            TurnPhase::PickWinningChain(choices, merging) => {
                if choices.len() == 0 {
                    return TurnAction::PickWinningChain(0);
                }
                proof {
                    assert(game@.phase == PhaseModel::PickWinningChain(choices@, merging@));
                    assert(crate::rules::phase_wf(game@));
                    assert forall|k: int| 0 <= k < choices@.len() implies #[trigger] choices@[k] < MAX_NUM_CHAINS by {
                        lemma_pick_payload(game@, choices@, merging@, k);
                        let j = choose|j: int| 0 <= j < merging@.len() && merging@[j] == choices@[k];
                    }
                }
                let c = chain_with_most_shares(game, choices.as_slice());
                TurnAction::PickWinningChain(c)
            },
            _ => RandomAgent::pick_action(game),
        }
    }
}

impl Agent for RandomAgent {
    fn choose_action(&self, game: &GameState) -> (r: TurnAction) {
        let r = RandomAgent::pick_action(game);
        proof {
            if !(game@.phase is GameOver) {
                lemma_offered_action_accepted(game@, r);
            }
        }
        r
    }
}

impl Agent for BasicAgent {
    fn choose_action(&self, game: &GameState) -> (r: TurnAction) {
        let r = BasicAgent::pick_action(game);
        proof {
            if !(game@.phase is GameOver) {
                lemma_offered_action_accepted(game@, r);
            }
        }
        r
    }
}

/// An action that the current phase offers is accepted.
pub proof fn lemma_offered_action_accepted(m: GameModel, a: TurnAction)
    requires
        well_formed(m),
        offered_action(m, a),
        !(m.phase is GameOver),
    ensures
        crate::rules::step(m, a) is Ok,
{
    assert(crate::rules::phase_wf(m));
    match m.phase {
        PhaseModel::CreateChain(t, v) => {
            let c = a->CreateChain_0;
            let k = choose|k: int| 0 <= k < v.len() && v[k] == c;
            assert(m.sizes[v[k] as int] == 0);
        },
        PhaseModel::BuyStock(avail) => {
            let order = a->BuyStock_0;
            lemma_first_short_all(order@, avail, 0);
        },
        _ => {},
    }
}

/// When no order exceeds what is buyable, no chain is short.
proof fn lemma_first_short_all(order: Seq<usize>, avail: Seq<usize>, k: int)
    requires
        0 <= k <= MAX_NUM_CHAINS,
        forall|i: int| 0 <= i < MAX_NUM_CHAINS ==> #[trigger] order[i] <= avail[i],
    ensures
        crate::rules::first_short(order, avail, k) == MAX_NUM_CHAINS,
    decreases MAX_NUM_CHAINS - k,
{
    if k < MAX_NUM_CHAINS {
        lemma_first_short_all(order, avail, k + 1);
    }
}

} // verus!
