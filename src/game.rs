//! The game: board and market state, players, and the turn-phase state machine.
use rand::rngs::StdRng;
use vstd::prelude::*;

use crate::board::{
    chain_of, chain_stock_price, grid_neighbors, grid_view, neighbors_of, share_price, Grid,
    GridCell, Tile, BUY_LIMIT, GRID_HEIGHT, GRID_WIDTH, MAX_NUM_CHAINS, MAX_SHARE_PRICE,
    SAFE_CHAIN_SIZE, STOCKS_PER_CHAIN,
};
use crate::player::{bonus_for, holdings_of, max_of, paid, pay_bonuses, sum_of, Player};
use crate::random::{random_below, shuffle_tiles};
use crate::rules::{
    buyable, buyable_list, by_size, count_cells, count_chains, count_row, draw, end_turn,
    first_short, free_slots, holdings, holdings_value, is_game_over, joins_winner, largest_flagged,
    merging_chains, of_size, order_cost, paint_entries, playability, playable_indices, recolor,
    set_cell, shares_conserved, shares_held, sum_ints, tiles_left, tiles_on_grid, touched_flags,
    touches, turn_can_end, value_of, well_formed, with_bonuses, with_final_bonuses, without,
    GameModel, PhaseModel, PlayerModel, CASH_LIMIT, FINAL_BONUS_BOUND,
};

verus! {

/// What the active player is expected to do next.
#[derive(Debug)]
pub enum TurnPhase {
    /// Place a tile. Payload: the indices of the playable tiles in hand.
    PlaceTile(Vec<usize>),
    /// The placed tile founds a new chain. Payload: (tile, free chain slots).
    CreateChain(Tile, Vec<usize>),
    /// Two or more chains merge. Payload: (the largest chains, which may win;
    /// all merging chains, largest first).
    PickWinningChain(Vec<usize>, Vec<usize>),
    /// Shares of a retired chain are sold or traded. Payload: (winning chain,
    /// chains still to retire, the player who decides now).
    ResolveMerger(usize, Vec<usize>, usize),
    /// Shares may be bought. Payload: how many are buyable per chain.
    BuyStock([usize; MAX_NUM_CHAINS]),
    /// The game has ended. Payload: each player's final value.
    GameOver(Vec<usize>),
}

/// One action of the active player.
#[derive(Debug)]
pub enum TurnAction {
    /// Payload: index of the tile in hand.
    PlaceTile(usize),
    /// Payload: chain slot.
    CreateChain(usize),
    /// Payload: chain slot.
    PickWinningChain(usize),
    /// Payload: (shares sold, shares traded).
    ResolveMerger(usize, usize),
    /// Payload: shares bought per chain.
    BuyStock([usize; MAX_NUM_CHAINS]),
}

/// Whose turn it is, and what is expected of them.
#[derive(Debug)]
pub struct TurnState {
    pub player: usize,
    pub phase: TurnPhase,
}

/// Why an action was rejected. The state is left unchanged.
#[derive(Clone, Copy, PartialEq, Eq, Structural, Debug)]
pub enum TurnError {
    /// The action does not belong to the current phase.
    WrongPhase,
    /// The tile index is not among the playable ones.
    InvalidTileIndex(usize),
    /// The chain slot is not among the offered ones.
    InvalidChainIndex(usize),
    /// The chain slot is already taken.
    ChainExists(usize),
    /// More shares sold and traded than the player holds.
    NotEnoughShares,
    /// More shares traded for than the winner's market holds.
    NotEnoughMarketShares,
    /// More than the buy limit of shares requested.
    TooManyStocks,
    /// More shares of a chain requested than are buyable.
    NotEnoughStocksAvailable(usize),
    /// The shares cost more than the player's cash.
    NotEnoughCash,
}

/// How a tile in hand can be used.
#[derive(Clone, Copy, PartialEq, Eq, Structural, Debug)]
pub enum TilePlayability {
    Playable,
    /// It would found an eighth chain; playable once a chain is retired.
    TemporarilyUnplayable,
    /// It would merge two safe chains.
    PermanentlyUnplayable,
}

/// The grid, the chains and the stock market.
pub struct BoardState {
    pub grid: Grid,
    pub chain_sizes: [usize; MAX_NUM_CHAINS],
    pub stock_market: [usize; MAX_NUM_CHAINS],
    pub chain_names: [String; MAX_NUM_CHAINS],
}

/// The whole game.
pub struct GameState {
    pub board: BoardState,
    pub players: Vec<Player>,
    pub turn_state: TurnState,
    pub unclaimed_tiles: Vec<Tile>,
}

impl View for Player {
    type V = PlayerModel;

    open spec fn view(&self) -> PlayerModel {
        PlayerModel { cash: self.cash as int, stocks: self.stocks@, tiles: self.tiles@ }
    }
}

/// The model of a phase.
pub open spec fn phase_view(ph: TurnPhase) -> PhaseModel {
    match ph {
        TurnPhase::PlaceTile(v) => PhaseModel::PlaceTile(v@),
        TurnPhase::CreateChain(t, v) => PhaseModel::CreateChain(t, v@),
        TurnPhase::PickWinningChain(w, m) => PhaseModel::PickWinningChain(w@, m@),
        TurnPhase::ResolveMerger(w, l, p) => PhaseModel::ResolveMerger(w as int, l@, p as int),
        TurnPhase::BuyStock(a) => PhaseModel::BuyStock(a@),
        TurnPhase::GameOver(v) => PhaseModel::GameOver(v@.map_values(|x: usize| x as int)),
    }
}

/// The models of a sequence of players.
pub open spec fn players_view(players: Seq<Player>) -> Seq<PlayerModel> {
    players.map_values(|p: Player| p@)
}

impl View for GameState {
    type V = GameModel;

    open spec fn view(&self) -> GameModel {
        GameModel {
            grid: grid_view(self.board.grid),
            sizes: self.board.chain_sizes@,
            market: self.board.stock_market@,
            players: players_view(self.players@),
            current: self.turn_state.player as int,
            phase: phase_view(self.turn_state.phase),
            pile: self.unclaimed_tiles@,
        }
    }
}

impl GameState {
    /// The state is well formed: every action applies without overflow or
    /// out-of-range access, shares are conserved, and the chain sizes agree
    /// with the grid.
    pub open spec fn wf(&self) -> bool {
        &&& well_formed(self@)
        &&& crate::chain_cells::cells_consistent(self@)
    }
}

impl BoardState {
    /// For each chain slot, whether some neighbour of `tile` belongs to it.
    fn touched_flags(&self, tile: Tile) -> (r: [bool; MAX_NUM_CHAINS])
        requires
            tile.in_grid(),
        ensures
            forall|c: int|
                0 <= c < MAX_NUM_CHAINS ==> r@[c] == touches(grid_view(self.grid), tile, c),
    {
        let neighbors = grid_neighbors(tile, &self.grid);
        let ghost nb = neighbors_of(tile, grid_view(self.grid));
        let mut flags = [false; MAX_NUM_CHAINS];
        let mut k: usize = 0;
        while k < neighbors.len()
            invariant
                neighbors@ == nb,
                nb == neighbors_of(tile, grid_view(self.grid)),
                k <= nb.len(),
                forall|c: int|
                    0 <= c < MAX_NUM_CHAINS ==> flags@[c] == exists|j: int|
                        0 <= j < k && chain_of(#[trigger] nb[j].1) == Some(c),
            decreases nb.len() - k,
        {
            let ghost before = flags@;
            if let Some(i) = neighbors[k].1.to_chain_index() {
                if i < MAX_NUM_CHAINS {
                    flags[i] = true;
                }
            }
            assert forall|c: int| 0 <= c < MAX_NUM_CHAINS implies flags@[c] == exists|j: int|
                0 <= j < k + 1 && chain_of(#[trigger] nb[j].1) == Some(c) by {
                if chain_of(nb[k as int].1) == Some(c) {
                    assert(flags@[c]);
                } else if flags@[c] {
                    assert(before[c]);
                }
            }
            k = k + 1;
        }
        flags
    }
}

/// Counts the flags that are set.
fn count_flags(flags: &[bool; MAX_NUM_CHAINS], pred: Ghost<spec_fn(int) -> bool>) -> (r: usize)
    requires
        forall|c: int| 0 <= c < MAX_NUM_CHAINS ==> flags@[c] == pred@(c),
    ensures
        r == count_chains(MAX_NUM_CHAINS as int, pred@),
        r <= MAX_NUM_CHAINS,
{
    let mut count: usize = 0;
    let mut c: usize = 0;
    while c < MAX_NUM_CHAINS
        invariant
            c <= MAX_NUM_CHAINS,
            count == count_chains(c as int, pred@),
            count <= c,
            forall|j: int| 0 <= j < MAX_NUM_CHAINS ==> flags@[j] == pred@(j),
        decreases MAX_NUM_CHAINS - c,
    {
        if flags[c] {
            count = count + 1;
        }
        c = c + 1;
    }
    count
}

impl GameState {
    /// How many shares of each chain can be bought now.
    pub fn available_stocks(&self) -> (r: [usize; MAX_NUM_CHAINS])
        ensures
            r@ == buyable_list(self@),
    {
        let mut available = [0usize; MAX_NUM_CHAINS];
        let mut i: usize = 0;
        while i < MAX_NUM_CHAINS
            invariant
                i <= MAX_NUM_CHAINS,
                forall|j: int|
                    0 <= j < i ==> available@[j] == buyable(self@.sizes, self@.market, j),
                forall|j: int| i <= j < MAX_NUM_CHAINS ==> available@[j] == 0,
            decreases MAX_NUM_CHAINS - i,
        {
            if self.board.stock_market[i] > 0 && self.board.chain_sizes[i] > 1 {
                available[i] = self.board.stock_market[i];
            }
            i = i + 1;
        }
        assert(available@ == buyable_list(self@));
        available
    }

    /// The current price of one share of chain `chain_index`.
    pub fn stock_price(&self, chain_index: usize) -> (r: usize)
        requires
            chain_index < MAX_NUM_CHAINS,
        ensures
            r == share_price(chain_index as int, self@.sizes[chain_index as int] as int),
            r <= MAX_SHARE_PRICE,
    {
        chain_stock_price(chain_index, self.board.chain_sizes[chain_index])
    }

    /// Cash plus the current value of all shares held by `player`.
    pub fn player_value(&self, player: usize) -> (r: usize)
        requires
            self.wf(),
            player < self.players@.len(),
        ensures
            r == value_of(self@.players[player as int], self@.sizes),
    {
        let ghost pl = self@.players[player as int];
        let ghost sizes = self@.sizes;
        proof {
            lemma_holdings_bounded(self@, player as int);
        }
        let mut value = self.players[player].cash;
        let mut chain_index: usize = 0;
        while chain_index < MAX_NUM_CHAINS
            invariant
                chain_index <= MAX_NUM_CHAINS,
                player < self.players@.len(),
                pl == self@.players[player as int],
                sizes == self@.sizes,
                pl.cash <= CASH_LIMIT,
                forall|c: int| 0 <= c < MAX_NUM_CHAINS ==> pl.stocks[c] <= STOCKS_PER_CHAIN,
                value == pl.cash + holdings_value(pl.stocks, sizes, chain_index as int),
                holdings_value(pl.stocks, sizes, chain_index as int) <= chain_index * 30000,
            decreases MAX_NUM_CHAINS - chain_index,
        {
            let num_stocks = self.players[player].stocks[chain_index];
            let price = self.stock_price(chain_index);
            proof {
                assert(num_stocks * price <= 30000) by (nonlinear_arith)
                    requires
                        num_stocks <= STOCKS_PER_CHAIN,
                        price <= MAX_SHARE_PRICE,
                ;
            }
            assert(holdings_value(pl.stocks, sizes, chain_index + 1) == holdings_value(
                pl.stocks,
                sizes,
                chain_index as int,
            ) + num_stocks * price);
            value = value + num_stocks * price;
            chain_index = chain_index + 1;
        }
        value
    }

    /// How `tile` can be used now.
    pub fn tile_playability(&self, tile: Tile) -> (r: TilePlayability)
        requires
            tile.in_grid(),
        ensures
            r == playability(self@.grid, self@.sizes, tile),
    {
        let neighbors = grid_neighbors(tile, &self.board.grid);
        if neighbors.len() == 0 {
            return TilePlayability::Playable;
        }
        let touched = self.board.touched_flags(tile);
        let ghost g = self@.grid;
        let ghost sizes = self@.sizes;
        let num_touched = count_flags(&touched, Ghost(|c: int| touches(g, tile, c)));
        if num_touched == 0 {
            let mut free = false;
            let mut i: usize = 0;
            while i < MAX_NUM_CHAINS
                invariant
                    i <= MAX_NUM_CHAINS,
                    free == exists|c: int| 0 <= c < i && #[trigger] sizes[c] == 0,
                    sizes == self@.sizes,
                decreases MAX_NUM_CHAINS - i,
            {
                if self.board.chain_sizes[i] == 0 {
                    free = true;
                }
                i = i + 1;
            }
            return if free {
                TilePlayability::Playable
            } else {
                TilePlayability::TemporarilyUnplayable
            };
        }
        let mut safe = [false; MAX_NUM_CHAINS];
        let mut i: usize = 0;
        while i < MAX_NUM_CHAINS
            invariant
                i <= MAX_NUM_CHAINS,
                g == self@.grid,
                sizes == self@.sizes,
                forall|c: int| 0 <= c < MAX_NUM_CHAINS ==> touched@[c] == touches(g, tile, c),
                forall|c: int|
                    0 <= c < i ==> safe@[c] == (touches(g, tile, c) && sizes[c] >= SAFE_CHAIN_SIZE),
            decreases MAX_NUM_CHAINS - i,
        {
            safe[i] = touched[i] && self.board.chain_sizes[i] >= SAFE_CHAIN_SIZE;
            i = i + 1;
        }
        let num_safe = count_flags(
            &safe,
            Ghost(|c: int| touches(g, tile, c) && sizes[c] >= SAFE_CHAIN_SIZE),
        );
        if num_safe <= 1 {
            TilePlayability::Playable
        } else {
            TilePlayability::PermanentlyUnplayable
        }
    }
}

/// In a well-formed game each player's cash is below the limit and their
/// holdings of each chain are at most the shares issued.
pub proof fn lemma_holdings_bounded(m: GameModel, p: int)
    requires
        well_formed(m),
        0 <= p < m.players.len(),
    ensures
        0 <= m.players[p].cash <= CASH_LIMIT,
        forall|c: int| 0 <= c < MAX_NUM_CHAINS ==> #[trigger] m.players[p].stocks[c] <= STOCKS_PER_CHAIN,
{
    crate::rules::lemma_reserve_nonneg(m, p);
    assert forall|c: int| 0 <= c < MAX_NUM_CHAINS implies #[trigger] m.players[p].stocks[c]
        <= STOCKS_PER_CHAIN by {
        assert(shares_held(m.players, c) + m.market[c] == STOCKS_PER_CHAIN);
        crate::player::lemma_entry_le_sum(holdings(m.players, c), p);
    }
}

/// Paying bonuses through the players' cash is `with_bonuses` on the model.
proof fn lemma_paid_view(before: Seq<Player>, after: Seq<Player>, c: int, price: int)
    requires
        after.len() == before.len(),
        forall|p: int|
            0 <= p < before.len() ==> paid(
                #[trigger] before[p],
                after[p],
                bonus_for(holdings_of(before, c), price, p),
            ),
    ensures
        players_view(after) == with_bonuses(players_view(before), c, price),
{
    assert(holdings(players_view(before), c) == holdings_of(before, c));
    assert forall|p: int| 0 <= p < before.len() implies #[trigger] players_view(after)[p] == with_bonuses(
        players_view(before),
        c,
        price,
    )[p] by {
        assert(paid(before[p], after[p], bonus_for(holdings_of(before, c), price, p)));
    }
    assert(players_view(after) =~= with_bonuses(players_view(before), c, price));
}

/// The most tiles any chain has.
fn largest_chain(sizes: &[usize; MAX_NUM_CHAINS]) -> (r: usize)
    ensures
        r == max_of(sizes@),
{
    let mut best: usize = 0;
    let mut i: usize = 0;
    while i < MAX_NUM_CHAINS
        invariant
            i <= MAX_NUM_CHAINS,
            best == max_of(sizes@.take(i as int)),
        decreases MAX_NUM_CHAINS - i,
    {
        assert(sizes@.take(i + 1).drop_last() == sizes@.take(i as int));
        if sizes[i] > best {
            best = sizes[i];
        }
        i = i + 1;
    }
    assert(sizes@.take(MAX_NUM_CHAINS as int) == sizes@);
    best
}

impl GameState {
    /// Cash plus the value of holdings, for a player whose numbers are in range.
    fn value_at(&self, player: usize) -> (r: usize)
        requires
            player < self.players@.len(),
            self@.players[player as int].cash <= CASH_LIMIT,
            forall|c: int|
                0 <= c < MAX_NUM_CHAINS ==> #[trigger] self@.players[player as int].stocks[c]
                    <= STOCKS_PER_CHAIN,
        ensures
            r == value_of(self@.players[player as int], self@.sizes),
    {
        let ghost pl = self@.players[player as int];
        let ghost sizes = self@.sizes;
        let mut value = self.players[player].cash;
        let mut chain_index: usize = 0;
        while chain_index < MAX_NUM_CHAINS
            invariant
                chain_index <= MAX_NUM_CHAINS,
                player < self.players@.len(),
                pl == self@.players[player as int],
                sizes == self@.sizes,
                pl.cash <= CASH_LIMIT,
                forall|c: int| 0 <= c < MAX_NUM_CHAINS ==> #[trigger] pl.stocks[c] <= STOCKS_PER_CHAIN,
                value == pl.cash + holdings_value(pl.stocks, sizes, chain_index as int),
                holdings_value(pl.stocks, sizes, chain_index as int) <= chain_index * 30000,
            decreases MAX_NUM_CHAINS - chain_index,
        {
            let num_stocks = self.players[player].stocks[chain_index];
            let price = self.stock_price(chain_index);
            proof {
                assert(pl.stocks[chain_index as int] <= STOCKS_PER_CHAIN);
                assert(num_stocks * price <= 30000) by (nonlinear_arith)
                    requires
                        num_stocks <= STOCKS_PER_CHAIN,
                        price <= MAX_SHARE_PRICE,
                ;
            }
            assert(holdings_value(pl.stocks, sizes, chain_index + 1) == holdings_value(
                pl.stocks,
                sizes,
                chain_index as int,
            ) + num_stocks * price);
            value = value + num_stocks * price;
            chain_index = chain_index + 1;
        }
        value
    }

    /// Ends the active player's turn: draws a replacement tile, discarding
    /// tiles that can never be placed; then either ends the game, paying the
    /// final bonuses, or passes the turn to the next player.
    pub fn next_player(&mut self)
        requires
            turn_can_end(old(self)@),
        ensures
            final(self)@ == end_turn(old(self)@),
            final(self).board.chain_names == old(self).board.chain_names,
    {
        let ghost m0 = self@;
        let cur = self.turn_state.player;
        // Draw a tile; discard those that can never be placed.
        let mut drawn: Option<Tile> = None;
        while drawn.is_none() && self.unclaimed_tiles.len() > 0
            invariant
                self@ == (GameModel { pile: self@.pile, ..m0 }),
                self.board.chain_names == old(self).board.chain_names,
                forall|k: int| 0 <= k < self@.pile.len() ==> (#[trigger] self@.pile[k]).in_grid(),
                drawn is None ==> draw(m0.grid, m0.sizes, self@.pile) == draw(
                    m0.grid,
                    m0.sizes,
                    m0.pile,
                ),
                drawn is Some ==> (self@.pile, drawn) == draw(m0.grid, m0.sizes, m0.pile),
                drawn matches Some(t) ==> t.in_grid(),
            decreases self@.pile.len() + if drawn is None {
                1int
            } else {
                0int
            },
        {
            let ghost before = self@.pile;
            let tile = self.unclaimed_tiles.pop().unwrap();
            assert(before.drop_last() == self@.pile);
            assert(tile == before.last());
            assert(tile.in_grid());
            match self.tile_playability(tile) {
                TilePlayability::PermanentlyUnplayable => {},
                _ => {
                    drawn = Some(tile);
                },
            }
        }
        proof {
            if drawn is None {
                assert(self@.pile.len() == 0);
            }
        }
        if let Some(tile) = drawn {
            self.players[cur].tiles.push(tile);
        }
        let ghost m1 = self@;
        assert(m1.players == m0.players.update(
            cur as int,
            PlayerModel {
                tiles: match drawn {
                    Some(t) => m0.players[cur as int].tiles.push(t),
                    None => m0.players[cur as int].tiles,
                },
                ..m0.players[cur as int]
            },
        ));
        proof {
            assert forall|c: int| 0 <= c < MAX_NUM_CHAINS implies holdings(m1.players, c) == holdings(
                m0.players,
                c,
            ) by {
                assert(holdings(m1.players, c) =~= holdings(m0.players, c));
            }
            assert forall|c: int| 0 <= c < MAX_NUM_CHAINS implies #[trigger] shares_held(m1.players, c)
                + m1.market[c] == STOCKS_PER_CHAIN by {
                assert(holdings(m1.players, c) =~= holdings(m0.players, c));
                assert(shares_held(m0.players, c) + m0.market[c] == STOCKS_PER_CHAIN);
            }
            assert(shares_conserved(m1));
            assert forall|p: int, k: int|
                0 <= p < m1.players.len() && 0 <= k < m1.players[p].tiles.len() implies (
            #[trigger] m1.players[p].tiles[k]).in_grid() by {
                if p != cur {
                    assert(m1.players[p] == m0.players[p]);
                } else if k < m0.players[p].tiles.len() {
                    assert(m1.players[p].tiles[k] == m0.players[p].tiles[k]);
                }
            }
            assert(turn_can_end(m1));
            assert(cur < self.players@.len());
        }
        // Check for the end of the game.
        let max_chain_size = largest_chain(&self.board.chain_sizes);
        let mut is_game_over = max_chain_size > 40;
        if !is_game_over && max_chain_size >= SAFE_CHAIN_SIZE {
            let mut all_safe = true;
            let mut i: usize = 0;
            while i < MAX_NUM_CHAINS
                invariant
                    i <= MAX_NUM_CHAINS,
                    self@ == m1,
                    all_safe == forall|c: int|
                        0 <= c < i ==> #[trigger] m1.sizes[c] >= SAFE_CHAIN_SIZE || m1.sizes[c] == 0,
                decreases MAX_NUM_CHAINS - i,
            {
                let size = self.board.chain_sizes[i];
                assert(size == m1.sizes[i as int]);
                if !(size >= SAFE_CHAIN_SIZE || size == 0) {
                    all_safe = false;
                }
                i = i + 1;
                assert(all_safe == forall|c: int|
                    0 <= c < i ==> #[trigger] m1.sizes[c] >= SAFE_CHAIN_SIZE || m1.sizes[c] == 0);
            }
            is_game_over = all_safe;
        }
        assert(is_game_over == crate::rules::is_game_over(m0.sizes));
        if is_game_over {
            let mut i: usize = 0;
            while i < MAX_NUM_CHAINS
                invariant
                    i <= MAX_NUM_CHAINS,
                    self@ == (GameModel { players: self@.players, ..m1 }),
                    self.board.chain_names == old(self).board.chain_names,
                    self@.players == with_final_bonuses(m1.players, m1.sizes, i as int),
                    forall|p: int|
                        0 <= p < self@.players.len() ==> #[trigger] self@.players[p].cash <= m1.players[p].cash
                            + 20000 * i,
                    turn_can_end(m1),
                decreases MAX_NUM_CHAINS - i,
            {
                let size = self.board.chain_sizes[i];
                if size > 0 {
                    let price = chain_stock_price(i, size);
                    let ghost before = self.players@;
                    proof {
                        assert forall|p: int| 0 <= p < before.len() implies before[p].cash + bonus_for(
                            holdings_of(before, i as int),
                            price as int,
                            p,
                        ) <= usize::MAX by {
                            crate::player::lemma_bonus_bounded(holdings_of(before, i as int), price as int, p);
                            assert(self@.players[p].cash == before[p].cash);
                            lemma_final_bonuses_len(m1.players, m1.sizes, i as int);
                            assert(m1.players[p].cash + FINAL_BONUS_BOUND <= CASH_LIMIT);
                            assert(self@.players[p].cash <= m1.players[p].cash + 20000 * i);
                        }
                    }
                    pay_bonuses(i, price, self.players.as_mut_slice());
                    proof {
                        lemma_paid_view(before, self.players@, i as int, price as int);
                        assert forall|p: int| 0 <= p < self@.players.len() implies #[trigger] self@.players[p].cash
                            <= m1.players[p].cash + 20000 * (i + 1) by {
                            crate::player::lemma_bonus_bounded(holdings_of(before, i as int), price as int, p);
                            assert(players_view(before)[p].cash == before[p].cash);
                        }
                    }
                }
                i = i + 1;
            }
            let mut final_values: Vec<usize> = Vec::new();
            let mut p: usize = 0;
            let ghost paid_players = self@.players;
            proof {
                lemma_final_bonuses_keep_stocks(m1.players, m1.sizes, 7, 0);
            }
            while p < self.players.len()
                invariant
                    p <= self.players@.len(),
                    self@.players == paid_players,
                    paid_players == with_final_bonuses(m1.players, m1.sizes, 7),
                    self@.sizes == m1.sizes,
                    paid_players.len() == m1.players.len(),
                    final_values@.len() == p,
                    forall|q: int|
                        0 <= q < paid_players.len() ==> #[trigger] paid_players[q].cash <= m1.players[q].cash
                            + 20000 * 7,
                    turn_can_end(m1),
                    forall|q: int|
                        0 <= q < p ==> final_values@[q] == value_of(paid_players[q], m1.sizes),
                decreases self.players@.len() - p,
            {
                proof {
                    lemma_final_bonuses_keep_stocks(m1.players, m1.sizes, 7, p as int);
                    crate::rules::lemma_conserved_stocks_bounded(m1, p as int);
                    assert(m1.players[p as int].cash + FINAL_BONUS_BOUND <= CASH_LIMIT);
                    assert(paid_players[p as int].cash <= m1.players[p as int].cash + 20000 * 7);
                }
                let v = self.value_at(p);
                final_values.push(v);
                p = p + 1;
            }
            let ghost values = final_values@;
            self.turn_state.phase = TurnPhase::GameOver(final_values);
            assert(values.map_values(|x: usize| x as int) =~= Seq::new(
                paid_players.len(),
                |q: int| value_of(paid_players[q], m0.sizes),
            ));
            assert(self@.phase == end_turn(m0).phase);
            return;
        }
        assert(self@ == m1);
        assert(cur < self.players@.len());
        // Pass the turn to the next player.
        let num_players = self.players.len();
        let next = if cur + 1 == num_players {
            0
        } else {
            cur + 1
        };
        self.turn_state.player = next;
        let mut playable_tiles: Vec<usize> = Vec::new();
        let mut k: usize = 0;
        let ghost hand = m1.players[next as int].tiles;
        while k < self.players[next].tiles.len()
            invariant
                self@ == (GameModel { current: next as int, ..m1 }),
                self.board.chain_names == old(self).board.chain_names,
                next < self.players@.len(),
                hand == self@.players[next as int].tiles,
                tiles_on_grid(m1),
                k <= hand.len(),
                playable_tiles@ == playable_indices(m1.grid, m1.sizes, hand, k as int),
            decreases hand.len() - k,
        {
            let tile = self.players[next].tiles[k];
            assert(tile == m1.players[next as int].tiles[k as int]);
            if let TilePlayability::Playable = self.tile_playability(tile) {
                playable_tiles.push(k);
            }
            k = k + 1;
        }
        if playable_tiles.len() == 0 {
            self.turn_state.phase = TurnPhase::BuyStock(self.available_stocks());
        } else {
            self.turn_state.phase = TurnPhase::PlaceTile(playable_tiles);
        }
        assert(self@ =~= end_turn(m0));
    }
}

/// Paying final bonuses keeps the number of players.
proof fn lemma_final_bonuses_len(players: Seq<PlayerModel>, sizes: Seq<usize>, k: int)
    ensures
        with_final_bonuses(players, sizes, k).len() == players.len(),
    decreases k,
{
    if k > 0 {
        lemma_final_bonuses_len(players, sizes, k - 1);
    }
}

/// Paying final bonuses changes nobody's shares.
proof fn lemma_final_bonuses_keep_stocks(players: Seq<PlayerModel>, sizes: Seq<usize>, k: int, p: int)
    requires
        0 <= p < players.len(),
    ensures
        with_final_bonuses(players, sizes, k).len() == players.len(),
        with_final_bonuses(players, sizes, k)[p].stocks == players[p].stocks,
    decreases k,
{
    if k > 0 {
        lemma_final_bonuses_keep_stocks(players, sizes, k - 1, p);
    }
}

/// Whether `x` occurs in `v`.
fn contains_index(v: &Vec<usize>, x: usize) -> (r: bool)
    ensures
        r == v@.contains(x),
{
    let mut k: usize = 0;
    while k < v.len()
        invariant
            k <= v@.len(),
            forall|j: int| 0 <= j < k ==> v@[j] != x,
        decreases v@.len() - k,
    {
        if v[k] == x {
            return true;
        }
        k = k + 1;
    }
    false
}

/// The free chain slots, in increasing order.
fn free_chain_slots(sizes: &[usize; MAX_NUM_CHAINS]) -> (r: Vec<usize>)
    ensures
        r@ == free_slots(sizes@, MAX_NUM_CHAINS as int),
{
    let mut r: Vec<usize> = Vec::new();
    let mut i: usize = 0;
    while i < MAX_NUM_CHAINS
        invariant
            i <= MAX_NUM_CHAINS,
            r@ == free_slots(sizes@, i as int),
        decreases MAX_NUM_CHAINS - i,
    {
        if sizes[i] == 0 {
            r.push(i);
        }
        i = i + 1;
    }
    r
}

/// The largest flagged chain, the lowest index winning a tie.
fn largest_flagged_chain(flags: &[bool; MAX_NUM_CHAINS], sizes: &[usize; MAX_NUM_CHAINS]) -> (r:
    Option<usize>)
    ensures
        match r {
            Some(b) => largest_flagged(flags@, sizes@, MAX_NUM_CHAINS as int) == b as int,
            None => largest_flagged(flags@, sizes@, MAX_NUM_CHAINS as int) < 0,
        },
{
    let mut best: Option<usize> = None;
    let mut k: usize = 0;
    while k < MAX_NUM_CHAINS
        invariant
            k <= MAX_NUM_CHAINS,
            match best {
                Some(b) => largest_flagged(flags@, sizes@, k as int) == b as int && b < k,
                None => largest_flagged(flags@, sizes@, k as int) < 0,
            },
        decreases MAX_NUM_CHAINS - k,
    {
        proof {
            crate::rules::lemma_largest_flagged(flags@, sizes@, k as int);
        }
        if flags[k] {
            match best {
                None => {
                    best = Some(k);
                },
                Some(b) => {
                    if sizes[k] > sizes[b] {
                        best = Some(k);
                    }
                },
            }
        }
        k = k + 1;
    }
    best
}

/// The flagged chains, largest first, ties by index.
fn order_by_size(flags: &[bool; MAX_NUM_CHAINS], sizes: &[usize; MAX_NUM_CHAINS]) -> (r: Vec<usize>)
    ensures
        r@ == by_size(flags@, sizes@, MAX_NUM_CHAINS as nat),
{
    let mut remaining = *flags;
    let mut r: Vec<usize> = Vec::new();
    let mut fuel: usize = MAX_NUM_CHAINS;
    while fuel > 0
        invariant
            fuel <= MAX_NUM_CHAINS,
            r@ + by_size(remaining@, sizes@, fuel as nat) == by_size(flags@, sizes@, MAX_NUM_CHAINS as nat),
        decreases fuel,
    {
        match largest_flagged_chain(&remaining, sizes) {
            None => {
                assert(by_size(remaining@, sizes@, fuel as nat) == Seq::<usize>::empty());
                assert(r@ + Seq::<usize>::empty() == r@);
                return r;
            },
            Some(b) => {
                proof {
                    crate::rules::lemma_largest_flagged(remaining@, sizes@, MAX_NUM_CHAINS as int);
                }
                let ghost before = r@;
                let ghost rest = remaining@;
                r.push(b);
                remaining[b] = false;
                assert(by_size(rest, sizes@, fuel as nat) == seq![b] + by_size(
                    remaining@,
                    sizes@,
                    (fuel - 1) as nat,
                ));
                assert(r@ + by_size(remaining@, sizes@, (fuel - 1) as nat) == before + by_size(
                    rest,
                    sizes@,
                    fuel as nat,
                ));
            },
        }
        fuel = fuel - 1;
    }
    assert(by_size(remaining@, sizes@, 0) == Seq::<usize>::empty());
    assert(r@ + Seq::<usize>::empty() == r@);
    r
}

/// The entries of `s` whose chain has `v` tiles, in order.
fn chains_of_size(s: &Vec<usize>, sizes: &[usize; MAX_NUM_CHAINS], v: usize) -> (r: Vec<usize>)
    requires
        forall|k: int| 0 <= k < s@.len() ==> #[trigger] s@[k] < MAX_NUM_CHAINS,
    ensures
        r@ == of_size(s@, sizes@, v),
{
    let mut r: Vec<usize> = Vec::new();
    let mut k: usize = 0;
    while k < s.len()
        invariant
            k <= s@.len(),
            forall|j: int| 0 <= j < s@.len() ==> #[trigger] s@[j] < MAX_NUM_CHAINS,
            r@ == of_size(s@.take(k as int), sizes@, v),
        decreases s@.len() - k,
    {
        assert(s@.take(k + 1).drop_last() == s@.take(k as int));
        if sizes[s[k]] == v {
            r.push(s[k]);
        }
        k = k + 1;
    }
    assert(s@.take(s@.len() as int) == s@);
    r
}

impl GameState {
    /// Repaints the tile of each entry of `nb` (those holding a hotel only, if
    /// `hotels_only`) with `x`.
    fn paint(&mut self, nb: &Vec<(Tile, GridCell)>, x: GridCell, hotels_only: bool)
        requires
            forall|k: int| 0 <= k < nb@.len() ==> (#[trigger] nb@[k]).0.in_grid(),
        ensures
            final(self)@ == (GameModel {
                grid: paint_entries(
                    old(self)@.grid,
                    nb@,
                    x,
                    if hotels_only {
                        |c: GridCell| c == GridCell::Hotel
                    } else {
                        |c: GridCell| true
                    },
                ),
                ..old(self)@
            }),
            final(self).board.chain_names == old(self).board.chain_names,
    {
        let ghost pred = if hotels_only {
            |c: GridCell| c == GridCell::Hotel
        } else {
            |c: GridCell| true
        };
        let mut k: usize = 0;
        while k < nb.len()
            invariant
                k <= nb@.len(),
                forall|j: int| 0 <= j < nb@.len() ==> (#[trigger] nb@[j]).0.in_grid(),
                self@ == (GameModel {
                    grid: paint_entries(old(self)@.grid, nb@.take(k as int), x, pred),
                    ..old(self)@
                }),
                pred == (if hotels_only {
                    |c: GridCell| c == GridCell::Hotel
                } else {
                    |c: GridCell| true
                }),
                self.board.chain_names == old(self).board.chain_names,
            decreases nb@.len() - k,
        {
            assert(nb@.take(k + 1).drop_last() == nb@.take(k as int));
            let (t, c) = nb[k];
            let ghost prev = self@.grid;
            if !hotels_only || c == GridCell::Hotel {
                self.board.grid[t.0][t.1] = x;
                assert(self@.grid =~~= set_cell(prev, t, x));
            }
            assert(nb@.take(k + 1).last() == nb@[k as int]);
            assert(pred(c) == (!hotels_only || c == GridCell::Hotel));
            assert(paint_entries(old(self)@.grid, nb@.take(k + 1), x, pred) == (if pred(c) {
                set_cell(prev, t, x)
            } else {
                prev
            }));
            assert(self@.grid == paint_entries(old(self)@.grid, nb@.take(k + 1), x, pred));
            k = k + 1;
        }
        assert(nb@.take(nb@.len() as int) == nb@);
    }
}

/// Whether some chain has a buyable share.
fn any_buyable(available: &[usize; MAX_NUM_CHAINS]) -> (r: bool)
    ensures
        r == exists|i: int| 0 <= i < MAX_NUM_CHAINS && #[trigger] available@[i] > 0,
{
    let mut i: usize = 0;
    while i < MAX_NUM_CHAINS
        invariant
            i <= MAX_NUM_CHAINS,
            forall|j: int| 0 <= j < i ==> available@[j] == 0,
        decreases MAX_NUM_CHAINS - i,
    {
        if available[i] > 0 {
            return true;
        }
        i = i + 1;
    }
    false
}

impl GameState {
    /// Places the tile at `idx` of the active player's hand; see
    /// [`crate::rules::place_tile`].
    pub fn place_tile(&mut self, idx: usize) -> (r: Result<(), TurnError>)
        requires
            old(self).wf(),
        ensures
            match crate::rules::place_tile(old(self)@, idx) {
                Ok(m) => r is Ok && final(self)@ == m,
                Err(e) => r == Err::<(), TurnError>(e) && *final(self) == *old(self),
            },
            final(self).board.chain_names == old(self).board.chain_names,
    {
        let ok = match &self.turn_state.phase {
            TurnPhase::PlaceTile(valid) => contains_index(valid, idx),
            _ => {
                return Err(TurnError::WrongPhase);
            },
        };
        if !ok {
            return Err(TurnError::InvalidTileIndex(idx));
        }
        let ghost m0 = self@;
        let cur = self.turn_state.player;
        assert(idx < m0.players[cur as int].tiles.len());
        let ghost hand = m0.players[cur as int].tiles;
        let tile = self.players[cur].tiles.remove(idx);
        assert(tile == hand[idx as int]);
        assert(tile.in_grid());
        let ghost m1 = self@;
        assert(m1.players =~= crate::rules::with_hand(m0.players, cur as int, hand.remove(idx as int)));
        let neighbors = grid_neighbors(tile, &self.board.grid);
        proof {
            crate::board::lemma_neighbors_facts(tile, m0.grid);
        }
        if neighbors.len() == 0 {
            self.board.grid[tile.0][tile.1] = GridCell::Hotel;
            assert(self@.grid =~~= set_cell(m0.grid, tile, GridCell::Hotel));
            let available = self.available_stocks();
            if any_buyable(&available) {
                self.turn_state.phase = TurnPhase::BuyStock(available);
            } else {
                proof {
                    lemma_place_keeps_turn_can_end(m0, self@, cur as int, idx as int);
                }
                self.next_player();
            }
            return Ok(());
        }
        let touched = self.board.touched_flags(tile);
        let ghost g = m0.grid;
        let num_touched = count_flags(&touched, Ghost(|c: int| touches(g, tile, c)));
        if num_touched == 0 {
            let free = free_chain_slots(&self.board.chain_sizes);
            self.turn_state.phase = TurnPhase::CreateChain(tile, free);
            return Ok(());
        }
        assert(touched@ =~= touched_flags(g, tile));
        let merging = order_by_size(&touched, &self.board.chain_sizes);
        proof {
            crate::rules::lemma_count_chains_zero(MAX_NUM_CHAINS as int, |c: int| touches(g, tile, c));
            crate::rules::lemma_largest_flagged(touched@, m0.sizes, MAX_NUM_CHAINS as int);
            let pred = |c: int| touches(g, tile, c);
            assert(!forall|c: int| 0 <= c < MAX_NUM_CHAINS ==> !#[trigger] pred(c));
            let w = choose|c: int| 0 <= c < MAX_NUM_CHAINS && #[trigger] pred(c);
            assert(touched@[w]);
            crate::rules::lemma_by_size_chains(touched@, m0.sizes, MAX_NUM_CHAINS as nat);
        }
        if num_touched == 1 {
            let c = merging[0];
            proof {
                crate::rules::lemma_reserve_nonneg(m0, 0);
            }
            self.board.chain_sizes[c] = self.board.chain_sizes[c] + neighbors.len();
            let cell = GridCell::from_chain_idx(c);
            let ghost before_paint = self@.grid;
            self.board.grid[tile.0][tile.1] = cell;
            assert(self@.grid =~~= set_cell(before_paint, tile, cell));
            self.paint(&neighbors, cell, false);
            self.turn_state.phase = TurnPhase::BuyStock(self.available_stocks());
        } else {
            let max_chain_size = self.board.chain_sizes[merging[0]];
            let winner_choices = chains_of_size(&merging, &self.board.chain_sizes, max_chain_size);
            let ghost before_paint = self@.grid;
            self.board.grid[tile.0][tile.1] = GridCell::Dummy;
            assert(self@.grid =~~= set_cell(before_paint, tile, GridCell::Dummy));
            self.paint(&neighbors, GridCell::Dummy, true);
            self.turn_state.phase = TurnPhase::PickWinningChain(winner_choices, merging);
        }
        Ok(())
    }
}

/// After a lone tile is placed from a well-formed state, the turn can end.
pub proof fn lemma_place_keeps_turn_can_end(m0: GameModel, m: GameModel, cur: int, idx: int)
    requires
        well_formed(m0),
        m0.phase is PlaceTile,
        cur == m0.current,
        0 <= idx < m0.players[cur].tiles.len(),
        m == (GameModel {
            grid: m.grid,
            players: crate::rules::with_hand(m0.players, cur, m0.players[cur].tiles.remove(idx)),
            ..m0
        }),
        m.grid.len() == GRID_HEIGHT,
        forall|r: int| 0 <= r < GRID_HEIGHT ==> (#[trigger] m.grid[r]).len() == GRID_WIDTH,
    ensures
        turn_can_end(m),
{
    crate::rules::lemma_reserve_nonneg(m0, 0);
    assert forall|c: int| 0 <= c < MAX_NUM_CHAINS implies #[trigger] shares_held(m.players, c)
        + m.market[c] == STOCKS_PER_CHAIN by {
        assert(holdings(m.players, c) =~= holdings(m0.players, c));
        assert(shares_held(m0.players, c) + m0.market[c] == STOCKS_PER_CHAIN);
    }
    assert forall|p: int, k: int|
        0 <= p < m.players.len() && 0 <= k < m.players[p].tiles.len() implies (
    #[trigger] m.players[p].tiles[k]).in_grid() by {
        if p == cur {
            if k < idx {
                assert(m.players[p].tiles[k] == m0.players[p].tiles[k]);
            } else {
                assert(m.players[p].tiles[k] == m0.players[p].tiles[k + 1]);
            }
        } else {
            assert(m.players[p] == m0.players[p]);
        }
    }
    assert forall|p: int| 0 <= p < m.players.len() implies 0 <= #[trigger] m.players[p].cash
        && m.players[p].cash + FINAL_BONUS_BOUND <= CASH_LIMIT by {
        crate::rules::lemma_reserve_nonneg(m0, p);
        assert(m.players[p].cash == m0.players[p].cash);
    }
    assert forall|c: int| 0 <= c < MAX_NUM_CHAINS implies #[trigger] m.sizes[c] <= crate::rules::SIZE_LIMIT by {
        assert(m0.sizes[c] + crate::rules::size_reserve(m0) <= crate::rules::SIZE_LIMIT);
    }
}

impl GameState {
    /// The deciding player sells `sell_amount` and trades `trade_amount`
    /// shares of the first chain being retired; see [`crate::rules::resolve_merger`].
    pub fn resolve_merger(&mut self, sell_amount: usize, trade_amount: usize) -> (r: Result<
        (),
        TurnError,
    >)
        requires
            old(self).wf(),
        ensures
            match crate::rules::resolve_merger(old(self)@, sell_amount, trade_amount) {
                Ok(m) => r is Ok && final(self)@ == m,
                Err(e) => r == Err::<(), TurnError>(e) && *final(self) == *old(self),
            },
            final(self).board.chain_names == old(self).board.chain_names,
    {
        let ghost m0 = self@;
        let (winner_chain, loser_index, selling_player, num_losers) = match &self.turn_state.phase {
            TurnPhase::ResolveMerger(w, losers, sp) => (*w, losers[0], *sp, losers.len()),
            _ => {
                return Err(TurnError::WrongPhase);
            },
        };
        assert(loser_index < MAX_NUM_CHAINS);
        let loser_price = self.stock_price(loser_index);
        let prev_stocks = self.players[selling_player].stocks[loser_index];
        if sell_amount > prev_stocks || trade_amount > prev_stocks - sell_amount {
            return Err(TurnError::NotEnoughShares);
        }
        let num_not_kept = sell_amount + trade_amount;
        let num_traded = trade_amount / 2;
        if num_traded > self.board.stock_market[winner_chain] {
            return Err(TurnError::NotEnoughMarketShares);
        }
        proof {
            lemma_holdings_bounded(m0, selling_player as int);
            crate::player::lemma_sum_nonneg(holdings(m0.players, loser_index as int));
            assert(shares_held(m0.players, loser_index as int) + m0.market[loser_index as int]
                == STOCKS_PER_CHAIN);
            assert(sell_amount * loser_price <= 30000) by (nonlinear_arith)
                requires
                    sell_amount <= STOCKS_PER_CHAIN,
                    loser_price <= MAX_SHARE_PRICE,
            ;
        }
        let cur = self.turn_state.player;
        let old_cash = self.players[selling_player].cash;
        self.players[selling_player].stocks[loser_index] = prev_stocks - num_not_kept;
        self.players[selling_player].cash = old_cash + loser_price * sell_amount;
        self.board.stock_market[loser_index] = self.board.stock_market[loser_index] + num_not_kept;
        self.board.stock_market[winner_chain] = self.board.stock_market[winner_chain] - num_traded;
        let held_winner = self.players[selling_player].stocks[winner_chain];
        self.players[selling_player].stocks[winner_chain] = held_winner + num_traded;
        let ghost m1 = self@;
        let ghost seller = m0.players[selling_player as int];
        let ghost stocks1 = seller.stocks.update(
            loser_index as int,
            (seller.stocks[loser_index as int] - sell_amount - trade_amount) as usize,
        );
        assert(m1.players =~= m0.players.update(
            selling_player as int,
            PlayerModel {
                cash: seller.cash + loser_price * sell_amount,
                stocks: stocks1.update(
                    winner_chain as int,
                    (stocks1[winner_chain as int] + num_traded) as usize,
                ),
                ..seller
            },
        ));
        if selling_player == cur {
            let ghost before = self.players@;
            proof {
                assert forall|p: int| 0 <= p < before.len() implies before[p].cash + bonus_for(
                    holdings_of(before, loser_index as int),
                    loser_price as int,
                    p,
                ) <= usize::MAX by {
                    crate::player::lemma_bonus_bounded(
                        holdings_of(before, loser_index as int),
                        loser_price as int,
                        p,
                    );
                    lemma_holdings_bounded(m0, p);
                    assert(players_view(before)[p].cash == before[p].cash);
                }
            }
            pay_bonuses(loser_index, loser_price, self.players.as_mut_slice());
            proof {
                lemma_paid_view(before, self.players@, loser_index as int, loser_price as int);
            }
        }
        let num_players = self.players.len();
        let next = if selling_player + 1 == num_players {
            0
        } else {
            selling_player + 1
        };
        if next == cur {
            self.board.chain_sizes[loser_index] = 0;
            if num_losers > 1 {
                if let TurnPhase::ResolveMerger(_, losers, p) = &mut self.turn_state.phase {
                    losers.remove(0);
                    *p = next;
                }
            } else {
                self.turn_state.phase = TurnPhase::BuyStock(self.available_stocks());
            }
        } else {
            if let TurnPhase::ResolveMerger(_, _, p) = &mut self.turn_state.phase {
                *p = next;
            }
        }
        assert(self@ =~= crate::rules::resolve_merger(m0, sell_amount, trade_amount).unwrap());
        Ok(())
    }
}

impl GameState {
    /// The active player buys the shares in `buy_order`, then the turn ends;
    /// see [`crate::rules::buy_stock`].
    pub fn buy_stock(&mut self, buy_order: [usize; MAX_NUM_CHAINS]) -> (r: Result<(), TurnError>)
        requires
            old(self).wf(),
        ensures
            match crate::rules::buy_stock(old(self)@, buy_order@) {
                Ok(m) => r is Ok && final(self)@ == m,
                Err(e) => r == Err::<(), TurnError>(e) && *final(self) == *old(self),
            },
            final(self).board.chain_names == old(self).board.chain_names,
    {
        let ghost m0 = self@;
        let available = match &self.turn_state.phase {
            TurnPhase::BuyStock(a) => *a,
            _ => {
                return Err(TurnError::WrongPhase);
            },
        };
        let ghost order = buy_order@;
        // The number of shares requested, counted up to one past the limit.
        let mut total: usize = 0;
        let mut i: usize = 0;
        while i < MAX_NUM_CHAINS
            invariant
                i <= MAX_NUM_CHAINS,
                order == buy_order@,
                total <= BUY_LIMIT + 1,
                sum_of(order.take(i as int)) <= BUY_LIMIT ==> total == sum_of(order.take(i as int)),
                sum_of(order.take(i as int)) > BUY_LIMIT ==> total == BUY_LIMIT + 1,
            decreases MAX_NUM_CHAINS - i,
        {
            assert(order.take(i + 1).drop_last() == order.take(i as int));
            if total > BUY_LIMIT || buy_order[i] > BUY_LIMIT - total {
                total = BUY_LIMIT + 1;
            } else {
                total = total + buy_order[i];
            }
            i = i + 1;
        }
        assert(order.take(MAX_NUM_CHAINS as int) == order);
        if total > BUY_LIMIT {
            return Err(TurnError::TooManyStocks);
        }
        let mut i: usize = 0;
        while i < MAX_NUM_CHAINS
            invariant
                i <= MAX_NUM_CHAINS,
                m0.phase == PhaseModel::BuyStock(available@),
                m0 == old(self)@,
                *self == *old(self),
                sum_of(buy_order@) <= BUY_LIMIT,
                forall|j: int| 0 <= j < i ==> #[trigger] buy_order@[j] <= available@[j],
                first_short(buy_order@, available@, 0) == first_short(buy_order@, available@, i as int),
            decreases MAX_NUM_CHAINS - i,
        {
            if available[i] < buy_order[i] {
                assert(first_short(buy_order@, available@, i as int) == i);
                assert(first_short(buy_order@, available@, 0) == i);
                assert(old(self)@.phase == PhaseModel::BuyStock(available@));
                assert(!(sum_of(buy_order@) > BUY_LIMIT));
                assert(crate::rules::buy_stock(old(self)@, buy_order@) == Err::<GameModel, TurnError>(
                    TurnError::NotEnoughStocksAvailable(i),
                ));
                return Err(TurnError::NotEnoughStocksAvailable(i));
            }
            i = i + 1;
        }
        proof {
            crate::player::lemma_sum_nonneg(order);
            lemma_order_small(order, MAX_NUM_CHAINS as int);
        }
        let mut cash_spent: usize = 0;
        let mut i: usize = 0;
        while i < MAX_NUM_CHAINS
            invariant
                i <= MAX_NUM_CHAINS,
                order == buy_order@,
                self@ == m0,
                sum_of(order) <= BUY_LIMIT,
                forall|j: int| 0 <= j < MAX_NUM_CHAINS ==> #[trigger] order[j] <= BUY_LIMIT,
                cash_spent == order_cost(m0.sizes, order, i as int),
                cash_spent <= i * 3600,
            decreases MAX_NUM_CHAINS - i,
        {
            let price = self.stock_price(i);
            proof {
                assert(price * order[i as int] <= 3600) by (nonlinear_arith)
                    requires
                        price <= MAX_SHARE_PRICE,
                        order[i as int] <= BUY_LIMIT,
                ;
            }
            cash_spent = cash_spent + price * buy_order[i];
            i = i + 1;
        }
        let cur = self.turn_state.player;
        if cash_spent > self.players[cur].cash {
            return Err(TurnError::NotEnoughCash);
        }
        self.players[cur].cash = self.players[cur].cash - cash_spent;
        let mut i: usize = 0;
        while i < MAX_NUM_CHAINS
            invariant
                i <= MAX_NUM_CHAINS,
                order == buy_order@,
                well_formed(m0),
                m0.phase is BuyStock,
                available@ == m0.phase->BuyStock_0,
                forall|j: int| 0 <= j < MAX_NUM_CHAINS ==> #[trigger] order[j] <= available@[j],
                forall|j: int| 0 <= j < MAX_NUM_CHAINS ==> #[trigger] order[j] <= BUY_LIMIT,
                cur == m0.current,
                cur < self.players@.len(),
                self@ == (GameModel {
                    players: self@.players,
                    market: self@.market,
                    ..m0
                }),
                self.board.chain_names == old(self).board.chain_names,
                self@.players == m0.players.update(
                    cur as int,
                    PlayerModel {
                        cash: m0.players[cur as int].cash - cash_spent,
                        stocks: self@.players[cur as int].stocks,
                        ..m0.players[cur as int]
                    },
                ),
                forall|j: int|
                    0 <= j < MAX_NUM_CHAINS ==> #[trigger] self@.players[cur as int].stocks[j] == if j
                        < i {
                        m0.players[cur as int].stocks[j] + order[j]
                    } else {
                        m0.players[cur as int].stocks[j] as int
                    },
                forall|j: int|
                    0 <= j < MAX_NUM_CHAINS ==> #[trigger] self@.market[j] == if j < i {
                        m0.market[j] - order[j]
                    } else {
                        m0.market[j] as int
                    },
                self@.players[cur as int].stocks.len() == MAX_NUM_CHAINS,
                self@.market.len() == MAX_NUM_CHAINS,
            decreases MAX_NUM_CHAINS - i,
        {
            proof {
                lemma_holdings_bounded(m0, cur as int);
                assert(available@[i as int] <= m0.market[i as int]);
            }
            let held = self.players[cur].stocks[i];
            assert(held == self@.players[cur as int].stocks[i as int]);
            let ghost before = self@.players;
            self.players[cur].stocks[i] = held + buy_order[i];
            assert(self@.players[cur as int].cash == before[cur as int].cash);
            assert(self@.players[cur as int].tiles == before[cur as int].tiles);
            assert(forall|p: int| 0 <= p < before.len() && p != cur ==> #[trigger] self@.players[p] == before[p]);
            assert(self@.players.len() == before.len());
            self.board.stock_market[i] = self.board.stock_market[i] - buy_order[i];
            assert(self@.players =~= m0.players.update(
                cur as int,
                PlayerModel {
                    cash: m0.players[cur as int].cash - cash_spent,
                    stocks: self@.players[cur as int].stocks,
                    ..m0.players[cur as int]
                },
            ));
            i = i + 1;
        }
        let ghost mid = self@;
        proof {
            let buyer = mid.players[cur as int];
            assert(buyer.stocks =~= Seq::new(
                MAX_NUM_CHAINS as nat,
                |j: int| (m0.players[cur as int].stocks[j] + order[j]) as usize,
            ));
            assert(mid.market =~= Seq::new(
                MAX_NUM_CHAINS as nat,
                |j: int| (m0.market[j] - order[j]) as usize,
            ));
            lemma_buy_keeps_turn_can_end(m0, mid, order);
        }
        self.next_player();
        Ok(())
    }
}

/// With at most three shares in all, no single order exceeds three.
proof fn lemma_order_small(order: Seq<usize>, k: int)
    requires
        0 <= k <= order.len(),
        sum_of(order) <= BUY_LIMIT,
    ensures
        forall|j: int| 0 <= j < order.len() ==> #[trigger] order[j] <= BUY_LIMIT,
{
    assert forall|j: int| 0 <= j < order.len() implies #[trigger] order[j] <= BUY_LIMIT by {
        crate::player::lemma_entry_le_sum(order, j);
    }
}

/// After a purchase from a well-formed state, the turn can end.
pub proof fn lemma_buy_keeps_turn_can_end(m0: GameModel, m: GameModel, order: Seq<usize>)
    requires
        well_formed(m0),
        m0.phase is BuyStock,
        order.len() == MAX_NUM_CHAINS,
        forall|j: int| 0 <= j < MAX_NUM_CHAINS ==> #[trigger] order[j] <= m0.market[j],
        m == (GameModel { players: m.players, market: m.market, ..m0 }),
        m.market == Seq::new(MAX_NUM_CHAINS as nat, |j: int| (m0.market[j] - order[j]) as usize),
        m.players.len() == m0.players.len(),
        m.players[m0.current].stocks == Seq::new(
            MAX_NUM_CHAINS as nat,
            |j: int| (m0.players[m0.current].stocks[j] + order[j]) as usize,
        ),
        m.players[m0.current].tiles == m0.players[m0.current].tiles,
        0 <= m.players[m0.current].cash <= m0.players[m0.current].cash,
        forall|p: int| 0 <= p < m.players.len() && p != m0.current ==> #[trigger] m.players[p] == m0.players[p],
    ensures
        turn_can_end(m),
{
    let cur = m0.current;
    lemma_holdings_bounded(m0, cur);
    assert forall|c: int| 0 <= c < MAX_NUM_CHAINS implies #[trigger] shares_held(m.players, c)
        + m.market[c] == STOCKS_PER_CHAIN by {
        let h0 = holdings(m0.players, c);
        assert(h0[cur] <= STOCKS_PER_CHAIN);
        crate::player::lemma_sum_nonneg(h0);
        assert(shares_held(m0.players, c) + m0.market[c] == STOCKS_PER_CHAIN);
        assert(order[c] <= STOCKS_PER_CHAIN);
        assert(holdings(m.players, c) =~= h0.update(cur, (h0[cur] + order[c]) as usize));
        crate::player::lemma_sum_update(h0, cur, (h0[cur] + order[c]) as usize);
        assert(shares_held(m0.players, c) + m0.market[c] == STOCKS_PER_CHAIN);
    }
    assert forall|p: int, k: int|
        0 <= p < m.players.len() && 0 <= k < m.players[p].tiles.len() implies (
    #[trigger] m.players[p].tiles[k]).in_grid() by {
        if p != cur {
            assert(m.players[p] == m0.players[p]);
        }
    }
    assert forall|p: int| 0 <= p < m.players.len() implies 0 <= #[trigger] m.players[p].cash
        && m.players[p].cash + FINAL_BONUS_BOUND <= CASH_LIMIT by {
        crate::rules::lemma_reserve_nonneg(m0, p);
        if p != cur {
            assert(m.players[p] == m0.players[p]);
        }
    }
    assert forall|c: int| 0 <= c < MAX_NUM_CHAINS implies #[trigger] m.sizes[c] <= crate::rules::SIZE_LIMIT by {
        crate::rules::lemma_reserve_nonneg(m0, 0);
        assert(m0.sizes[c] + crate::rules::size_reserve(m0) <= crate::rules::SIZE_LIMIT);
    }
    assert forall|p: int| 0 <= p < m.players.len() implies (#[trigger] m.players[p]).stocks.len()
        == MAX_NUM_CHAINS by {
        if p != cur {
            assert(m.players[p] == m0.players[p]);
        }
    }
}

impl GameState {
    /// Founds chain `chain_index` with the placed tile; see [`crate::rules::create_chain`].
    pub fn create_chain(&mut self, chain_index: usize) -> (r: Result<(), TurnError>)
        requires
            old(self).wf(),
        ensures
            match crate::rules::create_chain(old(self)@, chain_index) {
                Ok(m) => r is Ok && final(self)@ == m,
                Err(e) => r == Err::<(), TurnError>(e) && *final(self) == *old(self),
            },
            final(self).board.chain_names == old(self).board.chain_names,
    {
        let ghost m0 = self@;
        let tile = match &self.turn_state.phase {
            TurnPhase::CreateChain(tile, valid_indices) => {
                if !contains_index(valid_indices, chain_index) {
                    return Err(TurnError::InvalidChainIndex(chain_index));
                }
                *tile
            },
            _ => {
                return Err(TurnError::WrongPhase);
            },
        };
        assert(chain_index < MAX_NUM_CHAINS);
        if self.board.chain_sizes[chain_index] != 0 {
            return Err(TurnError::ChainExists(chain_index));
        }
        let neighbors = grid_neighbors(tile, &self.board.grid);
        proof {
            crate::board::lemma_neighbors_facts(tile, m0.grid);
        }
        self.board.chain_sizes[chain_index] = 1 + neighbors.len();
        let chain = GridCell::from_chain_idx(chain_index);
        let ghost before_paint = self@.grid;
        self.board.grid[tile.0][tile.1] = chain;
        assert(self@.grid =~~= set_cell(before_paint, tile, chain));
        self.paint(&neighbors, chain, false);
        // Founder's bonus: one free share.
        let cur = self.turn_state.player;
        if self.board.stock_market[chain_index] > 0 {
            proof {
                lemma_holdings_bounded(m0, cur as int);
            }
            self.board.stock_market[chain_index] = self.board.stock_market[chain_index] - 1;
            let held = self.players[cur].stocks[chain_index];
            assert(held == m0.players[cur as int].stocks[chain_index as int]);
            let ghost before = self@.players;
            self.players[cur].stocks[chain_index] = held + 1;
            assert(self@.players =~= before.update(
                cur as int,
                PlayerModel {
                    stocks: before[cur as int].stocks.update(chain_index as int, (held + 1) as usize),
                    ..before[cur as int]
                },
            ));
        }
        self.turn_state.phase = TurnPhase::BuyStock(self.available_stocks());
        Ok(())
    }

    /// Picks `chain_index` as the winner of the merger; see
    /// [`crate::rules::pick_winning_chain`].
    pub fn pick_winning_chain(&mut self, chain_index: usize) -> (r: Result<(), TurnError>)
        requires
            old(self).wf(),
        ensures
            match crate::rules::pick_winning_chain(old(self)@, chain_index) {
                Ok(m) => r is Ok && final(self)@ == m,
                Err(e) => r == Err::<(), TurnError>(e) && *final(self) == *old(self),
            },
            final(self).board.chain_names == old(self).board.chain_names,
    {
        let ghost m0 = self@;
        let loser_chains = match &self.turn_state.phase {
            TurnPhase::PickWinningChain(valid_indices, merging_chains) => {
                if !contains_index(valid_indices, chain_index) {
                    return Err(TurnError::InvalidChainIndex(chain_index));
                }
                chains_without(merging_chains, chain_index)
            },
            _ => {
                return Err(TurnError::WrongPhase);
            },
        };
        assert(chain_index < MAX_NUM_CHAINS);
        let winner_chain = GridCell::from_chain_idx(chain_index);
        let ghost pred = |x: GridCell| joins_winner(x, loser_chains@);
        let ghost g0 = m0.grid;
        let mut new_hotels: usize = 0;
        let mut r: usize = 0;
        while r < GRID_HEIGHT
            invariant
                r <= GRID_HEIGHT,
                pred == (|x: GridCell| joins_winner(x, loser_chains@)),
                g0 == m0.grid,
                m0 == old(self)@,
                crate::rules::shape_ok(m0),
                self@ == (GameModel { grid: self@.grid, ..m0 }),
                self.board.chain_names == old(self).board.chain_names,
                new_hotels == count_cells(g0, r as int, pred),
                new_hotels <= r * GRID_WIDTH,
                forall|i: int, j: int|
                    0 <= i < GRID_HEIGHT && 0 <= j < GRID_WIDTH ==> #[trigger] self@.grid[i][j] == if i < r {
                        recolor(g0, pred, winner_chain)[i][j]
                    } else {
                        g0[i][j]
                    },
            decreases GRID_HEIGHT - r,
        {
            let mut c: usize = 0;
            let ghost row_start = new_hotels;
            while c < GRID_WIDTH
                invariant
                    r < GRID_HEIGHT,
                    c <= GRID_WIDTH,
                    pred == (|x: GridCell| joins_winner(x, loser_chains@)),
                    g0 == m0.grid,
                    m0 == old(self)@,
                    crate::rules::shape_ok(m0),
                    self@ == (GameModel { grid: self@.grid, ..m0 }),
                    self.board.chain_names == old(self).board.chain_names,
                    row_start == count_cells(g0, r as int, pred),
                    row_start <= r * GRID_WIDTH,
                    new_hotels == row_start + count_row(g0[r as int], c as int, pred),
                    new_hotels <= row_start + c,
                    forall|i: int, j: int|
                        0 <= i < GRID_HEIGHT && 0 <= j < GRID_WIDTH ==> #[trigger] self@.grid[i][j] == if i < r || (
                        i == r && j < c) {
                            recolor(g0, pred, winner_chain)[i][j]
                        } else {
                            g0[i][j]
                        },
                decreases GRID_WIDTH - c,
            {
                let cell = self.board.grid[r][c];
                assert(self@.grid[r as int][c as int] == g0[r as int][c as int]);
                assert(cell == g0[r as int][c as int]);
                let joins = if cell == GridCell::Dummy {
                    true
                } else if let Some(idx) = cell.to_chain_index() {
                    contains_index(&loser_chains, idx)
                } else {
                    false
                };
                assert(joins == pred(cell));
                let ghost prev = self@.grid;
                if joins {
                    self.board.grid[r][c] = winner_chain;
                    new_hotels = new_hotels + 1;
                    assert(self@.grid =~~= set_cell(prev, Tile(r, c), winner_chain));
                }
                c = c + 1;
            }
            r = r + 1;
        }
        assert(self@.grid =~~= recolor(g0, pred, winner_chain));
        proof {
            crate::rules::lemma_reserve_nonneg(m0, 0);
            assert(m0.sizes[chain_index as int] + crate::rules::size_reserve(m0) <= crate::rules::SIZE_LIMIT);
        }
        self.board.chain_sizes[chain_index] = self.board.chain_sizes[chain_index] + new_hotels;
        let cur = self.turn_state.player;
        self.turn_state.phase = TurnPhase::ResolveMerger(chain_index, loser_chains, cur);
        Ok(())
    }
}

/// The entries of `s` other than `x`, in order.
fn chains_without(s: &Vec<usize>, x: usize) -> (r: Vec<usize>)
    ensures
        r@ == without(s@, x),
{
    let mut r: Vec<usize> = Vec::new();
    let mut k: usize = 0;
    while k < s.len()
        invariant
            k <= s@.len(),
            r@ == without(s@.take(k as int), x),
        decreases s@.len() - k,
    {
        assert(s@.take(k + 1).drop_last() == s@.take(k as int));
        if s[k] != x {
            r.push(s[k]);
        }
        k = k + 1;
    }
    assert(s@.take(s@.len() as int) == s@);
    r
}

impl GameState {
    /// Applies one action of the active player. Returns whether the game is
    /// now over, or why the action was rejected, in which case nothing changed.
    pub fn take_turn(&mut self, action: TurnAction) -> (r: Result<bool, TurnError>)
        requires
            old(self).wf(),
        ensures
            match crate::rules::step(old(self)@, action) {
                Ok(m) => r == Ok::<bool, TurnError>(m.phase is GameOver) && final(self)@ == m,
                Err(e) => r == Err::<bool, TurnError>(e) && *final(self) == *old(self),
            },
            final(self).wf(),
            final(self).board.chain_names == old(self).board.chain_names,
    {
        let ghost m0 = self@;
        let ghost a = action;
        let result = match action {
            TurnAction::PlaceTile(idx) => self.place_tile(idx),
            TurnAction::CreateChain(idx) => self.create_chain(idx),
            TurnAction::PickWinningChain(idx) => self.pick_winning_chain(idx),
            TurnAction::ResolveMerger(sell, trade) => self.resolve_merger(sell, trade),
            TurnAction::BuyStock(stocks) => self.buy_stock(stocks),
        };
        match result {
            Ok(()) => {
                proof {
                    crate::laws::lemma_step_preserves_wf(m0, a);
                    crate::chain_cells::lemma_step_keeps_cells(m0, a);
                }
                Ok(matches!(self.turn_state.phase, TurnPhase::GameOver(_)))
            },
            Err(e) => Err(e),
        }
    }

    /// The number of tiles left to draw.
    pub fn num_unclaimed_tiles(&self) -> (r: usize)
        ensures
            r == self@.pile.len(),
    {
        self.unclaimed_tiles.len()
    }

    /// Assembles a game from its parts.
    pub fn from_parts(
        board: BoardState,
        players: Vec<Player>,
        turn_state: TurnState,
        unclaimed_tiles: Vec<Tile>,
    ) -> (r: GameState)
        ensures
            r.board == board,
            r.players == players,
            r.turn_state == turn_state,
            r@.pile == unclaimed_tiles@,
    {
        GameState { board, players, turn_state, unclaimed_tiles }
    }
}

/// Cash each player starts with.
pub const STARTING_CASH: usize = 6000;

/// Tiles in each hand.
pub const HAND_SIZE: usize = 6;

/// The most players a game can seat: each needs a hand and a starting hotel.
pub const MAX_PLAYERS: usize = 15;

/// Every grid position, row by row.
fn all_tiles() -> (r: Vec<Tile>)
    ensures
        r@.len() == GRID_HEIGHT * GRID_WIDTH,
        forall|k: int| 0 <= k < r@.len() ==> (#[trigger] r@[k]).in_grid(),
        r@.no_duplicates(),
        forall|t: Tile| t.in_grid() ==> r@.contains(t),
{
    let mut tiles: Vec<Tile> = Vec::new();
    let mut row: usize = 0;
    while row < GRID_HEIGHT
        invariant
            row <= GRID_HEIGHT,
            tiles@.len() == row * GRID_WIDTH,
            forall|k: int| 0 <= k < tiles@.len() ==> (#[trigger] tiles@[k]).in_grid(),
            forall|k: int| 0 <= k < tiles@.len() ==> (#[trigger] tiles@[k]).0 * GRID_WIDTH + tiles@[k].1 == k,
        decreases GRID_HEIGHT - row,
    {
        let mut col: usize = 0;
        while col < GRID_WIDTH
            invariant
                row < GRID_HEIGHT,
                col <= GRID_WIDTH,
                tiles@.len() == row * GRID_WIDTH + col,
                forall|k: int| 0 <= k < tiles@.len() ==> (#[trigger] tiles@[k]).in_grid(),
                forall|k: int| 0 <= k < tiles@.len() ==> (#[trigger] tiles@[k]).0 * GRID_WIDTH + tiles@[k].1 == k,
            decreases GRID_WIDTH - col,
        {
            tiles.push(Tile(row, col));
            col = col + 1;
        }
        row = row + 1;
    }
    assert forall|i: int, j: int| 0 <= i < j < tiles@.len() implies tiles@[i] != tiles@[j] by {
        assert(tiles@[i].0 * GRID_WIDTH + tiles@[i].1 == i);
        assert(tiles@[j].0 * GRID_WIDTH + tiles@[j].1 == j);
    }
    assert forall|t: Tile| t.in_grid() implies tiles@.contains(t) by {
        let (a, b) = (t.0 as int, t.1 as int);
        let k = a * 12 + b;
        assert(0 <= k < 108) by (nonlinear_arith)
            requires
                0 <= a < 9,
                0 <= b < 12,
                k == a * 12 + b,
        ;
        let u = tiles@[k];
        assert(u.0 * GRID_WIDTH + u.1 == k);
        assert(u.in_grid());
        let (c, d) = (u.0 as int, u.1 as int);
        assert(c == a && d == b) by (nonlinear_arith)
            requires
                c * 12 + d == a * 12 + b,
                0 <= b < 12,
                0 <= d < 12,
                0 <= a,
                0 <= c,
        ;
        assert(u == t);
    }
    tiles
}

/// The sum of `n` copies of `v`.
proof fn lemma_sum_ints_const(s: Seq<int>, v: int)
    requires
        forall|i: int| 0 <= i < s.len() ==> s[i] == v,
    ensures
        sum_ints(s) == s.len() * v,
    decreases s.len(),
{
    if s.len() > 0 {
        lemma_sum_ints_const(s.drop_last(), v);
        assert((s.len() - 1) * v + v == s.len() * v) by (nonlinear_arith);
    }
}

impl GameState {
    /// A new game for `num_players`: the tiles are shuffled, six are dealt
    /// to each player, one more per player is placed as a hotel, and a random
    /// player starts.
    pub fn new(num_players: usize, rng: &mut StdRng, chain_names: [String; MAX_NUM_CHAINS]) -> (r:
        GameState)
        requires
            1 <= num_players <= MAX_PLAYERS,
        ensures
            r.wf(),
            r.board.chain_names == chain_names,
            r@.players.len() == num_players,
            forall|p: int|
                0 <= p < num_players ==> {
                    &&& (#[trigger] r@.players[p]).cash == STARTING_CASH
                    &&& r@.players[p].tiles.len() == HAND_SIZE
                    &&& forall|c: int| 0 <= c < MAX_NUM_CHAINS ==> r@.players[p].stocks[c] == 0
                },
            forall|c: int|
                0 <= c < MAX_NUM_CHAINS ==> #[trigger] r@.sizes[c] == 0 && r@.market[c]
                    == STOCKS_PER_CHAIN,
            forall|i: int, j: int|
                0 <= i < GRID_HEIGHT && 0 <= j < GRID_WIDTH ==> #[trigger] r@.grid[i][j]
                    == GridCell::Empty || r@.grid[i][j] == GridCell::Hotel,
            r@.pile.len() == GRID_HEIGHT * GRID_WIDTH - (HAND_SIZE + 1) * num_players,
            r@.phase == PhaseModel::PlaceTile(seq![0usize, 1, 2, 3, 4, 5]),
            crate::chain_cells::cells_consistent(r@),
            crate::rules::count_cells(r@.grid, GRID_HEIGHT as int, |c: GridCell| c == GridCell::Hotel)
                == num_players,
            // Each grid tile is either held, once, in a hand or in the pile, or a hotel.
            forall|t: Tile|
                t.in_grid() ==> (crate::chain_cells::held(r@, t) <==> r@.grid[t.0 as int][t.1 as int]
                    == GridCell::Empty),
    {
        let mut unclaimed_tiles = all_tiles();
        let ghost all = unclaimed_tiles@;
        shuffle_tiles(&mut unclaimed_tiles, rng);
        proof {
            assert forall|k: int| 0 <= k < unclaimed_tiles@.len() implies (
            #[trigger] unclaimed_tiles@[k]).in_grid() by {
                let t = unclaimed_tiles@[k];
                vstd::seq_lib::to_multiset_contains(unclaimed_tiles@, t);
                vstd::seq_lib::to_multiset_contains(all, t);
                let j = choose|j: int| 0 <= j < all.len() && all[j] == t;
            }
            all.lemma_multiset_has_no_duplicates();
            unclaimed_tiles@.lemma_multiset_has_no_duplicates_conv();
            assert forall|t: Tile| t.in_grid() implies unclaimed_tiles@.contains(t) by {
                vstd::seq_lib::to_multiset_contains(unclaimed_tiles@, t);
                vstd::seq_lib::to_multiset_contains(all, t);
            }
        }
        let ghost shuffled = unclaimed_tiles@;
        let ghost total = (GRID_HEIGHT * GRID_WIDTH) as int;
        let mut players: Vec<Player> = Vec::new();
        let mut i: usize = 0;
        while i < num_players
            invariant
                i <= num_players <= MAX_PLAYERS,
                unclaimed_tiles@.len() == GRID_HEIGHT * GRID_WIDTH - HAND_SIZE * i,
                forall|k: int| 0 <= k < unclaimed_tiles@.len() ==> (#[trigger] unclaimed_tiles@[k]).in_grid(),
                shuffled.len() == total,
                total == GRID_HEIGHT * GRID_WIDTH,
                unclaimed_tiles@ == shuffled.take(total - HAND_SIZE * i),
                forall|p: int|
                    0 <= p < i ==> (#[trigger] players@[p]).tiles@ == shuffled.subrange(
                        total - HAND_SIZE * (p + 1),
                        total - HAND_SIZE * p,
                    ),
                players@.len() == i,
                forall|p: int|
                    0 <= p < i ==> {
                        &&& (#[trigger] players@[p]).cash == STARTING_CASH
                        &&& players@[p].tiles@.len() == HAND_SIZE
                        &&& forall|c: int| 0 <= c < MAX_NUM_CHAINS ==> players@[p].stocks@[c] == 0
                        &&& forall|k: int|
                            0 <= k < players@[p].tiles@.len() ==> (#[trigger] players@[p].tiles@[k]).in_grid()
                    },
            decreases num_players - i,
        {
            let ghost before = unclaimed_tiles@;
            let len = unclaimed_tiles.len();
            let hand = unclaimed_tiles.split_off(len - HAND_SIZE);
            assert forall|k: int| 0 <= k < hand@.len() implies (#[trigger] hand@[k]).in_grid() by {
                assert(hand@[k] == before[len - HAND_SIZE + k]);
            }
            assert forall|k: int| 0 <= k < unclaimed_tiles@.len() implies (
            #[trigger] unclaimed_tiles@[k]).in_grid() by {
                assert(unclaimed_tiles@[k] == before[k]);
            }
            assert(hand@ == shuffled.subrange(total - HAND_SIZE * (i + 1), total - HAND_SIZE * i));
            assert(unclaimed_tiles@ == shuffled.take(total - HAND_SIZE * (i + 1)));
            players.push(Player::new(STARTING_CASH, hand));
            i = i + 1;
        }
        let mut grid = [[GridCell::Empty; GRID_WIDTH]; GRID_HEIGHT];
        proof {
            crate::chain_cells::lemma_count_cells_none(
                grid_view(grid),
                GRID_HEIGHT as int,
                |c: GridCell| c == GridCell::Hotel,
            );
        }
        let mut i: usize = 0;
        while i < num_players
            invariant
                i <= num_players <= MAX_PLAYERS,
                unclaimed_tiles@.len() == GRID_HEIGHT * GRID_WIDTH - HAND_SIZE * num_players - i,
                forall|k: int| 0 <= k < unclaimed_tiles@.len() ==> (#[trigger] unclaimed_tiles@[k]).in_grid(),
                forall|a: int, b: int|
                    0 <= a < GRID_HEIGHT && 0 <= b < GRID_WIDTH ==> #[trigger] grid_view(grid)[a][b]
                        == GridCell::Empty || grid_view(grid)[a][b] == GridCell::Hotel,
                shuffled.len() == total,
                total == GRID_HEIGHT * GRID_WIDTH,
                shuffled.no_duplicates(),
                forall|k: int| 0 <= k < shuffled.len() ==> (#[trigger] shuffled[k]).in_grid(),
                unclaimed_tiles@ == shuffled.take(total - HAND_SIZE * num_players - i),
                crate::rules::count_cells(grid_view(grid), GRID_HEIGHT as int, |c: GridCell| c == GridCell::Hotel)
                    == i,
                forall|j: int|
                    total - HAND_SIZE * num_players - i <= j < total - HAND_SIZE * num_players ==> crate::board::cell_at(
                        grid_view(grid),
                        (#[trigger] shuffled[j]).0 as int,
                        shuffled[j].1 as int,
                    ) == GridCell::Hotel,
                forall|j: int|
                    0 <= j < total && (j < total - HAND_SIZE * num_players - i || j >= total - HAND_SIZE
                        * num_players) ==> crate::board::cell_at(
                        grid_view(grid),
                        (#[trigger] shuffled[j]).0 as int,
                        shuffled[j].1 as int,
                    ) == GridCell::Empty,
            decreases num_players - i,
        {
            let ghost before = unclaimed_tiles@;
            let t = unclaimed_tiles.pop().unwrap();
            assert(t == before.last());
            assert forall|k: int| 0 <= k < unclaimed_tiles@.len() implies (
            #[trigger] unclaimed_tiles@[k]).in_grid() by {
                assert(unclaimed_tiles@[k] == before[k]);
            }
            let ghost prev = grid_view(grid);
            let ghost popped = total - HAND_SIZE * num_players - i - 1;
            assert(t == shuffled[popped]);
            proof {
                assert(crate::board::cell_at(prev, t.0 as int, t.1 as int) == GridCell::Empty);
                crate::chain_cells::lemma_count_set_cell(prev, t, GridCell::Hotel, |c: GridCell| c == GridCell::Hotel);
            }
            grid[t.0][t.1] = GridCell::Hotel;
            assert(grid_view(grid) =~~= set_cell(prev, t, GridCell::Hotel));
            assert forall|j: int|
                total - HAND_SIZE * num_players - (i + 1) <= j < total - HAND_SIZE * num_players implies crate::board::cell_at(
                grid_view(grid),
                (#[trigger] shuffled[j]).0 as int,
                shuffled[j].1 as int,
            ) == GridCell::Hotel by {
                if j != popped {
                    assert(shuffled[j] != shuffled[popped]);
                }
            }
            assert forall|j: int|
                0 <= j < total && (j < popped || j >= total - HAND_SIZE * num_players) implies crate::board::cell_at(
                grid_view(grid),
                (#[trigger] shuffled[j]).0 as int,
                shuffled[j].1 as int,
            ) == GridCell::Empty by {
                assert(shuffled[j] != shuffled[popped]);
            }
            assert(unclaimed_tiles@ == shuffled.take(popped));
            i = i + 1;
        }
        let board = BoardState {
            grid,
            chain_sizes: [0; MAX_NUM_CHAINS],
            stock_market: [STOCKS_PER_CHAIN; MAX_NUM_CHAINS],
            chain_names,
        };
        let player = random_below(rng, num_players);
        let mut offered: Vec<usize> = Vec::new();
        let mut k: usize = 0;
        while k < HAND_SIZE
            invariant
                k <= HAND_SIZE,
                offered@.len() == k,
                forall|j: int| 0 <= j < k ==> #[trigger] offered@[j] == j,
            decreases HAND_SIZE - k,
        {
            offered.push(k);
            k = k + 1;
        }
        assert(offered@ =~= seq![0usize, 1, 2, 3, 4, 5]);
        let game = GameState {
            board,
            players,
            turn_state: TurnState { player, phase: TurnPhase::PlaceTile(offered) },
            unclaimed_tiles,
        };
        proof {
            let m = game@;
            let hands = Seq::new(m.players.len(), |p: int| m.players[p].tiles.len() as int);
            lemma_sum_ints_const(hands, HAND_SIZE as int);
            assert(tiles_left(m) == GRID_HEIGHT * GRID_WIDTH - num_players);
            assert forall|c: int| 0 <= c < MAX_NUM_CHAINS implies #[trigger] shares_held(m.players, c)
                + m.market[c] == STOCKS_PER_CHAIN by {
                let h = holdings(m.players, c);
                assert(h =~= Seq::new(m.players.len(), |p: int| 0usize));
                lemma_sum_zero(h);
            }
            assert forall|k: int| 0 <= k < HAND_SIZE implies playability(
                m.grid,
                m.sizes,
                m.players[m.current].tiles[k],
            ) == TilePlayability::Playable by {
                assert(m.players[m.current].tiles[k].in_grid());
                crate::laws::lemma_no_chains_playable(m.grid, m.sizes, m.players[m.current].tiles[k]);
            }
            assert(m.phase == PhaseModel::PlaceTile(seq![0usize, 1, 2, 3, 4, 5]));
            let offered_seq = seq![0usize, 1, 2, 3, 4, 5];
            assert forall|k: int| 0 <= k < 6 implies (#[trigger] offered_seq[k]) == k by {}
            let hand_start = |p: int| total - HAND_SIZE * (p + 1);
            assert forall|p: int, k: int| 0 <= p < m.players.len() && 0 <= k < m.players[p].tiles.len() implies
                #[trigger] m.players[p].tiles[k] == shuffled[hand_start(p) + k] by {
                assert(m.players[p].tiles == game.players@[p].tiles@);
            }
            assert(crate::chain_cells::tiles_fresh(m)) by {
                assert forall|p: int, q: int, k: int, j: int|
                    0 <= p < m.players.len() && 0 <= q < m.players.len() && 0 <= k < m.players[p].tiles.len()
                        && 0 <= j < m.players[q].tiles.len() && (p != q || k != j) implies #[trigger] m.players[p].tiles[k]
                        != #[trigger] m.players[q].tiles[j] by {
                    assert(m.players[p].tiles[k] == shuffled[hand_start(p) + k]);
                    assert(m.players[q].tiles[j] == shuffled[hand_start(q) + j]);
                }
                assert forall|p: int, k: int, j: int|
                    0 <= p < m.players.len() && 0 <= k < m.players[p].tiles.len() && 0 <= j < m.pile.len()
                        implies #[trigger] m.players[p].tiles[k] != #[trigger] m.pile[j] by {
                    assert(m.players[p].tiles[k] == shuffled[hand_start(p) + k]);
                    assert(m.pile[j] == shuffled[j]);
                }
                assert forall|p: int, k: int| 0 <= p < m.players.len() && 0 <= k < m.players[p].tiles.len() implies
                    crate::board::cell_at(m.grid, (#[trigger] m.players[p].tiles[k]).0 as int, m.players[p].tiles[k].1 as int)
                        == GridCell::Empty by {
                    assert(m.players[p].tiles[k] == shuffled[hand_start(p) + k]);
                }
                assert forall|k: int| 0 <= k < m.pile.len() implies crate::board::cell_at(
                    m.grid,
                    (#[trigger] m.pile[k]).0 as int,
                    m.pile[k].1 as int,
                ) == GridCell::Empty by {
                    assert(m.pile[k] == shuffled[k]);
                }
            }
            assert forall|c: int| 0 <= c < MAX_NUM_CHAINS implies !crate::chain_cells::has_cells(m.grid, c) by {
                if crate::chain_cells::has_cells(m.grid, c) {
                    let (a, b) = choose|a: int, b: int|
                        0 <= a < GRID_HEIGHT && 0 <= b < GRID_WIDTH && #[trigger] m.grid[a][b] == crate::board::chain_cell(c);
                    crate::chain_cells::lemma_chain_cells(c, 0);
                }
            }
            assert forall|t: Tile| t.in_grid() implies (crate::chain_cells::held(m, t) <==> m.grid[t.0 as int][t.1 as int]
                == GridCell::Empty) by {
                let j = choose|j: int| 0 <= j < shuffled.len() && shuffled[j] == t;
                let pile_len = total - (HAND_SIZE + 1) * num_players;
                if j < pile_len {
                    assert(m.pile[j] == t);
                    assert(m.pile.contains(t));
                } else if j >= total - HAND_SIZE * num_players {
                    let p = (total - 1 - j) / 6;
                    assert(0 <= p < num_players && hand_start(p) <= j < hand_start(p) + 6) by (nonlinear_arith)
                        requires
                            p == (total - 1 - j) / 6,
                            total - 6 * num_players <= j < total,
                            hand_start(p) == total - 6 * (p + 1),
                    ;
                    let k = j - hand_start(p);
                    assert(m.players[p].tiles[k] == shuffled[hand_start(p) + k]);
                    assert(m.players[p].tiles[k] == t);
                } else {
                    assert(m.grid[t.0 as int][t.1 as int] == GridCell::Hotel);
                    if crate::chain_cells::held(m, t) {
                        if m.pile.contains(t) {
                            let q = choose|q: int| 0 <= q < m.pile.len() && m.pile[q] == t;
                            assert(crate::board::cell_at(m.grid, m.pile[q].0 as int, m.pile[q].1 as int) == GridCell::Empty);
                        } else {
                            let (p, k) = choose|p: int, k: int|
                                0 <= p < m.players.len() && 0 <= k < m.players[p].tiles.len() && #[trigger] m.players[p].tiles[k] == t;
                            assert(crate::board::cell_at(m.grid, m.players[p].tiles[k].0 as int, m.players[p].tiles[k].1 as int)
                                == GridCell::Empty);
                        }
                    }
                }
            }
        }
        game
    }
}

/// A sequence of zeros sums to zero.
proof fn lemma_sum_zero(s: Seq<usize>)
    requires
        forall|i: int| 0 <= i < s.len() ==> s[i] == 0,
    ensures
        sum_of(s) == 0,
    decreases s.len(),
{
    if s.len() > 0 {
        lemma_sum_zero(s.drop_last());
    }
}

} // verus!
