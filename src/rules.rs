//! The rules as mathematics: a model of the game and each transition of the
//! turn-phase state machine as a function on it.
use vstd::prelude::*;

use crate::board::{
    chain_cell, chain_of, neighbors_of, share_price, GridCell, Tile, BUY_LIMIT, GRID_HEIGHT,
    GRID_WIDTH, MAX_NUM_CHAINS, SAFE_CHAIN_SIZE, STOCKS_PER_CHAIN,
};
use crate::game::{TilePlayability, TurnAction, TurnError};
use crate::player::{bonus_for, max_of, sum_of};

verus! {

/// The grid as rows of cells.
pub type GridModel = Seq<Seq<GridCell>>;

/// A player: cash, shares per chain and hand.
pub struct PlayerModel {
    pub cash: int,
    pub stocks: Seq<usize>,
    pub tiles: Seq<Tile>,
}

/// The phase of the turn, with its payload.
pub enum PhaseModel {
    PlaceTile(Seq<usize>),
    CreateChain(Tile, Seq<usize>),
    PickWinningChain(Seq<usize>, Seq<usize>),
    ResolveMerger(int, Seq<usize>, int),
    BuyStock(Seq<usize>),
    GameOver(Seq<int>),
}

/// The whole game.
pub struct GameModel {
    pub grid: GridModel,
    pub sizes: Seq<usize>,
    pub market: Seq<usize>,
    pub players: Seq<PlayerModel>,
    pub current: int,
    pub phase: PhaseModel,
    pub pile: Seq<Tile>,
}

// ----- Board queries -----

pub open spec fn set_cell(g: GridModel, t: Tile, x: GridCell) -> GridModel {
    g.update(t.0 as int, g[t.0 as int].update(t.1 as int, x))
}

/// `g` with the tile of every entry of `nb` whose cell satisfies `pred` set to `x`.
pub open spec fn paint_entries(
    g: GridModel,
    nb: Seq<(Tile, GridCell)>,
    x: GridCell,
    pred: spec_fn(GridCell) -> bool,
) -> GridModel
    decreases nb.len(),
{
    if nb.len() == 0 {
        g
    } else {
        let g1 = paint_entries(g, nb.drop_last(), x, pred);
        if pred(nb.last().1) {
            set_cell(g1, nb.last().0, x)
        } else {
            g1
        }
    }
}

/// Some neighbour of `t` belongs to chain `c`.
pub open spec fn touches(g: GridModel, t: Tile, c: int) -> bool {
    exists|k: int|
        0 <= k < neighbors_of(t, g).len() && chain_of(#[trigger] neighbors_of(t, g)[k].1) == Some(c)
}

/// How many of the chains `0..k` satisfy `pred`.
pub open spec fn count_chains(k: int, pred: spec_fn(int) -> bool) -> nat
    decreases k,
{
    if k <= 0 {
        0
    } else {
        count_chains(k - 1, pred) + if pred(k - 1) {
            1nat
        } else {
            0nat
        }
    }
}

/// The number of distinct chains that `t` touches.
pub open spec fn touched_chains(g: GridModel, t: Tile) -> nat {
    count_chains(MAX_NUM_CHAINS as int, |c: int| touches(g, t, c))
}

/// The number of distinct safe chains that `t` touches.
pub open spec fn touched_safe_chains(g: GridModel, sizes: Seq<usize>, t: Tile) -> nat {
    count_chains(
        MAX_NUM_CHAINS as int,
        |c: int| touches(g, t, c) && sizes[c] >= SAFE_CHAIN_SIZE,
    )
}

/// Some chain slot is free.
pub open spec fn has_free_slot(sizes: Seq<usize>) -> bool {
    exists|c: int| 0 <= c < MAX_NUM_CHAINS && #[trigger] sizes[c] == 0
}

/// How tile `t` can be used: it may not merge two safe chains, nor found a
/// chain when all slots are taken.
pub open spec fn playability(g: GridModel, sizes: Seq<usize>, t: Tile) -> TilePlayability {
    if neighbors_of(t, g).len() == 0 {
        TilePlayability::Playable
    } else if touched_chains(g, t) == 0 {
        if has_free_slot(sizes) {
            TilePlayability::Playable
        } else {
            TilePlayability::TemporarilyUnplayable
        }
    } else if touched_safe_chains(g, sizes, t) <= 1 {
        TilePlayability::Playable
    } else {
        TilePlayability::PermanentlyUnplayable
    }
}

/// The number of shares of chain `i` that can be bought: the market's stock,
/// once the chain has at least two tiles.
pub open spec fn buyable(sizes: Seq<usize>, market: Seq<usize>, i: int) -> usize {
    if market[i] > 0 && sizes[i] > 1 {
        market[i]
    } else {
        0
    }
}

pub open spec fn buyable_list(m: GameModel) -> Seq<usize> {
    Seq::new(MAX_NUM_CHAINS as nat, |i: int| buyable(m.sizes, m.market, i))
}

/// The free chain slots among `0..k`, in increasing order.
pub open spec fn free_slots(sizes: Seq<usize>, k: int) -> Seq<usize>
    decreases k,
{
    if k <= 0 {
        Seq::empty()
    } else if sizes[k - 1] == 0 {
        free_slots(sizes, k - 1).push((k - 1) as usize)
    } else {
        free_slots(sizes, k - 1)
    }
}

/// Among the chains `0..k` whose flag is set, the largest; the lowest index
/// wins a tie; -1 if no flag is set.
pub open spec fn largest_flagged(flags: Seq<bool>, sizes: Seq<usize>, k: int) -> int
    decreases k,
{
    if k <= 0 {
        -1
    } else {
        let b = largest_flagged(flags, sizes, k - 1);
        if flags[k - 1] && (b < 0 || sizes[k - 1] > sizes[b]) {
            k - 1
        } else {
            b
        }
    }
}

/// The flagged chains, largest first, ties by index.
pub open spec fn by_size(flags: Seq<bool>, sizes: Seq<usize>, fuel: nat) -> Seq<usize>
    decreases fuel,
{
    let b = largest_flagged(flags, sizes, MAX_NUM_CHAINS as int);
    if fuel == 0 || b < 0 {
        Seq::empty()
    } else {
        seq![b as usize] + by_size(flags.update(b, false), sizes, (fuel - 1) as nat)
    }
}

/// Which chains `t` touches.
pub open spec fn touched_flags(g: GridModel, t: Tile) -> Seq<bool> {
    Seq::new(MAX_NUM_CHAINS as nat, |c: int| touches(g, t, c))
}

/// The chains that `t` would merge, largest first, ties by index.
pub open spec fn merging_chains(g: GridModel, sizes: Seq<usize>, t: Tile) -> Seq<usize> {
    by_size(touched_flags(g, t), sizes, MAX_NUM_CHAINS as nat)
}

/// The entries of `s` whose chain has size `v`, in order.
pub open spec fn of_size(s: Seq<usize>, sizes: Seq<usize>, v: usize) -> Seq<usize>
    decreases s.len(),
{
    if s.len() == 0 {
        Seq::empty()
    } else if sizes[s.last() as int] == v {
        of_size(s.drop_last(), sizes, v).push(s.last())
    } else {
        of_size(s.drop_last(), sizes, v)
    }
}

/// `s` without the entries equal to `x`, in order.
pub open spec fn without(s: Seq<usize>, x: usize) -> Seq<usize>
    decreases s.len(),
{
    if s.len() == 0 {
        Seq::empty()
    } else if s.last() == x {
        without(s.drop_last(), x)
    } else {
        without(s.drop_last(), x).push(s.last())
    }
}

/// The indices among the first `k` tiles of `hand` that are playable.
pub open spec fn playable_indices(g: GridModel, sizes: Seq<usize>, hand: Seq<Tile>, k: int) -> Seq<
    usize,
>
    decreases k,
{
    if k <= 0 {
        Seq::empty()
    } else if playability(g, sizes, hand[k - 1]) is Playable {
        playable_indices(g, sizes, hand, k - 1).push((k - 1) as usize)
    } else {
        playable_indices(g, sizes, hand, k - 1)
    }
}

/// How many cells of the first `k` of `row` satisfy `pred`.
pub open spec fn count_row(row: Seq<GridCell>, k: int, pred: spec_fn(GridCell) -> bool) -> nat
    decreases k,
{
    if k <= 0 {
        0
    } else {
        count_row(row, k - 1, pred) + if pred(row[k - 1]) {
            1nat
        } else {
            0nat
        }
    }
}

/// How many cells of the first `k` rows satisfy `pred`.
pub open spec fn count_cells(g: GridModel, k: int, pred: spec_fn(GridCell) -> bool) -> nat
    decreases k,
{
    if k <= 0 {
        0
    } else {
        count_cells(g, k - 1, pred) + count_row(g[k - 1], GRID_WIDTH as int, pred)
    }
}

/// `g` with every cell that satisfies `pred` set to `x`.
pub open spec fn recolor(g: GridModel, pred: spec_fn(GridCell) -> bool, x: GridCell) -> GridModel {
    Seq::new(
        g.len(),
        |r: int| Seq::new(g[r].len(), |c: int| if pred(g[r][c]) { x } else { g[r][c] }),
    )
}

// ----- Money -----

/// What each player holds of chain `c`.
pub open spec fn holdings(players: Seq<PlayerModel>, c: int) -> Seq<usize> {
    Seq::new(players.len(), |p: int| players[p].stocks[c])
}

/// `players` after chain `c`, whose share costs `price`, pays its bonuses.
pub open spec fn with_bonuses(players: Seq<PlayerModel>, c: int, price: int) -> Seq<PlayerModel> {
    Seq::new(
        players.len(),
        |p: int|
            PlayerModel {
                cash: players[p].cash + bonus_for(holdings(players, c), price, p),
                ..players[p]
            },
    )
}

/// `players` after every existing chain among `0..k` pays its bonuses, in order.
pub open spec fn with_final_bonuses(players: Seq<PlayerModel>, sizes: Seq<usize>, k: int) -> Seq<
    PlayerModel,
>
    decreases k,
{
    if k <= 0 {
        players
    } else {
        let before = with_final_bonuses(players, sizes, k - 1);
        if sizes[k - 1] > 0 {
            with_bonuses(before, k - 1, share_price(k - 1, sizes[k - 1] as int))
        } else {
            before
        }
    }
}

/// The value of holdings of chains `0..k` at the given sizes.
pub open spec fn holdings_value(stocks: Seq<usize>, sizes: Seq<usize>, k: int) -> int
    decreases k,
{
    if k <= 0 {
        0
    } else {
        holdings_value(stocks, sizes, k - 1) + stocks[k - 1] * share_price(k - 1, sizes[k - 1] as int)
    }
}

/// Cash plus the value of all holdings.
pub open spec fn value_of(p: PlayerModel, sizes: Seq<usize>) -> int {
    p.cash + holdings_value(p.stocks, sizes, MAX_NUM_CHAINS as int)
}

/// What the shares in `order` cost, over chains `0..k`.
pub open spec fn order_cost(sizes: Seq<usize>, order: Seq<usize>, k: int) -> int
    decreases k,
{
    if k <= 0 {
        0
    } else {
        order_cost(sizes, order, k - 1) + share_price(k - 1, sizes[k - 1] as int) * order[k - 1]
    }
}

/// The first chain from `k` on whose order exceeds what is buyable; 7 if none.
pub open spec fn first_short(order: Seq<usize>, avail: Seq<usize>, k: int) -> int
    decreases MAX_NUM_CHAINS - k,
{
    if k >= MAX_NUM_CHAINS {
        MAX_NUM_CHAINS as int
    } else if order[k] > avail[k] {
        k
    } else {
        first_short(order, avail, k + 1)
    }
}

// ----- End of turn -----

/// Draws from the end of `pile`, discarding tiles that can never be placed;
/// returns what is left and the tile drawn, if any.
pub open spec fn draw(g: GridModel, sizes: Seq<usize>, pile: Seq<Tile>) -> (Seq<Tile>, Option<Tile>)
    decreases pile.len(),
{
    if pile.len() == 0 {
        (pile, None)
    } else if playability(g, sizes, pile.last()) is PermanentlyUnplayable {
        draw(g, sizes, pile.drop_last())
    } else {
        (pile.drop_last(), Some(pile.last()))
    }
}

/// The game ends when a chain has more than 40 tiles, or when the largest
/// chain is safe and every chain is either safe or does not exist.
pub open spec fn is_game_over(sizes: Seq<usize>) -> bool {
    let largest = max_of(sizes);
    largest > 40 || (largest >= SAFE_CHAIN_SIZE && forall|c: int|
        0 <= c < MAX_NUM_CHAINS ==> #[trigger] sizes[c] >= SAFE_CHAIN_SIZE || sizes[c] == 0)
}

/// The seat after `p`.
pub open spec fn next_seat(p: int, n: int) -> int {
    if p + 1 == n {
        0
    } else {
        p + 1
    }
}

/// Ends the active player's turn: a tile is drawn; then either the game ends,
/// with final bonuses paid, or the next player is to place a tile, or to buy
/// shares when none of their tiles is playable.
pub open spec fn end_turn(m: GameModel) -> GameModel {
    let (pile, drawn) = draw(m.grid, m.sizes, m.pile);
    let cur = m.players[m.current];
    let hand = match drawn {
        Some(t) => cur.tiles.push(t),
        None => cur.tiles,
    };
    let players = m.players.update(m.current, PlayerModel { tiles: hand, ..cur });
    if is_game_over(m.sizes) {
        let paid = with_final_bonuses(players, m.sizes, MAX_NUM_CHAINS as int);
        GameModel {
            players: paid,
            pile,
            phase: PhaseModel::GameOver(
                Seq::new(paid.len(), |p: int| value_of(paid[p], m.sizes)),
            ),
            ..m
        }
    } else {
        let next = next_seat(m.current, m.players.len() as int);
        let next_hand = players[next].tiles;
        let playable = playable_indices(m.grid, m.sizes, next_hand, next_hand.len() as int);
        GameModel {
            players,
            pile,
            current: next,
            phase: if playable.len() == 0 {
                PhaseModel::BuyStock(buyable_list(m))
            } else {
                PhaseModel::PlaceTile(playable)
            },
            ..m
        }
    }
}

// ----- Transitions -----

/// `p`'s hand replaced by `hand`.
pub open spec fn with_hand(players: Seq<PlayerModel>, p: int, hand: Seq<Tile>) -> Seq<PlayerModel> {
    players.update(p, PlayerModel { tiles: hand, ..players[p] })
}

/// Places the tile at `idx` of the active player's hand. An isolated tile
/// becomes a hotel, and the turn moves to buying, or ends if nothing can be
/// bought. A tile next to hotels only founds a chain. A tile next to one
/// chain joins it with its neighbours. A tile next to several chains starts a
/// merger: it and its neighbouring hotels await the winner.
pub open spec fn place_tile(m: GameModel, idx: usize) -> Result<GameModel, TurnError> {
    match m.phase {
        PhaseModel::PlaceTile(valid) => if !valid.contains(idx) {
            Err(TurnError::InvalidTileIndex(idx))
        } else {
            let hand = m.players[m.current].tiles;
            let t = hand[idx as int];
            let m1 = GameModel { players: with_hand(m.players, m.current, hand.remove(idx as int)), ..m };
            let nb = neighbors_of(t, m.grid);
            if nb.len() == 0 {
                let m2 = GameModel { grid: set_cell(m.grid, t, GridCell::Hotel), ..m1 };
                let avail = buyable_list(m2);
                if exists|i: int| 0 <= i < MAX_NUM_CHAINS && #[trigger] avail[i] > 0 {
                    Ok(GameModel { phase: PhaseModel::BuyStock(avail), ..m2 })
                } else {
                    Ok(end_turn(m2))
                }
            } else if touched_chains(m.grid, t) == 0 {
                Ok(
                    GameModel {
                        phase: PhaseModel::CreateChain(t, free_slots(m.sizes, MAX_NUM_CHAINS as int)),
                        ..m1
                    },
                )
            } else if touched_chains(m.grid, t) == 1 {
                let c = merging_chains(m.grid, m.sizes, t)[0] as int;
                let cell = chain_cell(c);
                let m2 = GameModel {
                    grid: paint_entries(set_cell(m.grid, t, cell), nb, cell, |c: GridCell| true),
                    sizes: m.sizes.update(c, (m.sizes[c] + nb.len()) as usize),
                    ..m1
                };
                Ok(GameModel { phase: PhaseModel::BuyStock(buyable_list(m2)), ..m2 })
            } else {
                let merging = merging_chains(m.grid, m.sizes, t);
                let winners = of_size(merging, m.sizes, m.sizes[merging[0] as int]);
                Ok(
                    GameModel {
                        grid: paint_entries(
                            set_cell(m.grid, t, GridCell::Dummy),
                            nb,
                            GridCell::Dummy,
                            |c: GridCell| c == GridCell::Hotel,
                        ),
                        phase: PhaseModel::PickWinningChain(winners, merging),
                        ..m1
                    },
                )
            }
        },
        _ => Err(TurnError::WrongPhase),
    }
}

/// Founds chain `ci` with the placed tile and its neighbours; the founder
/// receives one free share while the market has one.
pub open spec fn create_chain(m: GameModel, chain: usize) -> Result<GameModel, TurnError> {
    let ci = chain as int;
    match m.phase {
        PhaseModel::CreateChain(t, valid) => if !valid.contains(chain) {
            Err(TurnError::InvalidChainIndex(chain))
        } else if m.sizes[ci] != 0 {
            Err(TurnError::ChainExists(chain))
        } else {
            let nb = neighbors_of(t, m.grid);
            let cell = chain_cell(ci);
            let bonus = m.market[ci] > 0;
            let cur = m.players[m.current];
            let m2 = GameModel {
                grid: paint_entries(set_cell(m.grid, t, cell), nb, cell, |c: GridCell| true),
                sizes: m.sizes.update(ci, (1 + nb.len()) as usize),
                market: if bonus {
                    m.market.update(ci, (m.market[ci] - 1) as usize)
                } else {
                    m.market
                },
                players: if bonus {
                    m.players.update(
                        m.current,
                        PlayerModel {
                            stocks: cur.stocks.update(ci, (cur.stocks[ci] + 1) as usize),
                            ..cur
                        },
                    )
                } else {
                    m.players
                },
                ..m
            };
            Ok(GameModel { phase: PhaseModel::BuyStock(buyable_list(m2)), ..m2 })
        },
        _ => Err(TurnError::WrongPhase),
    }
}

/// A cell that joins the winner of a merger: a placeholder, or a cell of a losing chain.
pub open spec fn joins_winner(x: GridCell, losers: Seq<usize>) -> bool {
    x == GridCell::Dummy || (chain_of(x) matches Some(l) && losers.contains(l as usize))
}

/// Picks `ci` as the winner of the merger: the placeholders and the losing
/// chains' cells join it, and the losers are retired one by one, starting
/// with the active player.
pub open spec fn pick_winning_chain(m: GameModel, chain: usize) -> Result<GameModel, TurnError> {
    let ci = chain as int;
    match m.phase {
        PhaseModel::PickWinningChain(valid, merging) => if !valid.contains(chain) {
            Err(TurnError::InvalidChainIndex(chain))
        } else {
            let losers = without(merging, chain);
            let pred = |x: GridCell| joins_winner(x, losers);
            let added = count_cells(m.grid, GRID_HEIGHT as int, pred);
            Ok(
                GameModel {
                    grid: recolor(m.grid, pred, chain_cell(ci)),
                    sizes: m.sizes.update(ci, (m.sizes[ci] + added) as usize),
                    phase: PhaseModel::ResolveMerger(ci, losers, m.current),
                    ..m
                },
            )
        },
        _ => Err(TurnError::WrongPhase),
    }
}

/// The deciding player sells `sell` and trades `trade` shares of the first
/// losing chain, two for one share of the winner. When the merging player
/// decides, the loser's bonuses are paid. Once every player has decided, the
/// loser is retired and the next loser follows, or the turn moves to buying.
pub open spec fn resolve_merger(m: GameModel, sell: usize, trade: usize) -> Result<GameModel, TurnError> {
    match m.phase {
        PhaseModel::ResolveMerger(w, losers, sp) => {
            let l = losers[0] as int;
            let price = share_price(l, m.sizes[l] as int);
            let seller = m.players[sp];
            let traded = trade / 2;
            if sell + trade > seller.stocks[l] {
                Err(TurnError::NotEnoughShares)
            } else if traded > m.market[w] {
                Err(TurnError::NotEnoughMarketShares)
            } else {
                let stocks1 = seller.stocks.update(l, (seller.stocks[l] - sell - trade) as usize);
                let stocks2 = stocks1.update(w, (stocks1[w] + traded) as usize);
                let market1 = m.market.update(l, (m.market[l] + sell + trade) as usize);
                let market2 = market1.update(w, (market1[w] - traded) as usize);
                let players1 = m.players.update(
                    sp,
                    PlayerModel { cash: seller.cash + price * sell, stocks: stocks2, ..seller },
                );
                let players2 = if sp == m.current {
                    with_bonuses(players1, l, price)
                } else {
                    players1
                };
                let next = next_seat(sp, m.players.len() as int);
                let m2 = GameModel { players: players2, market: market2, ..m };
                if next == m.current {
                    let m3 = GameModel { sizes: m.sizes.update(l, 0), ..m2 };
                    if losers.len() > 1 {
                        Ok(GameModel { phase: PhaseModel::ResolveMerger(w, losers.drop_first(), next), ..m3 })
                    } else {
                        Ok(GameModel { phase: PhaseModel::BuyStock(buyable_list(m3)), ..m3 })
                    }
                } else {
                    Ok(GameModel { phase: PhaseModel::ResolveMerger(w, losers, next), ..m2 })
                }
            }
        },
        _ => Err(TurnError::WrongPhase),
    }
}

/// The active player buys the shares in `order`, at most three in all, and
/// no more of a chain than is buyable, then the turn ends.
pub open spec fn buy_stock(m: GameModel, order: Seq<usize>) -> Result<GameModel, TurnError> {
    match m.phase {
        PhaseModel::BuyStock(avail) => if sum_of(order) > BUY_LIMIT {
            Err(TurnError::TooManyStocks)
        } else if first_short(order, avail, 0) < MAX_NUM_CHAINS {
            Err(TurnError::NotEnoughStocksAvailable(first_short(order, avail, 0) as usize))
        } else {
            let cost = order_cost(m.sizes, order, MAX_NUM_CHAINS as int);
            let cur = m.players[m.current];
            if cost > cur.cash {
                Err(TurnError::NotEnoughCash)
            } else {
                let buyer = PlayerModel {
                    cash: cur.cash - cost,
                    stocks: Seq::new(
                        MAX_NUM_CHAINS as nat,
                        |i: int| (cur.stocks[i] + order[i]) as usize,
                    ),
                    ..cur
                };
                Ok(
                    end_turn(
                        GameModel {
                            players: m.players.update(m.current, buyer),
                            market: Seq::new(
                                MAX_NUM_CHAINS as nat,
                                |i: int| (m.market[i] - order[i]) as usize,
                            ),
                            ..m
                        },
                    ),
                )
            }
        },
        _ => Err(TurnError::WrongPhase),
    }
}

/// One action applied to the game.
pub open spec fn step(m: GameModel, a: TurnAction) -> Result<GameModel, TurnError> {
    match a {
        TurnAction::PlaceTile(idx) => place_tile(m, idx),
        TurnAction::CreateChain(ci) => create_chain(m, ci),
        TurnAction::PickWinningChain(ci) => pick_winning_chain(m, ci),
        TurnAction::ResolveMerger(sell, trade) => resolve_merger(m, sell, trade),
        TurnAction::BuyStock(order) => buy_stock(m, order@),
    }
}

// ----- Well-formedness -----

/// The sum of a sequence of integers.
pub open spec fn sum_ints(s: Seq<int>) -> int
    decreases s.len(),
{
    if s.len() == 0 {
        0
    } else {
        sum_ints(s.drop_last()) + s.last()
    }
}

/// Tiles that can still be placed: in hands and in the draw pile.
pub open spec fn tiles_left(m: GameModel) -> int {
    sum_ints(Seq::new(m.players.len(), |p: int| m.players[p].tiles.len() as int)) + m.pile.len()
}

/// Shares of chain `c` held by players.
pub open spec fn shares_held(players: Seq<PlayerModel>, c: int) -> int {
    sum_of(holdings(players, c))
}

/// Every chain's shares, held or in the market, add up to the shares issued.
pub open spec fn shares_conserved(m: GameModel) -> bool {
    forall|c: int|
        0 <= c < MAX_NUM_CHAINS ==> #[trigger] shares_held(m.players, c) + m.market[c]
            == STOCKS_PER_CHAIN
}

/// The position of seat `q` in the order that starts at seat `first`.
pub open spec fn seat_offset(q: int, first: int, n: int) -> int {
    if q >= first {
        q - first
    } else {
        q + n - first
    }
}

/// Whether `p` still has to sell or trade shares of the chain being retired.
pub open spec fn sale_pending(m: GameModel, p: int) -> bool {
    match m.phase {
        PhaseModel::ResolveMerger(_, _, sp) => seat_offset(p, m.current, m.players.len() as int)
            >= seat_offset(sp, m.current, m.players.len() as int),
        _ => false,
    }
}

/// No player's cash ever reaches this.
pub const CASH_LIMIT: usize = 1_000_000_000;

/// No chain's size ever reaches this.
pub const SIZE_LIMIT: usize = 1_000_000;

/// An upper bound on what one placed tile brings one player through a merger.
pub const MERGER_CASH_PER_TILE: usize = 300_000;

/// An upper bound on what one retired chain brings one player.
pub const CASH_PER_LOSER: usize = 50_000;

/// An upper bound on one player's bonus for one chain.
pub const BONUS_BOUND: usize = 20_000;

/// An upper bound on one player's proceeds from selling one chain's shares.
pub const SALE_BOUND: usize = 30_000;

/// An upper bound on one player's bonuses at the end of the game.
pub const FINAL_BONUS_BOUND: usize = 140_000;

/// An upper bound on what one placed tile adds to a chain's size.
pub const SIZE_PER_TILE: usize = 120;

/// An upper bound on what player `p` can still receive: through mergers to
/// come, through the merger under way, and as final bonuses.
pub open spec fn cash_reserve(m: GameModel, p: int) -> int {
    let merger_part = match m.phase {
        PhaseModel::PickWinningChain(_, merging) => CASH_PER_LOSER * (merging.len() - 1),
        PhaseModel::ResolveMerger(_, losers, sp) => CASH_PER_LOSER * (losers.len() - 1) + (if sp
            == m.current {
            BONUS_BOUND
        } else {
            0
        }) + (if sale_pending(m, p) {
            SALE_BOUND
        } else {
            0
        }),
        _ => 0,
    };
    let final_part = if m.phase is GameOver {
        0
    } else {
        FINAL_BONUS_BOUND
    };
    MERGER_CASH_PER_TILE * tiles_left(m) + merger_part + final_part
}

/// An upper bound on what a chain can still grow by.
pub open spec fn size_reserve(m: GameModel) -> int {
    let phase_part = match m.phase {
        PhaseModel::CreateChain(_, _) => 5,
        PhaseModel::PickWinningChain(_, _) => (GRID_HEIGHT * GRID_WIDTH) as int,
        _ => 0,
    };
    SIZE_PER_TILE * tiles_left(m) + phase_part
}

/// All entries of `s` are chain slots.
pub open spec fn all_chains(s: Seq<usize>) -> bool {
    forall|k: int| 0 <= k < s.len() ==> #[trigger] s[k] < MAX_NUM_CHAINS
}

/// The payload of the current phase fits the rest of the state.
pub open spec fn phase_wf(m: GameModel) -> bool {
    match m.phase {
        PhaseModel::PlaceTile(v) => {
            &&& v.len() > 0
            &&& forall|k: int|
                0 <= k < v.len() ==> (#[trigger] v[k]) < m.players[m.current].tiles.len() && playability(
                    m.grid,
                    m.sizes,
                    m.players[m.current].tiles[v[k] as int],
                ) == TilePlayability::Playable
        },
        PhaseModel::CreateChain(t, v) => {
            &&& t.in_grid()
            &&& all_chains(v)
            &&& v.len() > 0
            &&& forall|k: int| 0 <= k < v.len() ==> m.sizes[#[trigger] v[k] as int] == 0
        },
        PhaseModel::PickWinningChain(w, merging) => {
            &&& w.len() > 0
            &&& all_chains(merging)
            &&& merging.no_duplicates()
            &&& 2 <= merging.len() <= MAX_NUM_CHAINS
            &&& forall|k: int| 0 <= k < w.len() ==> merging.contains(#[trigger] w[k])
        },
        PhaseModel::ResolveMerger(w, losers, sp) => {
            &&& 0 <= w < MAX_NUM_CHAINS
            &&& !losers.contains(w as usize)
            &&& all_chains(losers)
            &&& 1 <= losers.len() < MAX_NUM_CHAINS
            &&& 0 <= sp < m.players.len()
        },
        PhaseModel::BuyStock(a) => a.len() == MAX_NUM_CHAINS && forall|i: int|
            0 <= i < MAX_NUM_CHAINS ==> #[trigger] a[i] <= m.market[i],
        PhaseModel::GameOver(_) => true,
    }
}

/// The sizes of the parts of the model.
pub open spec fn shape_ok(m: GameModel) -> bool {
    &&& m.grid.len() == GRID_HEIGHT
    &&& forall|r: int| 0 <= r < GRID_HEIGHT ==> (#[trigger] m.grid[r]).len() == GRID_WIDTH
    &&& m.sizes.len() == MAX_NUM_CHAINS
    &&& m.market.len() == MAX_NUM_CHAINS
    &&& forall|p: int|
        0 <= p < m.players.len() ==> (#[trigger] m.players[p]).stocks.len() == MAX_NUM_CHAINS
}

/// The state is well formed: every action can be applied without overflow
/// or out-of-range access, and shares are conserved.
pub open spec fn well_formed(m: GameModel) -> bool {
    &&& shape_ok(m)
    &&& 1 <= m.players.len()
    &&& 0 <= m.current < m.players.len()
    &&& forall|p: int, k: int|
        0 <= p < m.players.len() && 0 <= k < m.players[p].tiles.len() ==> (
        #[trigger] m.players[p].tiles[k]).in_grid()
    &&& forall|k: int| 0 <= k < m.pile.len() ==> (#[trigger] m.pile[k]).in_grid()
    &&& shares_conserved(m)
    &&& phase_wf(m)
    &&& forall|p: int|
        0 <= p < m.players.len() ==> 0 <= #[trigger] m.players[p].cash && m.players[p].cash
            + cash_reserve(m, p) <= CASH_LIMIT
    &&& forall|c: int|
        0 <= c < MAX_NUM_CHAINS ==> #[trigger] m.sizes[c] + size_reserve(m) <= SIZE_LIMIT
}

/// A sum of non-negative integers is non-negative.
pub proof fn lemma_sum_ints_nonneg(s: Seq<int>)
    requires
        forall|i: int| 0 <= i < s.len() ==> s[i] >= 0,
    ensures
        sum_ints(s) >= 0,
    decreases s.len(),
{
    if s.len() > 0 {
        lemma_sum_ints_nonneg(s.drop_last());
    }
}

/// What remains to be paid out is never negative.
pub proof fn lemma_reserve_nonneg(m: GameModel, p: int)
    requires
        phase_wf(m),
    ensures
        tiles_left(m) >= 0,
        cash_reserve(m, p) >= 0,
        size_reserve(m) >= 0,
{
    lemma_sum_ints_nonneg(Seq::new(m.players.len(), |q: int| m.players[q].tiles.len() as int));
}

/// Every tile in a hand or in the draw pile lies on the grid.
pub open spec fn tiles_on_grid(m: GameModel) -> bool {
    &&& forall|p: int, k: int|
        0 <= p < m.players.len() && 0 <= k < m.players[p].tiles.len() ==> (
        #[trigger] m.players[p].tiles[k]).in_grid()
    &&& forall|k: int| 0 <= k < m.pile.len() ==> (#[trigger] m.pile[k]).in_grid()
}

/// What ending the turn needs: room for the final bonuses, and sizes in range.
pub open spec fn turn_can_end(m: GameModel) -> bool {
    &&& shape_ok(m)
    &&& 1 <= m.players.len()
    &&& 0 <= m.current < m.players.len()
    &&& tiles_on_grid(m)
    &&& shares_conserved(m)
    &&& forall|p: int|
        0 <= p < m.players.len() ==> 0 <= #[trigger] m.players[p].cash && m.players[p].cash
            + FINAL_BONUS_BOUND <= CASH_LIMIT
    &&& forall|c: int| 0 <= c < MAX_NUM_CHAINS ==> #[trigger] m.sizes[c] <= SIZE_LIMIT
}

/// Where shares are conserved, nobody holds more than the shares issued.
pub proof fn lemma_conserved_stocks_bounded(m: GameModel, p: int)
    requires
        shape_ok(m),
        shares_conserved(m),
        0 <= p < m.players.len(),
    ensures
        forall|c: int| 0 <= c < MAX_NUM_CHAINS ==> #[trigger] m.players[p].stocks[c] <= STOCKS_PER_CHAIN,
{
    assert forall|c: int| 0 <= c < MAX_NUM_CHAINS implies #[trigger] m.players[p].stocks[c]
        <= STOCKS_PER_CHAIN by {
        assert(shares_held(m.players, c) + m.market[c] == STOCKS_PER_CHAIN);
        crate::player::lemma_entry_le_sum(holdings(m.players, c), p);
    }
}

/// `largest_flagged` finds a flagged chain exactly when one is flagged.
pub proof fn lemma_largest_flagged(flags: Seq<bool>, sizes: Seq<usize>, k: int)
    requires
        0 <= k <= flags.len(),
    ensures
        largest_flagged(flags, sizes, k) < 0 <==> forall|c: int| 0 <= c < k ==> !flags[c],
        largest_flagged(flags, sizes, k) >= 0 ==> largest_flagged(flags, sizes, k) < k && flags[largest_flagged(flags, sizes, k)],
        largest_flagged(flags, sizes, k) >= -1,
    decreases k,
{
    if k > 0 {
        lemma_largest_flagged(flags, sizes, k - 1);
    }
}

/// No chain is counted exactly when none satisfies the predicate.
pub proof fn lemma_count_chains_zero(k: int, pred: spec_fn(int) -> bool)
    requires
        k >= 0,
    ensures
        count_chains(k, pred) == 0 <==> forall|c: int| 0 <= c < k ==> !#[trigger] pred(c),
    decreases k,
{
    if k > 0 {
        lemma_count_chains_zero(k - 1, pred);
    }
}

/// The chains ordered by size are flagged chains without repetition, and
/// there is at least one when some flag is set.
pub proof fn lemma_by_size_chains(flags: Seq<bool>, sizes: Seq<usize>, fuel: nat)
    requires
        flags.len() == MAX_NUM_CHAINS,
    ensures
        all_chains(by_size(flags, sizes, fuel)),
        forall|k: int|
            0 <= k < by_size(flags, sizes, fuel).len() ==> flags[#[trigger] by_size(flags, sizes, fuel)[k] as int],
        by_size(flags, sizes, fuel).no_duplicates(),
        by_size(flags, sizes, fuel).len() <= fuel,
        fuel > 0 && (exists|c: int| 0 <= c < MAX_NUM_CHAINS && flags[c]) ==> by_size(flags, sizes, fuel).len() > 0,
    decreases fuel,
{
    lemma_largest_flagged(flags, sizes, MAX_NUM_CHAINS as int);
    let b = largest_flagged(flags, sizes, MAX_NUM_CHAINS as int);
    if fuel > 0 && b >= 0 {
        let rest_flags = flags.update(b, false);
        lemma_by_size_chains(rest_flags, sizes, (fuel - 1) as nat);
        let rest = by_size(rest_flags, sizes, (fuel - 1) as nat);
        let all = by_size(flags, sizes, fuel);
        assert(all == seq![b as usize] + rest);
        assert forall|k: int| 0 <= k < all.len() implies flags[#[trigger] all[k] as int] by {
            if k > 0 {
                assert(all[k] == rest[k - 1]);
                assert(rest_flags[rest[k - 1] as int]);
            }
        }
        assert forall|i: int, j: int| 0 <= i < j < all.len() implies all[i] != all[j] by {
            if i == 0 {
                assert(all[j] == rest[j - 1]);
                assert(rest_flags[rest[j - 1] as int]);
            } else {
                assert(all[i] == rest[i - 1]);
                assert(all[j] == rest[j - 1]);
            }
        }
        assert forall|k: int| 0 <= k < all.len() implies #[trigger] all[k] < MAX_NUM_CHAINS by {
            if k > 0 {
                assert(all[k] == rest[k - 1]);
            }
        }
    }
}

} // verus!
