use acquire::board::{GridCell, Tile, GRID_HEIGHT, GRID_WIDTH, MAX_NUM_CHAINS, STOCKS_PER_CHAIN};
use acquire::game::{
    BoardState, GameState, TilePlayability, TurnAction, TurnError, TurnPhase, TurnState,
};
use acquire::player::Player;
use rand::rngs::StdRng;
use rand::SeedableRng;

fn names() -> [String; MAX_NUM_CHAINS] {
    ["K", "L", "M", "N", "O", "P", "Q"].map(|s| s.to_string())
}

fn board(cells: &[(usize, usize, GridCell)], sizes: [usize; MAX_NUM_CHAINS], market: [usize; MAX_NUM_CHAINS]) -> BoardState {
    let mut grid = [[GridCell::Empty; GRID_WIDTH]; GRID_HEIGHT];
    for &(r, c, cell) in cells {
        grid[r][c] = cell;
    }
    BoardState { grid, chain_sizes: sizes, stock_market: market, chain_names: names() }
}

/// Chains not being retired have size zero exactly when no cell belongs to them.
fn sizes_match_cells(game: &GameState) -> bool {
    (0..MAX_NUM_CHAINS).all(|c| {
        let retiring = matches!(&game.turn_state.phase, TurnPhase::ResolveMerger(_, l, _) if l.contains(&c));
        let has_cells = game.board.grid.iter().flatten().any(|cell| cell.to_chain_index() == Some(c));
        retiring || ((game.board.chain_sizes[c] == 0) == !has_cells)
    })
}

fn shares_are_conserved(game: &GameState) -> bool {
    (0..MAX_NUM_CHAINS).all(|c| {
        game.players.iter().map(|p| p.stocks[c]).sum::<usize>() + game.board.stock_market[c]
            == STOCKS_PER_CHAIN
    })
}

#[test]
fn game_unclaimed_tiles() {
    let mut rng = StdRng::seed_from_u64(7);
    let game = GameState::new(2, &mut rng, names());
    assert_eq!(game.num_unclaimed_tiles(), 94);
}

#[test]
fn new_game_deals_every_tile_once() {
    let mut rng = StdRng::seed_from_u64(11);
    let game = GameState::new(3, &mut rng, names());
    assert!(game.turn_state.player < 3);
    assert!(matches!(&game.turn_state.phase, TurnPhase::PlaceTile(v) if v == &vec![0, 1, 2, 3, 4, 5]));
    let mut seen = Vec::new();
    for p in &game.players {
        assert_eq!(p.cash, 6000);
        assert_eq!(p.num_tiles(), 6);
        seen.extend(p.tiles.iter().map(|t| (t.0, t.1)));
    }
    seen.extend(game.unclaimed_tiles.iter().map(|t| (t.0, t.1)));
    let mut hotels = 0;
    for r in 0..GRID_HEIGHT {
        for c in 0..GRID_WIDTH {
            if game.board.grid[r][c] == GridCell::Hotel {
                hotels += 1;
                seen.push((r, c));
            }
        }
    }
    assert_eq!(hotels, 3);
    seen.sort();
    seen.dedup();
    assert_eq!(seen.len(), GRID_HEIGHT * GRID_WIDTH);
    for p in 0..3 {
        assert_eq!(game.player_value(p), 6000);
    }
}

#[test]
fn new_game_shuffles_the_tiles() {
    let mut rng = StdRng::seed_from_u64(3);
    let game = GameState::new(1, &mut rng, names());
    let unshuffled: Vec<Tile> = (6..12).map(|c| Tile(8, c)).collect();
    assert_ne!(game.players[0].tiles, unshuffled);
}

/// Two players; player 0 holds `hand` and must place a tile.
fn placing_game(cells: &[(usize, usize, GridCell)], sizes: [usize; MAX_NUM_CHAINS], hand: Vec<Tile>) -> GameState {
    let n = hand.len();
    GameState::from_parts(
        board(cells, sizes, [STOCKS_PER_CHAIN; MAX_NUM_CHAINS]),
        vec![Player::new(6000, hand), Player::new(6000, vec![Tile(8, 11)])],
        TurnState { player: 0, phase: TurnPhase::PlaceTile((0..n).collect()) },
        vec![Tile(8, 0)],
    )
}

#[test]
fn found_a_chain_and_buy_its_share() {
    let mut game = placing_game(&[(0, 0, GridCell::Hotel)], [0; MAX_NUM_CHAINS], vec![Tile(0, 1), Tile(5, 5)]);
    assert_eq!(game.take_turn(TurnAction::PlaceTile(0)), Ok(false));
    match &game.turn_state.phase {
        TurnPhase::CreateChain(t, free) => {
            assert_eq!(*t, Tile(0, 1));
            assert_eq!(free, &vec![0, 1, 2, 3, 4, 5, 6]);
        }
        _ => panic!("expected CreateChain"),
    }
    assert_eq!(game.take_turn(TurnAction::CreateChain(0)), Ok(false));
    assert_eq!(game.board.chain_sizes[0], 2);
    assert_eq!(game.board.grid[0][0], GridCell::Chain0);
    assert_eq!(game.board.grid[0][1], GridCell::Chain0);
    // The founder's free share.
    assert_eq!(game.players[0].stocks[0], 1);
    assert_eq!(game.board.stock_market[0], 24);
    assert!(matches!(game.turn_state.phase, TurnPhase::BuyStock(a) if a == [24, 0, 0, 0, 0, 0, 0]));
    let price = game.stock_price(0);
    assert_eq!(price, 200);
    let cash = game.players[0].cash;
    assert_eq!(game.take_turn(TurnAction::BuyStock([1, 0, 0, 0, 0, 0, 0])), Ok(false));
    assert_eq!(game.players[0].cash, cash - price);
    assert_eq!(game.players[0].stocks[0], 2);
    assert_eq!(game.board.stock_market[0], 23);
    // The replacement tile was drawn and the turn passed on.
    assert_eq!(game.players[0].tiles, vec![Tile(5, 5), Tile(8, 0)]);
    assert_eq!(game.num_unclaimed_tiles(), 0);
    assert_eq!(game.turn_state.player, 1);
    assert!(matches!(&game.turn_state.phase, TurnPhase::PlaceTile(v) if v == &vec![0]));
    assert_eq!(game.player_value(0), 5800 + 2 * 200);
    assert!(shares_are_conserved(&game));
}

#[test]
fn lone_tile_with_nothing_to_buy_ends_the_turn() {
    let mut game = placing_game(&[], [0; MAX_NUM_CHAINS], vec![Tile(4, 4)]);
    assert_eq!(game.take_turn(TurnAction::PlaceTile(0)), Ok(false));
    assert_eq!(game.board.grid[4][4], GridCell::Hotel);
    assert_eq!(game.turn_state.player, 1);
    assert_eq!(game.players[0].tiles, vec![Tile(8, 0)]);
}

#[test]
fn tile_extends_a_chain() {
    let cells = [(2, 2, GridCell::Chain3), (2, 3, GridCell::Chain3), (4, 3, GridCell::Hotel)];
    let mut sizes = [0; MAX_NUM_CHAINS];
    sizes[3] = 2;
    let mut game = placing_game(&cells, sizes, vec![Tile(3, 3)]);
    assert_eq!(game.take_turn(TurnAction::PlaceTile(0)), Ok(false));
    assert_eq!(game.board.grid[3][3], GridCell::Chain3);
    assert_eq!(game.board.grid[4][3], GridCell::Chain3);
    // Grows by the number of neighbours.
    assert_eq!(game.board.chain_sizes[3], 4);
    assert!(matches!(game.turn_state.phase, TurnPhase::BuyStock(a) if a == [0, 0, 0, 25, 0, 0, 0]));
}

#[test]
fn merger_is_resolved_player_by_player() {
    let cells = [
        (0, 0, GridCell::Chain0),
        (0, 1, GridCell::Chain0),
        (0, 3, GridCell::Chain1),
        (0, 4, GridCell::Chain1),
        (0, 5, GridCell::Chain1),
        (1, 2, GridCell::Hotel),
    ];
    let mut sizes = [0; MAX_NUM_CHAINS];
    sizes[0] = 2;
    sizes[1] = 3;
    let mut market = [STOCKS_PER_CHAIN; MAX_NUM_CHAINS];
    market[0] = 22;
    let mut alice = Player::new(6000, vec![Tile(0, 2)]);
    alice.stocks[0] = 2;
    let mut bob = Player::new(6000, vec![Tile(8, 11)]);
    bob.stocks[0] = 1;
    let mut game = GameState::from_parts(
        board(&cells, sizes, market),
        vec![alice, bob],
        TurnState { player: 0, phase: TurnPhase::PlaceTile(vec![0]) },
        vec![],
    );
    assert_eq!(game.take_turn(TurnAction::PlaceTile(0)), Ok(false));
    assert!(matches!(&game.turn_state.phase, TurnPhase::PickWinningChain(w, m) if w == &vec![1] && m == &vec![1, 0]));
    assert_eq!(game.board.grid[0][2], GridCell::Dummy);
    assert_eq!(game.board.grid[1][2], GridCell::Dummy);
    assert_eq!(game.take_turn(TurnAction::PickWinningChain(0)), Err(TurnError::InvalidChainIndex(0)));
    assert_eq!(game.take_turn(TurnAction::PickWinningChain(1)), Ok(false));
    assert_eq!(game.board.chain_sizes[1], 7);
    for c in 0..6 {
        assert_eq!(game.board.grid[0][c], GridCell::Chain1);
    }
    assert_eq!(game.board.grid[1][2], GridCell::Chain1);
    assert!(matches!(&game.turn_state.phase, TurnPhase::ResolveMerger(1, l, 0) if l == &vec![0]));
    // Player 0 sells one share at 200; then both players, tied at one share,
    // split the bonuses of 2000 and 1000.
    assert_eq!(game.take_turn(TurnAction::ResolveMerger(1, 0)), Ok(false));
    assert_eq!(game.players[0].cash, 6000 + 200 + 1500);
    assert_eq!(game.players[1].cash, 6000 + 1500);
    assert!(matches!(&game.turn_state.phase, TurnPhase::ResolveMerger(1, l, 1) if l == &vec![0]));
    assert_eq!(game.take_turn(TurnAction::ResolveMerger(2, 0)), Err(TurnError::NotEnoughShares));
    assert_eq!(game.take_turn(TurnAction::ResolveMerger(0, 0)), Ok(false));
    assert_eq!(game.board.chain_sizes[0], 0);
    assert_eq!(game.turn_state.player, 0);
    assert!(matches!(game.turn_state.phase, TurnPhase::BuyStock(a) if a == [0, 25, 0, 0, 0, 0, 0]));
    assert!(shares_are_conserved(&game));
}

#[test]
fn trading_two_for_one() {
    let mut sizes = [0; MAX_NUM_CHAINS];
    sizes[0] = 3;
    sizes[1] = 9;
    let mut market = [STOCKS_PER_CHAIN; MAX_NUM_CHAINS];
    market[0] = 21;
    let mut alice = Player::new(6000, vec![]);
    alice.stocks[0] = 4;
    let mut game = GameState::from_parts(
        board(&[], sizes, market),
        vec![alice],
        TurnState { player: 0, phase: TurnPhase::ResolveMerger(1, vec![0], 0) },
        vec![],
    );
    assert_eq!(game.take_turn(TurnAction::ResolveMerger(0, 4)), Ok(false));
    assert_eq!(game.players[0].stocks[0], 0);
    assert_eq!(game.players[0].stocks[1], 2);
    assert_eq!(game.board.stock_market[0], 25);
    assert_eq!(game.board.stock_market[1], 23);
    assert!(shares_are_conserved(&game));
}

#[test]
fn trading_beyond_the_market_is_rejected() {
    let mut sizes = [0; MAX_NUM_CHAINS];
    sizes[0] = 3;
    sizes[1] = 9;
    let mut market = [STOCKS_PER_CHAIN; MAX_NUM_CHAINS];
    market[0] = 21;
    market[1] = 1;
    let mut alice = Player::new(6000, vec![]);
    alice.stocks[0] = 4;
    alice.stocks[1] = 24;
    let mut game = GameState::from_parts(
        board(&[], sizes, market),
        vec![alice],
        TurnState { player: 0, phase: TurnPhase::ResolveMerger(1, vec![0], 0) },
        vec![],
    );
    assert_eq!(game.take_turn(TurnAction::ResolveMerger(0, 4)), Err(TurnError::NotEnoughMarketShares));
    assert_eq!(game.players[0].stocks[0], 4);
}

fn buying_game(cash: usize, sizes: [usize; MAX_NUM_CHAINS], available: [usize; MAX_NUM_CHAINS]) -> GameState {
    GameState::from_parts(
        board(&[], sizes, [STOCKS_PER_CHAIN; MAX_NUM_CHAINS]),
        vec![Player::new(cash, vec![]), Player::new(6000, vec![])],
        TurnState { player: 0, phase: TurnPhase::BuyStock(available) },
        vec![],
    )
}

#[test]
fn buying_errors() {
    let sizes = [2, 2, 0, 0, 0, 0, 0];
    let available = [25, 25, 0, 0, 0, 0, 0];
    let mut game = buying_game(6000, sizes, available);
    assert_eq!(game.take_turn(TurnAction::BuyStock([2, 2, 0, 0, 0, 0, 0])), Err(TurnError::TooManyStocks));
    assert_eq!(game.take_turn(TurnAction::BuyStock([usize::MAX, 1, 0, 0, 0, 0, 0])), Err(TurnError::TooManyStocks));
    assert_eq!(
        game.take_turn(TurnAction::BuyStock([0, 1, 1, 0, 0, 0, 0])),
        Err(TurnError::NotEnoughStocksAvailable(2))
    );
    assert_eq!(game.take_turn(TurnAction::PlaceTile(0)), Err(TurnError::WrongPhase));
    let mut poor = buying_game(399, sizes, available);
    assert_eq!(poor.take_turn(TurnAction::BuyStock([1, 1, 0, 0, 0, 0, 0])), Err(TurnError::NotEnoughCash));
    assert_eq!(poor.players[0].cash, 399);
    assert_eq!(poor.take_turn(TurnAction::BuyStock([1, 0, 0, 0, 0, 0, 0])), Ok(false));
    assert_eq!(poor.players[0].cash, 199);
}

#[test]
fn placement_and_founding_errors() {
    let mut game = placing_game(&[(0, 0, GridCell::Hotel)], [0; MAX_NUM_CHAINS], vec![Tile(0, 1)]);
    assert_eq!(game.take_turn(TurnAction::PlaceTile(3)), Err(TurnError::InvalidTileIndex(3)));
    assert_eq!(game.take_turn(TurnAction::CreateChain(0)), Err(TurnError::WrongPhase));
    assert_eq!(game.take_turn(TurnAction::PlaceTile(0)), Ok(false));
    assert_eq!(game.take_turn(TurnAction::CreateChain(9)), Err(TurnError::InvalidChainIndex(9)));
    // A slot offered earlier but taken since is refused.
    game.board.chain_sizes[4] = 2;
    game.board.grid[8][8] = GridCell::Chain4;
    game.board.grid[8][9] = GridCell::Chain4;
    assert_eq!(game.take_turn(TurnAction::CreateChain(4)), Err(TurnError::ChainExists(4)));
}

#[test]
fn tile_between_two_safe_chains_is_never_offered() {
    let mut cells = vec![(3, 4, GridCell::Chain0), (5, 4, GridCell::Chain1), (0, 0, GridCell::Chain2), (0, 1, GridCell::Chain2)];
    cells.push((7, 7, GridCell::Hotel));
    let sizes = [11, 11, 2, 0, 0, 0, 0];
    let mut market = [STOCKS_PER_CHAIN; MAX_NUM_CHAINS];
    market[0] = 24;
    let mut alice = Player::new(6000, vec![Tile(4, 4), Tile(8, 8)]);
    alice.stocks[0] = 1;
    let mut game = GameState::from_parts(
        board(&cells, sizes, market),
        vec![alice, Player::new(6000, vec![])],
        TurnState { player: 1, phase: TurnPhase::BuyStock([0; MAX_NUM_CHAINS]) },
        vec![],
    );
    assert_eq!(game.tile_playability(Tile(4, 4)), TilePlayability::PermanentlyUnplayable);
    assert_eq!(game.tile_playability(Tile(8, 8)), TilePlayability::Playable);
    assert_eq!(game.take_turn(TurnAction::BuyStock([0; MAX_NUM_CHAINS])), Ok(false));
    assert_eq!(game.turn_state.player, 0);
    assert!(matches!(&game.turn_state.phase, TurnPhase::PlaceTile(v) if v == &vec![1]));
}

#[test]
fn founding_an_eighth_chain_must_wait() {
    let cells = [(2, 3, GridCell::Hotel)];
    let game = GameState::from_parts(
        board(&cells, [2; MAX_NUM_CHAINS], [STOCKS_PER_CHAIN; MAX_NUM_CHAINS]),
        vec![Player::new(6000, vec![])],
        TurnState { player: 0, phase: TurnPhase::BuyStock([0; MAX_NUM_CHAINS]) },
        vec![],
    );
    assert_eq!(game.tile_playability(Tile(2, 4)), TilePlayability::TemporarilyUnplayable);
    assert_eq!(game.tile_playability(Tile(6, 6)), TilePlayability::Playable);
}

#[test]
fn game_ends_with_final_bonuses_and_values() {
    let mut sizes = [0; MAX_NUM_CHAINS];
    sizes[0] = 41;
    let mut market = [STOCKS_PER_CHAIN; MAX_NUM_CHAINS];
    market[0] = 17;
    let mut alice = Player::new(6000, vec![]);
    alice.stocks[0] = 5;
    let mut bob = Player::new(6000, vec![]);
    bob.stocks[0] = 3;
    let mut game = GameState::from_parts(
        board(&[], sizes, market),
        vec![alice, bob],
        TurnState { player: 0, phase: TurnPhase::BuyStock([0; MAX_NUM_CHAINS]) },
        vec![],
    );
    assert_eq!(game.take_turn(TurnAction::BuyStock([0; MAX_NUM_CHAINS])), Ok(true));
    assert_eq!(game.players[0].cash, 16000);
    assert_eq!(game.players[1].cash, 11000);
    assert!(matches!(&game.turn_state.phase, TurnPhase::GameOver(v) if v == &vec![21000, 14000]));
    assert_eq!(game.player_value(0), 21000);
    assert_eq!(game.take_turn(TurnAction::PlaceTile(0)), Err(TurnError::WrongPhase));
    assert!(shares_are_conserved(&game));
}

/// Plays a simple policy for up to `limit` actions; returns whether the game ended.
fn play(game: &mut GameState, limit: usize) -> bool {
    for _ in 0..limit {
        assert!(shares_are_conserved(game));
        assert!(sizes_match_cells(game));
        let action = match &game.turn_state.phase {
            TurnPhase::PlaceTile(v) => TurnAction::PlaceTile(v[0]),
            TurnPhase::CreateChain(_, v) => TurnAction::CreateChain(v[0]),
            TurnPhase::PickWinningChain(w, _) => TurnAction::PickWinningChain(w[0]),
            TurnPhase::ResolveMerger(_, l, p) => TurnAction::ResolveMerger(game.players[*p].stocks[l[0]] / 2, 0),
            TurnPhase::BuyStock(a) => {
                let mut order = [0; MAX_NUM_CHAINS];
                let cash = game.players[game.turn_state.player].cash;
                if let Some(i) = (0..MAX_NUM_CHAINS).find(|&i| a[i] > 0 && game.stock_price(i) <= cash) {
                    order[i] = 1;
                }
                TurnAction::BuyStock(order)
            }
            TurnPhase::GameOver(_) => return true,
        };
        if game.take_turn(action).unwrap() {
            return true;
        }
    }
    false
}

#[test]
fn full_games_keep_shares_conserved() {
    for seed in 0..20 {
        let mut rng = StdRng::seed_from_u64(seed);
        let mut game = GameState::new(4, &mut rng, names());
        let over = play(&mut game, 3000);
        assert!(shares_are_conserved(&game));
        assert!(sizes_match_cells(&game));
        if over {
            if let TurnPhase::GameOver(values) = &game.turn_state.phase {
                for (p, v) in values.iter().enumerate() {
                    assert_eq!(*v, game.player_value(p));
                }
            } else {
                panic!("expected GameOver");
            }
        }
    }
}

#[test]
fn retiring_chain_keeps_its_size_until_every_player_decided() {
    let cells = [(0, 0, GridCell::Chain0), (0, 1, GridCell::Chain0), (0, 3, GridCell::Chain1), (0, 4, GridCell::Chain1), (0, 5, GridCell::Chain1)];
    let mut sizes = [0; MAX_NUM_CHAINS];
    sizes[0] = 2;
    sizes[1] = 3;
    let mut game = GameState::from_parts(
        board(&cells, sizes, [STOCKS_PER_CHAIN; MAX_NUM_CHAINS]),
        vec![Player::new(6000, vec![Tile(0, 2)]), Player::new(6000, vec![])],
        TurnState { player: 0, phase: TurnPhase::PlaceTile(vec![0]) },
        vec![],
    );
    assert!(sizes_match_cells(&game));
    game.take_turn(TurnAction::PlaceTile(0)).unwrap();
    game.take_turn(TurnAction::PickWinningChain(1)).unwrap();
    // Chain 0 has no cells left but keeps its size while it is retired.
    assert_eq!(game.board.chain_sizes[0], 2);
    assert!(sizes_match_cells(&game));
    game.take_turn(TurnAction::ResolveMerger(0, 0)).unwrap();
    game.take_turn(TurnAction::ResolveMerger(0, 0)).unwrap();
    assert_eq!(game.board.chain_sizes[0], 0);
    assert!(sizes_match_cells(&game));
}

#[test]
fn error_messages() {
    assert_eq!(TurnError::WrongPhase.message(), "Wrong phase for this action");
    assert_eq!(TurnError::InvalidTileIndex(12).message(), "Invalid tile index: 12");
    assert_eq!(TurnError::InvalidChainIndex(7).message(), "Invalid chain index: 7");
    assert_eq!(TurnError::ChainExists(3).message(), "Chain 3 already exists");
    assert_eq!(TurnError::NotEnoughShares.message(), "Cannot sell or trade more shares than held");
    assert_eq!(TurnError::NotEnoughMarketShares.message(), "Cannot trade for more shares than the market has");
    assert_eq!(TurnError::TooManyStocks.message(), "Too many stocks bought");
    assert_eq!(TurnError::NotEnoughStocksAvailable(0).message(), "Not enough stocks available for chain 0");
    assert_eq!(TurnError::NotEnoughCash.message(), "Not enough cash to buy stocks");
}
