use acquire::agent::create_agent;
use acquire::board::MAX_NUM_CHAINS;
use acquire::game::{GameState, TurnAction, TurnPhase};
use rand::rngs::StdRng;
use rand::SeedableRng;

fn make_game() -> GameState {
    let chain_names = [
        "K".to_owned(),
        "L".to_owned(),
        "M".to_owned(),
        "N".to_owned(),
        "O".to_owned(),
        "P".to_owned(),
        "Q".to_owned(),
    ];
    let mut rng = StdRng::from_entropy();
    GameState::new(2, &mut rng, chain_names)
}

#[test]
fn test_random_agent() {
    let mut game = make_game();
    let ai = create_agent(0);
    let action = ai.choose_action(&game);
    assert!(matches!(action, TurnAction::PlaceTile(_)), "{:?}", action);
    assert_eq!(game.take_turn(action), Ok(false));
}

#[test]
fn smoke_full_game() {
    let mut game = make_game();
    let ai = create_agent(0);
    loop {
        let action = ai.choose_action(&game);
        if game.take_turn(action).unwrap() {
            break;
        }
    }
    // Check that asking for an action at the end of game is valid.
    let action = ai.choose_action(&game);
    assert!(matches!(action, TurnAction::PlaceTile(0)), "{:?}", action);
}

#[test]
fn basic_agents_play_accepted_actions() {
    let mut rng = StdRng::seed_from_u64(5);
    let chain_names = ["A", "B", "C", "D", "E", "F", "G"].map(|s| s.to_string());
    let mut game = GameState::new(3, &mut rng, chain_names);
    let agents = [create_agent(1), create_agent(0), create_agent(1)];
    for _ in 0..2000 {
        let seat = match game.turn_state.phase {
            TurnPhase::ResolveMerger(_, _, p) => p,
            _ => game.turn_state.player,
        };
        let action = agents[seat].choose_action(&game);
        if let TurnAction::BuyStock(order) = &action {
            assert!(order.iter().sum::<usize>() <= 3);
            assert!((0..MAX_NUM_CHAINS).map(|i| order[i] * game.stock_price(i)).sum::<usize>() <= game.players[game.turn_state.player].cash);
        }
        if game.take_turn(action).unwrap() {
            break;
        }
    }
}
