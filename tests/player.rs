use acquire::board::Tile;
use acquire::player::{distribute_bonus, pay_bonuses, Player};

#[test]
fn player_display() {
    let chain_names = ["A".to_string(), "B".to_string(), "C".to_string()];
    assert_eq!(
        Player::new(0, vec![]).display(&chain_names),
        "Cash: $0, Stocks: [], Tiles: []"
    );
    assert_eq!(
        Player::new(500, vec![Tile(1, 1)]).display(&chain_names),
        "Cash: $500, Stocks: [], Tiles: [2-B]"
    );
    let mut p = Player::new(100, vec![Tile(1, 1), Tile(2, 2)]);
    p.stocks[1] = 13;
    assert_eq!(
        p.display(&chain_names),
        "Cash: $100, Stocks: [B: 13], Tiles: [2-B, 3-C]"
    );
}

#[test]
fn player_display_several_holdings() {
    let chain_names = ["K".to_string(), "L".to_string(), "M".to_string()];
    let mut p = Player::new(12345, vec![Tile(8, 11)]);
    p.stocks[0] = 2;
    p.stocks[2] = 25;
    assert_eq!(
        p.display(&chain_names),
        "Cash: $12345, Stocks: [K: 2, M: 25], Tiles: [12-I]"
    );
}

#[test]
fn player_counts() {
    let mut p = Player::new(10, vec![Tile(0, 0), Tile(0, 1), Tile(0, 2)]);
    p.stocks[0] = 3;
    p.stocks[6] = 4;
    assert_eq!(p.total_shares(), 7);
    assert_eq!(p.num_tiles(), 3);
}

#[test]
fn distributes_bonus() {
    let mut players = [
        Player::new(0, vec![]),
        Player::new(100, vec![]),
        Player::new(200, vec![]),
    ];
    // 1000 split 3 ways is rounded up to 400 each.
    distribute_bonus(1000, &[0, 1, 2], &mut players);
    assert_eq!(players[0].cash, 400);
    assert_eq!(players[1].cash, 500);
    assert_eq!(players[2].cash, 600);
    // 100 to a single player.
    distribute_bonus(100, &[0], &mut players);
    assert_eq!(players[0].cash, 500);
    assert_eq!(players[1].cash, 500);
    assert_eq!(players[2].cash, 600);
}

#[test]
fn pay_bonuses_simple() {
    let mut players = [
        Player::new(0, vec![]),
        Player::new(100, vec![]),
        Player::new(200, vec![]),
    ];
    // Test the simple case of a single majority holder and single second place.
    players[0].stocks[3] = 1;
    players[1].stocks[3] = 4;
    players[2].stocks[3] = 3;
    pay_bonuses(3, 300, &mut players);
    assert_eq!(players[0].cash, 0); // No bonus.
    assert_eq!(players[1].cash, 3100); // Majority bonus is 3000.
    assert_eq!(players[2].cash, 1700); // Second place bonus is 1500.
}

#[test]
fn pay_bonuses_majority_tie() {
    let mut players = [
        Player::new(0, vec![]),
        Player::new(100, vec![]),
        Player::new(200, vec![]),
    ];
    // Tie for majority.
    players[0].stocks[2] = 7;
    players[1].stocks[3] = 3;
    players[2].stocks[3] = 3;
    pay_bonuses(3, 300, &mut players);
    assert_eq!(players[0].cash, 0); // No bonus.
    assert_eq!(players[1].cash, 2400); // Combined bonus: 4500 / 2 => 2300
    assert_eq!(players[2].cash, 2500); // Combined bonus: 4500 / 2 => 2300
}

#[test]
fn pay_bonuses_second_place_tie() {
    let mut players = [
        Player::new(0, vec![]),
        Player::new(100, vec![]),
        Player::new(200, vec![]),
    ];
    // Tie for second place.
    players[0].stocks[3] = 1;
    players[1].stocks[3] = 3;
    players[2].stocks[3] = 1;
    pay_bonuses(3, 300, &mut players);
    assert_eq!(players[0].cash, 800); // Second place: 1500 / 2 => 800
    assert_eq!(players[1].cash, 3100); // Majority bonus is 3000.
    assert_eq!(players[2].cash, 1000); // Second place: 1500 / 2 => 800
}

#[test]
fn pay_bonuses_sole_majority() {
    let mut players = [
        Player::new(0, vec![]),
        Player::new(100, vec![]),
        Player::new(200, vec![]),
    ];
    // Only one player has any of the relevant stock.
    players[0].stocks[1] = 0;
    players[1].stocks[3] = 3;
    players[2].stocks[0] = 0;
    pay_bonuses(3, 300, &mut players);
    assert_eq!(players[0].cash, 0); // No bonus.
    assert_eq!(players[1].cash, 4600); // Combined bonus: 4500
    assert_eq!(players[2].cash, 200); // No bonus.
}

#[test]
fn two_way_majority_tie_rounds_up() {
    let mut players = [Player::new(0, vec![]), Player::new(0, vec![])];
    players[0].stocks[4] = 3;
    players[1].stocks[4] = 3;
    pay_bonuses(4, 300, &mut players);
    assert_eq!(players[0].cash, 2300);
    assert_eq!(players[1].cash, 2300);
}

#[test]
fn sole_holder_takes_both_bonuses() {
    let mut players = [Player::new(0, vec![]), Player::new(0, vec![]), Player::new(0, vec![])];
    players[2].stocks[0] = 25;
    pay_bonuses(0, 1000, &mut players);
    assert_eq!(players[0].cash, 0);
    assert_eq!(players[1].cash, 0);
    assert_eq!(players[2].cash, 15000);
}

#[test]
fn a_lone_player_takes_both_bonuses() {
    let mut players = [Player::new(50, vec![])];
    players[0].stocks[5] = 1;
    pay_bonuses(5, 700, &mut players);
    assert_eq!(players[0].cash, 50 + 7000 + 3500);
}

#[test]
fn three_way_tie_for_second_rounds_up() {
    let mut players = [
        Player::new(0, vec![]),
        Player::new(0, vec![]),
        Player::new(0, vec![]),
        Player::new(0, vec![]),
    ];
    players[0].stocks[1] = 5;
    players[1].stocks[1] = 2;
    players[2].stocks[1] = 2;
    players[3].stocks[1] = 2;
    pay_bonuses(1, 200, &mut players);
    assert_eq!(players[0].cash, 2000);
    // 1000 split three ways is 333, rounded up to 400.
    assert_eq!(players[1].cash, 400);
    assert_eq!(players[2].cash, 400);
    assert_eq!(players[3].cash, 400);
}

#[test]
fn no_bonus_when_nobody_holds_the_chain() {
    let mut players = [Player::new(100, vec![]), Player::new(200, vec![])];
    players[0].stocks[1] = 4;
    pay_bonuses(3, 300, &mut players);
    assert_eq!(players[0].cash, 100);
    assert_eq!(players[1].cash, 200);
}
