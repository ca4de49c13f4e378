use acquire::board::{chain_stock_price, grid_neighbors, GridCell, Tile, GRID_HEIGHT, GRID_WIDTH, MAX_NUM_CHAINS};

#[test]
fn tile_debug() {
    assert_eq!(Tile(0, 0).label(), "1-A");
    assert_eq!(Tile(0, 9).label(), "10-A");
    assert_eq!(Tile(1, 0).label(), "1-B");
    assert_eq!(Tile(9, 9).label(), "10-J");
}

#[test]
fn gridcell_roundtrip() {
    for i in 0..MAX_NUM_CHAINS {
        assert_eq!(GridCell::from_chain_idx(i).to_chain_index(), Some(i));
    }
    assert_eq!(
        GridCell::from_chain_idx(GridCell::Dummy.to_chain_index().unwrap()),
        GridCell::Dummy
    );
    assert_eq!(GridCell::Empty.to_chain_index(), None);
}

#[test]
fn computes_stock_price() {
    // Any chain of size 0 has a price of 0.
    assert_eq!(chain_stock_price(0, 0), 0);
    assert_eq!(chain_stock_price(3, 0), 0);
    assert_eq!(chain_stock_price(6, 0), 0);
    // Small chains scale linearly, plus some extra based on the chain index.
    assert_eq!(chain_stock_price(0, 2), 200);
    assert_eq!(chain_stock_price(3, 2), 300);
    assert_eq!(chain_stock_price(6, 6), 800);
    // Medium chains have a fixed price.
    assert_eq!(chain_stock_price(0, 7), 600);
    assert_eq!(chain_stock_price(0, 10), 600);
}

#[test]
fn stock_price_bands_and_tiers() {
    assert_eq!(chain_stock_price(0, 1), 0);
    assert_eq!(chain_stock_price(1, 11), 700);
    assert_eq!(chain_stock_price(2, 20), 800);
    assert_eq!(chain_stock_price(4, 21), 900);
    assert_eq!(chain_stock_price(5, 31), 1100);
    assert_eq!(chain_stock_price(6, 41), 1200);
    assert_eq!(chain_stock_price(0, 999), 1000);
}

#[test]
fn stock_price_never_falls_as_a_chain_grows() {
    for chain in 0..MAX_NUM_CHAINS {
        for size in 0..60 {
            assert!(chain_stock_price(chain, size) <= chain_stock_price(chain, size + 1));
            assert_eq!(chain_stock_price(chain, size) == 0, size <= 1);
        }
    }
}

#[test]
fn finds_grid_neighbors() {
    let mut grid = [[GridCell::Empty; GRID_WIDTH]; GRID_HEIGHT];
    assert_eq!(grid_neighbors(Tile(0, 0), &grid), vec![]);
    // One neighbor
    grid[1][1] = GridCell::Hotel;
    assert_eq!(
        grid_neighbors(Tile(2, 1), &grid),
        vec![(Tile(1, 1), GridCell::Hotel)]
    );
    // Two neighbors.
    grid[3][1] = GridCell::Chain1;
    assert_eq!(
        grid_neighbors(Tile(2, 1), &grid),
        vec![
            (Tile(1, 1), GridCell::Hotel),
            (Tile(3, 1), GridCell::Chain1),
        ]
    );
}

#[test]
fn neighbors_at_the_far_corner() {
    let mut grid = [[GridCell::Empty; GRID_WIDTH]; GRID_HEIGHT];
    grid[7][11] = GridCell::Chain0;
    grid[8][10] = GridCell::Dummy;
    assert_eq!(
        grid_neighbors(Tile(8, 11), &grid),
        vec![(Tile(7, 11), GridCell::Chain0), (Tile(8, 10), GridCell::Dummy)]
    );
}
