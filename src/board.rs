//! The board: tiles, grid cells, adjacency and the stock price table.
use vstd::prelude::*;

verus! {

/// Number of columns of the grid (named 1 to 12).
pub const GRID_WIDTH: usize = 12;

/// Number of rows of the grid (named A to I).
pub const GRID_HEIGHT: usize = 9;

/// Number of chain slots.
pub const MAX_NUM_CHAINS: usize = 7;

/// Shares issued for each chain.
pub const STOCKS_PER_CHAIN: usize = 25;

/// Most shares one player may buy in one turn.
pub const BUY_LIMIT: usize = 3;

/// A chain of at least this size is safe: it can no longer be absorbed.
pub const SAFE_CHAIN_SIZE: usize = 11;

/// A grid position, as (row, column).
#[derive(Clone, Copy, PartialEq, Eq, Structural, Debug)]
pub struct Tile(pub usize, pub usize);

impl Tile {
    pub open spec fn in_grid(self) -> bool {
        self.0 < GRID_HEIGHT && self.1 < GRID_WIDTH
    }
}

/// The state of one grid position.
#[derive(Clone, Copy, PartialEq, Eq, Structural, Debug)]
pub enum GridCell {
    Empty,
    /// A placed tile that belongs to no chain.
    Hotel,
    Chain0,
    Chain1,
    Chain2,
    Chain3,
    Chain4,
    Chain5,
    Chain6,
    /// A placed tile that joins the winner of a merger still to be picked.
    Dummy,
}

/// The index that stands for the merger placeholder in the conversions below.
pub const DUMMY_INDEX: usize = 999;

/// The chain slot of a cell; `None` for Empty, Hotel and Dummy.
pub open spec fn chain_of(c: GridCell) -> Option<int> {
    match c {
        GridCell::Chain0 => Some(0),
        GridCell::Chain1 => Some(1),
        GridCell::Chain2 => Some(2),
        GridCell::Chain3 => Some(3),
        GridCell::Chain4 => Some(4),
        GridCell::Chain5 => Some(5),
        GridCell::Chain6 => Some(6),
        _ => None,
    }
}

/// The cell of chain slot `i`, for `i < MAX_NUM_CHAINS`.
pub open spec fn chain_cell(i: int) -> GridCell {
    if i == 0 {
        GridCell::Chain0
    } else if i == 1 {
        GridCell::Chain1
    } else if i == 2 {
        GridCell::Chain2
    } else if i == 3 {
        GridCell::Chain3
    } else if i == 4 {
        GridCell::Chain4
    } else if i == 5 {
        GridCell::Chain5
    } else {
        GridCell::Chain6
    }
}

impl GridCell {
    /// The cell of chain slot `chain_idx`, or the merger placeholder for `DUMMY_INDEX`.
    pub fn from_chain_idx(chain_idx: usize) -> (r: GridCell)
        requires
            chain_idx < MAX_NUM_CHAINS || chain_idx == DUMMY_INDEX,
        ensures
            chain_idx == DUMMY_INDEX ==> r == GridCell::Dummy,
            chain_idx < MAX_NUM_CHAINS ==> r == chain_cell(chain_idx as int),
            chain_idx < MAX_NUM_CHAINS ==> chain_of(r) == Some(chain_idx as int),
    {
        match chain_idx {
            0 => GridCell::Chain0,
            1 => GridCell::Chain1,
            2 => GridCell::Chain2,
            3 => GridCell::Chain3,
            4 => GridCell::Chain4,
            5 => GridCell::Chain5,
            6 => GridCell::Chain6,
            _ => GridCell::Dummy,
        }
    }

    /// The chain slot of the cell, `DUMMY_INDEX` for the merger placeholder,
    /// and `None` for an empty cell or an unincorporated hotel.
    pub fn to_chain_index(self) -> (r: Option<usize>)
        ensures
            self == GridCell::Dummy ==> r == Some(DUMMY_INDEX),
            self != GridCell::Dummy ==> match r {
                Some(i) => chain_of(self) == Some(i as int),
                None => chain_of(self) is None,
            },
    {
        match self {
            GridCell::Chain0 => Some(0),
            GridCell::Chain1 => Some(1),
            GridCell::Chain2 => Some(2),
            GridCell::Chain3 => Some(3),
            GridCell::Chain4 => Some(4),
            GridCell::Chain5 => Some(5),
            GridCell::Chain6 => Some(6),
            GridCell::Dummy => Some(DUMMY_INDEX),
            _ => None,
        }
    }
}

/// The grid, row by row.
pub type Grid = [[GridCell; GRID_WIDTH]; GRID_HEIGHT];

/// The grid as rows of cells.
pub open spec fn grid_view(g: Grid) -> Seq<Seq<GridCell>> {
    Seq::new(GRID_HEIGHT as nat, |r: int| g@[r]@)
}

pub open spec fn cell_at(g: Seq<Seq<GridCell>>, r: int, c: int) -> GridCell {
    g[r][c]
}

/// The entry for position (r, c) if it holds a placed tile.
pub open spec fn occupied_at(g: Seq<Seq<GridCell>>, r: int, c: int) -> Seq<(Tile, GridCell)> {
    if cell_at(g, r, c) != GridCell::Empty {
        seq![(Tile(r as usize, c as usize), cell_at(g, r, c))]
    } else {
        Seq::empty()
    }
}

/// The non-empty orthogonal neighbours of `t`: above, below, left, right.
pub open spec fn neighbors_of(t: Tile, g: Seq<Seq<GridCell>>) -> Seq<(Tile, GridCell)> {
    let (r, c) = (t.0 as int, t.1 as int);
    (if r > 0 { occupied_at(g, r - 1, c) } else { Seq::empty() })
        + (if r + 1 < GRID_HEIGHT { occupied_at(g, r + 1, c) } else { Seq::empty() })
        + (if c > 0 { occupied_at(g, r, c - 1) } else { Seq::empty() })
        + (if c + 1 < GRID_WIDTH { occupied_at(g, r, c + 1) } else { Seq::empty() })
}

/// Returns the non-empty orthogonal neighbours of `tile`, in the order
/// above, below, left, right.
pub fn grid_neighbors(tile: Tile, grid: &Grid) -> (r: Vec<(Tile, GridCell)>)
    requires
        tile.in_grid(),
    ensures
        r@ == neighbors_of(tile, grid_view(*grid)),
{
    let mut neighbors: Vec<(Tile, GridCell)> = Vec::new();
    let ghost g = grid_view(*grid);
    let ghost (tr, tc) = (tile.0 as int, tile.1 as int);
    if tile.0 > 0 {
        let cell = grid[tile.0 - 1][tile.1];
        if cell != GridCell::Empty {
            neighbors.push((Tile(tile.0 - 1, tile.1), cell));
        }
    }
    assert(neighbors@ == (if tr > 0 { occupied_at(g, tr - 1, tc) } else { Seq::empty() }));
    let ghost s1 = neighbors@;
    if tile.0 < GRID_HEIGHT - 1 {
        let cell = grid[tile.0 + 1][tile.1];
        if cell != GridCell::Empty {
            neighbors.push((Tile(tile.0 + 1, tile.1), cell));
        }
    }
    assert(neighbors@ == s1 + (if tr + 1 < GRID_HEIGHT { occupied_at(g, tr + 1, tc) } else { Seq::empty() }));
    let ghost s2 = neighbors@;
    if tile.1 > 0 {
        let cell = grid[tile.0][tile.1 - 1];
        if cell != GridCell::Empty {
            neighbors.push((Tile(tile.0, tile.1 - 1), cell));
        }
    }
    assert(neighbors@ == s2 + (if tc > 0 { occupied_at(g, tr, tc - 1) } else { Seq::empty() }));
    let ghost s3 = neighbors@;
    if tile.1 < GRID_WIDTH - 1 {
        let cell = grid[tile.0][tile.1 + 1];
        if cell != GridCell::Empty {
            neighbors.push((Tile(tile.0, tile.1 + 1), cell));
        }
    }
    assert(neighbors@ == s3 + (if tc + 1 < GRID_WIDTH { occupied_at(g, tr, tc + 1) } else { Seq::empty() }));
    neighbors
}

/// The price of one share before the tier premium: a step function of the
/// chain's size.
pub open spec fn base_price(size: int) -> int {
    if size <= 1 {
        0
    } else if size <= 6 {
        size * 100
    } else if size <= 10 {
        600
    } else if size <= 20 {
        700
    } else if size <= 30 {
        800
    } else if size <= 40 {
        900
    } else {
        1000
    }
}

/// The premium of a chain's tier: chains 0-1 are cheap, 2-4 medium, 5-6 expensive.
pub open spec fn tier_premium(chain_index: int) -> int {
    if chain_index <= 1 {
        0
    } else if chain_index <= 4 {
        100
    } else {
        200
    }
}

/// The price of one share of chain `chain_index` at size `size`; a chain
/// that does not exist yet (size 0) or has a single tile has no price.
pub open spec fn share_price(chain_index: int, size: int) -> int {
    if size <= 1 {
        0
    } else {
        base_price(size) + tier_premium(chain_index)
    }
}

/// No share costs more than this.
pub const MAX_SHARE_PRICE: usize = 1200;

/// Returns the price of one share of chain `chain_index` when the chain has
/// `chain_size` tiles.
pub fn chain_stock_price(chain_index: usize, chain_size: usize) -> (r: usize)
    requires
        chain_index < MAX_NUM_CHAINS,
    ensures
        r == share_price(chain_index as int, chain_size as int),
        r <= MAX_SHARE_PRICE,
{
    let price: usize = if chain_size <= 1 {
        return 0;
    } else if chain_size <= 6 {
        chain_size * 100
    } else if chain_size <= 10 {
        600
    } else if chain_size <= 20 {
        700
    } else if chain_size <= 30 {
        800
    } else if chain_size <= 40 {
        900
    } else {
        1000
    };
    if chain_index <= 1 {
        price
    } else if chain_index <= 4 {
        price + 100
    } else {
        price + 200
    }
}

/// Within a tier, the price never falls as a chain grows, and it is zero
/// exactly for a chain of size 0 or 1.
pub proof fn lemma_price_monotonic(chain_index: int, s1: int, s2: int)
    requires
        0 <= chain_index < MAX_NUM_CHAINS,
        0 <= s1 <= s2,
    ensures
        share_price(chain_index, s1) <= share_price(chain_index, s2),
        share_price(chain_index, s1) == 0 <==> s1 <= 1,
{
}

/// A tile has at most four neighbours, each on the grid and placed.
pub proof fn lemma_neighbors_facts(t: Tile, g: Seq<Seq<GridCell>>)
    requires
        t.in_grid(),
    ensures
        neighbors_of(t, g).len() <= 4,
        forall|k: int|
            0 <= k < neighbors_of(t, g).len() ==> (#[trigger] neighbors_of(t, g)[k]).0.in_grid()
                && neighbors_of(t, g)[k].1 != GridCell::Empty && neighbors_of(t, g)[k].1 == cell_at(
                g,
                neighbors_of(t, g)[k].0.0 as int,
                neighbors_of(t, g)[k].0.1 as int,
            ),
{
    let (r, c) = (t.0 as int, t.1 as int);
    let a = if r > 0 { occupied_at(g, r - 1, c) } else { Seq::empty() };
    let b = if r + 1 < GRID_HEIGHT { occupied_at(g, r + 1, c) } else { Seq::empty() };
    let d = if c > 0 { occupied_at(g, r, c - 1) } else { Seq::empty() };
    let e = if c + 1 < GRID_WIDTH { occupied_at(g, r, c + 1) } else { Seq::empty() };
    let nb = neighbors_of(t, g);
    assert(nb == a + b + d + e);
    assert forall|k: int| 0 <= k < nb.len() implies (#[trigger] nb[k]).0.in_grid() && nb[k].1
        != GridCell::Empty && nb[k].1 == cell_at(g, nb[k].0.0 as int, nb[k].0.1 as int) by {
        if k < a.len() {
            assert(nb[k] == a[k]);
        } else if k < a.len() + b.len() {
            assert(nb[k] == b[k - a.len()]);
        } else if k < a.len() + b.len() + d.len() {
            assert(nb[k] == d[k - a.len() - b.len()]);
        } else {
            assert(nb[k] == e[k - a.len() - b.len() - d.len()]);
        }
    }
}

} // verus!
