//! Chain sizes and the grid agree: a chain has no tiles exactly when its
//! size is zero, except for the chains being retired by a merger.
use vstd::prelude::*;

use crate::board::{
    cell_at, chain_cell, chain_of, neighbors_of, GridCell, Tile, GRID_HEIGHT, GRID_WIDTH,
    MAX_NUM_CHAINS,
};
use crate::game::TurnAction;
use crate::rules::{
    count_chains, create_chain, draw, end_turn, joins_winner, paint_entries, pick_winning_chain,
    place_tile, recolor, resolve_merger, set_cell, shape_ok, step, touched_chains, touches,
    well_formed, with_hand, GameModel, GridModel, PhaseModel, PlayerModel,
};

verus! {

/// Some cell of the grid belongs to chain `c`.
pub open spec fn has_cells(g: GridModel, c: int) -> bool {
    exists|r: int, col: int|
        0 <= r < GRID_HEIGHT && 0 <= col < GRID_WIDTH && #[trigger] g[r][col] == chain_cell(c)
}

/// Chain `c` is being retired by the merger under way.
pub open spec fn retiring(m: GameModel, c: int) -> bool {
    m.phase matches PhaseModel::ResolveMerger(_, losers, _) && losers.contains(c as usize)
}

/// Every chain not being retired has size zero exactly when no cell belongs to it.
pub open spec fn sizes_match_cells(m: GameModel) -> bool {
    forall|c: int|
        0 <= c < MAX_NUM_CHAINS && !retiring(m, c) ==> (#[trigger] m.sizes[c] == 0 <==> !has_cells(
            m.grid,
            c,
        ))
}

/// Tile `t` is in a hand or in the draw pile.
pub open spec fn held(m: GameModel, t: Tile) -> bool {
    (exists|p: int, k: int|
        0 <= p < m.players.len() && 0 <= k < m.players[p].tiles.len() && #[trigger] m.players[p].tiles[k]
            == t) || m.pile.contains(t)
}

/// Tiles in hands and in the pile lie on empty cells, and none is held twice.
pub open spec fn tiles_fresh(m: GameModel) -> bool {
    &&& forall|p: int, k: int|
        0 <= p < m.players.len() && 0 <= k < m.players[p].tiles.len() ==> cell_at(
            m.grid,
            (#[trigger] m.players[p].tiles[k]).0 as int,
            m.players[p].tiles[k].1 as int,
        ) == GridCell::Empty
    &&& forall|k: int|
        0 <= k < m.pile.len() ==> cell_at(m.grid, (#[trigger] m.pile[k]).0 as int, m.pile[k].1 as int)
            == GridCell::Empty
    &&& forall|p: int, q: int, k: int, j: int|
        0 <= p < m.players.len() && 0 <= q < m.players.len() && 0 <= k < m.players[p].tiles.len() && 0
            <= j < m.players[q].tiles.len() && (p != q || k != j) ==> #[trigger] m.players[p].tiles[k]
            != #[trigger] m.players[q].tiles[j]
    &&& m.pile.no_duplicates()
    &&& forall|p: int, k: int, j: int|
        0 <= p < m.players.len() && 0 <= k < m.players[p].tiles.len() && 0 <= j < m.pile.len()
            ==> #[trigger] m.players[p].tiles[k] != #[trigger] m.pile[j]
}

/// What the pending decision needs: a tile that founds a chain is on an
/// empty cell and touches no chain; merging chains have tiles; retiring
/// chains have none, and the winner is not among them.
pub open spec fn phase_cells(m: GameModel) -> bool {
    match m.phase {
        PhaseModel::CreateChain(t, _) => {
            &&& cell_at(m.grid, t.0 as int, t.1 as int) == GridCell::Empty
            &&& !held(m, t)
            &&& forall|c: int| 0 <= c < MAX_NUM_CHAINS ==> !#[trigger] touches(m.grid, t, c)
        },
        PhaseModel::PickWinningChain(_, merging) => forall|k: int|
            0 <= k < merging.len() ==> has_cells(m.grid, #[trigger] merging[k] as int),
        PhaseModel::ResolveMerger(w, losers, _) => {
            &&& !losers.contains(w as usize)
            &&& forall|k: int| 0 <= k < losers.len() ==> !has_cells(m.grid, #[trigger] losers[k] as int)
        },
        _ => true,
    }
}

/// The grid and the chain sizes agree, with the facts that keep them agreeing.
pub open spec fn cells_consistent(m: GameModel) -> bool {
    &&& sizes_match_cells(m)
    &&& tiles_fresh(m)
    &&& phase_cells(m)
}

/// The grid has its nine rows of twelve cells.
pub open spec fn grid_shape(g: GridModel) -> bool {
    &&& g.len() == GRID_HEIGHT
    &&& forall|r: int| 0 <= r < GRID_HEIGHT ==> (#[trigger] g[r]).len() == GRID_WIDTH
}

/// Setting one cell changes that cell only.
pub proof fn lemma_set_cell_at(g: GridModel, t: Tile, x: GridCell, r: int, col: int)
    requires
        grid_shape(g),
        t.in_grid(),
        0 <= r < GRID_HEIGHT,
        0 <= col < GRID_WIDTH,
    ensures
        set_cell(g, t, x)[r][col] == if r == t.0 && col == t.1 {
            x
        } else {
            g[r][col]
        },
{
}

/// Painting leaves a cell as it was, or sets it to `x` where an entry names it.
pub proof fn lemma_paint_at(
    g: GridModel,
    nb: Seq<(Tile, GridCell)>,
    x: GridCell,
    pred: spec_fn(GridCell) -> bool,
    r: int,
    col: int,
)
    requires
        grid_shape(g),
        forall|k: int| 0 <= k < nb.len() ==> (#[trigger] nb[k]).0.in_grid(),
        0 <= r < GRID_HEIGHT,
        0 <= col < GRID_WIDTH,
    ensures
        paint_entries(g, nb, x, pred)[r][col] == g[r][col] || (paint_entries(g, nb, x, pred)[r][col]
            == x && exists|k: int|
            0 <= k < nb.len() && (#[trigger] nb[k]).0 == Tile(r as usize, col as usize) && pred(nb[k].1)),
    decreases nb.len(),
{
    if nb.len() > 0 {
        let d = nb.drop_last();
        lemma_paint_at(g, d, x, pred, r, col);
        crate::laws::lemma_paint_shape(g, d, x, pred);
        let g1 = paint_entries(g, d, x, pred);
        if pred(nb.last().1) {
            lemma_set_cell_at(g1, nb.last().0, x, r, col);
            if r == nb.last().0.0 && col == nb.last().0.1 {
                assert(nb[nb.len() - 1].0 == Tile(r as usize, col as usize));
            }
        }
        if paint_entries(g, d, x, pred)[r][col] != g[r][col] {
            let k = choose|k: int|
                0 <= k < d.len() && (#[trigger] d[k]).0 == Tile(r as usize, col as usize) && pred(d[k].1);
            assert(nb[k] == d[k]);
        }
    }
}

/// Two grids that agree on where chain `c` lies agree on whether it has tiles.
pub proof fn lemma_has_cells_same(g: GridModel, g2: GridModel, c: int)
    requires
        forall|r: int, col: int|
            0 <= r < GRID_HEIGHT && 0 <= col < GRID_WIDTH ==> (#[trigger] g2[r][col] == chain_cell(c))
                == (g[r][col] == chain_cell(c)),
    ensures
        has_cells(g2, c) == has_cells(g, c),
{
    if has_cells(g, c) {
        let (r, col) = choose|r: int, col: int|
            0 <= r < GRID_HEIGHT && 0 <= col < GRID_WIDTH && #[trigger] g[r][col] == chain_cell(c);
        assert(g2[r][col] == chain_cell(c));
    }
    if has_cells(g2, c) {
        let (r, col) = choose|r: int, col: int|
            0 <= r < GRID_HEIGHT && 0 <= col < GRID_WIDTH && #[trigger] g2[r][col] == chain_cell(c);
        assert(g[r][col] == chain_cell(c));
    }
}

/// The chain cells of distinct chains differ, and each names its chain.
pub proof fn lemma_chain_cells(c: int, d: int)
    requires
        0 <= c < MAX_NUM_CHAINS,
        0 <= d < MAX_NUM_CHAINS,
    ensures
        chain_of(chain_cell(c)) == Some(c),
        c != d ==> chain_cell(c) != chain_cell(d),
        chain_cell(c) != GridCell::Empty && chain_cell(c) != GridCell::Hotel && chain_cell(c)
            != GridCell::Dummy,
{
}

/// Ending a turn keeps the grid and the sizes agreeing.
pub proof fn lemma_end_turn_cells(m: GameModel)
    requires
        shape_ok(m),
        0 <= m.current < m.players.len(),
        sizes_match_cells(m),
        tiles_fresh(m),
        !(m.phase is ResolveMerger),
    ensures
        cells_consistent(end_turn(m)),
{
    let (rest, drawn) = draw(m.grid, m.sizes, m.pile);
    crate::laws::lemma_draw(m.grid, m.sizes, m.pile);
    let cur = m.players[m.current];
    let hand = match drawn {
        Some(t) => cur.tiles.push(t),
        None => cur.tiles,
    };
    let players = m.players.update(m.current, PlayerModel { tiles: hand, ..cur });
    let e = end_turn(m);
    if crate::rules::is_game_over(m.sizes) {
        crate::laws::lemma_final_bonuses_bounded(players, m.sizes, MAX_NUM_CHAINS as int, 0);
        assert forall|p: int| 0 <= p < players.len() implies #[trigger] e.players[p].tiles == players[p].tiles by {
            crate::laws::lemma_final_bonuses_bounded(players, m.sizes, MAX_NUM_CHAINS as int, p);
        }
    }
    assert forall|p: int| 0 <= p < e.players.len() implies #[trigger] e.players[p].tiles == (if p == m.current {
        hand
    } else {
        m.players[p].tiles
    }) by {
        if crate::rules::is_game_over(m.sizes) {
            crate::laws::lemma_final_bonuses_bounded(players, m.sizes, MAX_NUM_CHAINS as int, p);
        }
    }
    assert(e.pile == rest);
    assert(e.grid == m.grid);
    assert(e.sizes == m.sizes);
    // Each held tile of the new state was held before, at the same or an earlier place.
    assert forall|p: int, k: int| 0 <= p < e.players.len() && 0 <= k < e.players[p].tiles.len() implies {
        ||| (p != m.current || k < cur.tiles.len()) && #[trigger] e.players[p].tiles[k] == m.players[p].tiles[k]
        ||| p == m.current && k == cur.tiles.len() && e.players[p].tiles[k] == m.pile[rest.len() as int] && rest.len() < m.pile.len()
    } by {
        assert(e.players[p].tiles == (if p == m.current { hand } else { m.players[p].tiles }));
    }
    assert forall|j: int| 0 <= j < rest.len() implies #[trigger] rest[j] == m.pile[j] by {}
    assert(tiles_fresh(e));
    assert(sizes_match_cells(e)) by {
        assert forall|c: int| 0 <= c < MAX_NUM_CHAINS && !retiring(e, c) implies (#[trigger] e.sizes[c] == 0
            <==> !has_cells(e.grid, c)) by {
            assert(!retiring(m, c));
        }
    }
}

/// Two distinct chains satisfying a predicate make its count at least two.
pub proof fn lemma_count_two(k: int, pred: spec_fn(int) -> bool, a: int, b: int)
    requires
        0 <= a < k,
        0 <= b < k,
        a != b,
        pred(a),
        pred(b),
    ensures
        count_chains(k, pred) >= 2,
    decreases k,
{
    if k - 1 != a && k - 1 != b {
        lemma_count_two(k - 1, pred, a, b);
    } else {
        let other = if k - 1 == a { b } else { a };
        lemma_count_one(k - 1, pred, other);
    }
}

/// A chain satisfying a predicate makes its count at least one.
pub proof fn lemma_count_one(k: int, pred: spec_fn(int) -> bool, a: int)
    requires
        0 <= a < k,
        pred(a),
    ensures
        count_chains(k, pred) >= 1,
    decreases k,
{
    if k - 1 != a {
        lemma_count_one(k - 1, pred, a);
    }
}

/// A chain that a tile touches has tiles on the grid.
pub proof fn lemma_touched_has_cells(g: GridModel, t: Tile, c: int)
    requires
        grid_shape(g),
        t.in_grid(),
        0 <= c < MAX_NUM_CHAINS,
        touches(g, t, c),
    ensures
        has_cells(g, c),
{
    let nb = neighbors_of(t, g);
    crate::board::lemma_neighbors_facts(t, g);
    let k = choose|k: int| 0 <= k < nb.len() && chain_of(#[trigger] nb[k].1) == Some(c);
    let pos = nb[k].0;
    assert(g[pos.0 as int][pos.1 as int] == chain_cell(c));
}

/// The cells that painting the placed tile and its neighbours can change:
/// the tile's own, and those of neighbours that the predicate picks.
pub proof fn lemma_paint_around(
    g: GridModel,
    t: Tile,
    x: GridCell,
    pred: spec_fn(GridCell) -> bool,
    r: int,
    col: int,
)
    requires
        grid_shape(g),
        t.in_grid(),
        0 <= r < GRID_HEIGHT,
        0 <= col < GRID_WIDTH,
    ensures
        ({
            let g2 = paint_entries(set_cell(g, t, x), neighbors_of(t, g), x, pred);
            ||| g2[r][col] == g[r][col]
            ||| g2[r][col] == x && r == t.0 && col == t.1
            ||| g2[r][col] == x && g[r][col] != GridCell::Empty && pred(g[r][col]) && touches_at(g, t, r, col)
        }),
{
    let nb = neighbors_of(t, g);
    crate::board::lemma_neighbors_facts(t, g);
    crate::laws::lemma_set_cell_shape(g, t, x);
    let g1 = set_cell(g, t, x);
    lemma_set_cell_at(g, t, x, r, col);
    lemma_paint_at(g1, nb, x, pred, r, col);
    let g2 = paint_entries(g1, nb, x, pred);
    if g2[r][col] != g1[r][col] {
        let k = choose|k: int|
            0 <= k < nb.len() && (#[trigger] nb[k]).0 == Tile(r as usize, col as usize) && pred(nb[k].1);
        assert(nb[k].1 == cell_at(g, r, col));
    }
}

/// Position (r, col) is a neighbour of `t`.
pub open spec fn touches_at(g: GridModel, t: Tile, r: int, col: int) -> bool {
    exists|k: int|
        0 <= k < neighbors_of(t, g).len() && (#[trigger] neighbors_of(t, g)[k]).0 == Tile(r as usize, col as usize)
            && neighbors_of(t, g)[k].1 == cell_at(g, r, col)
}

/// A neighbour's cell names a chain only if the tile touches that chain.
pub proof fn lemma_touches_at(g: GridModel, t: Tile, r: int, col: int, d: int)
    requires
        grid_shape(g),
        t.in_grid(),
        touches_at(g, t, r, col),
        0 <= d < MAX_NUM_CHAINS,
        g[r][col] == chain_cell(d),
    ensures
        touches(g, t, d),
{
    let nb = neighbors_of(t, g);
    let k = choose|k: int|
        0 <= k < nb.len() && (#[trigger] nb[k]).0 == Tile(r as usize, col as usize) && nb[k].1 == cell_at(g, r, col);
    assert(chain_of(nb[k].1) == Some(d));
}

/// The players' hands and the pile of `m2` hold a subset of those of `m`, at
/// positions that map one to one.
pub proof fn lemma_fresh_after_removal(m: GameModel, idx: int)
    requires
        tiles_fresh(m),
        0 <= m.current < m.players.len(),
        0 <= idx < m.players[m.current].tiles.len(),
    ensures
        ({
            let m1 = GameModel {
                players: with_hand(m.players, m.current, m.players[m.current].tiles.remove(idx)),
                ..m
            };
            &&& tiles_fresh(m1)
            &&& !held(m1, m.players[m.current].tiles[idx])
            &&& forall|p: int, k: int|
                0 <= p < m1.players.len() && 0 <= k < m1.players[p].tiles.len() ==> #[trigger] m1.players[p].tiles[k]
                    != m.players[m.current].tiles[idx]
        }),
{
    let cur = m.current;
    let hand = m.players[cur].tiles;
    let t = hand[idx];
    let m1 = GameModel { players: with_hand(m.players, cur, hand.remove(idx)), ..m };
    // Where each held tile of m1 sat in m.
    let src = |p: int, k: int| if p == cur && k >= idx { k + 1 } else { k };
    assert forall|p: int, k: int| 0 <= p < m1.players.len() && 0 <= k < m1.players[p].tiles.len() implies
        #[trigger] m1.players[p].tiles[k] == m.players[p].tiles[src(p, k)] && 0 <= src(p, k) < m.players[p].tiles.len()
        && (p == cur ==> src(p, k) != idx) by {
        if p != cur {
            assert(m1.players[p] == m.players[p]);
        }
    }
    assert forall|p: int, k: int| 0 <= p < m1.players.len() && 0 <= k < m1.players[p].tiles.len() implies
        #[trigger] m1.players[p].tiles[k] != t by {
        assert(m1.players[p].tiles[k] == m.players[p].tiles[src(p, k)]);
        assert(m.players[p].tiles[src(p, k)] != m.players[cur].tiles[idx]);
    }
    assert forall|p: int, q: int, k: int, j: int|
        0 <= p < m1.players.len() && 0 <= q < m1.players.len() && 0 <= k < m1.players[p].tiles.len() && 0
            <= j < m1.players[q].tiles.len() && (p != q || k != j) implies #[trigger] m1.players[p].tiles[k]
            != #[trigger] m1.players[q].tiles[j] by {
        assert(m1.players[p].tiles[k] == m.players[p].tiles[src(p, k)]);
        assert(m1.players[q].tiles[j] == m.players[q].tiles[src(q, j)]);
    }
    assert forall|p: int, k: int, j: int|
        0 <= p < m1.players.len() && 0 <= k < m1.players[p].tiles.len() && 0 <= j < m1.pile.len()
            implies #[trigger] m1.players[p].tiles[k] != #[trigger] m1.pile[j] by {
        assert(m1.players[p].tiles[k] == m.players[p].tiles[src(p, k)]);
    }
    assert forall|p: int, k: int| 0 <= p < m1.players.len() && 0 <= k < m1.players[p].tiles.len() implies
        cell_at(m1.grid, (#[trigger] m1.players[p].tiles[k]).0 as int, m1.players[p].tiles[k].1 as int) == GridCell::Empty by {
        assert(m1.players[p].tiles[k] == m.players[p].tiles[src(p, k)]);
    }
    if m1.pile.contains(t) {
        let j = choose|j: int| 0 <= j < m1.pile.len() && m1.pile[j] == t;
        assert(m.players[cur].tiles[idx] != m.pile[j]);
    }
}

/// Held tiles keep their empty cells when only the placed tile and some of
/// its (placed) neighbours are repainted.
pub proof fn lemma_fresh_after_paint(m1: GameModel, g2: GridModel, t: Tile)
    requires
        tiles_fresh(m1),
        grid_shape(m1.grid),
        t.in_grid(),
        !held(m1, t),
        forall|p: int, k: int| 0 <= p < m1.players.len() && 0 <= k < m1.players[p].tiles.len() ==> (
        #[trigger] m1.players[p].tiles[k]).in_grid(),
        forall|k: int| 0 <= k < m1.pile.len() ==> (#[trigger] m1.pile[k]).in_grid(),
        forall|r: int, col: int|
            0 <= r < GRID_HEIGHT && 0 <= col < GRID_WIDTH ==> #[trigger] g2[r][col] == m1.grid[r][col] || (r
                == t.0 && col == t.1) || m1.grid[r][col] != GridCell::Empty,
    ensures
        tiles_fresh(GameModel { grid: g2, ..m1 }),
{
    let m2 = GameModel { grid: g2, ..m1 };
    assert forall|p: int, k: int| 0 <= p < m2.players.len() && 0 <= k < m2.players[p].tiles.len() implies cell_at(
        m2.grid,
        (#[trigger] m2.players[p].tiles[k]).0 as int,
        m2.players[p].tiles[k].1 as int,
    ) == GridCell::Empty by {
        let h = m1.players[p].tiles[k];
        assert(h != t);
        assert(g2[h.0 as int][h.1 as int] == m1.grid[h.0 as int][h.1 as int] || (h.0 == t.0 && h.1 == t.1)
            || m1.grid[h.0 as int][h.1 as int] != GridCell::Empty);
    }
    assert forall|k: int| 0 <= k < m2.pile.len() implies cell_at(m2.grid, (#[trigger] m2.pile[k]).0 as int, m2.pile[k].1 as int)
        == GridCell::Empty by {
        let h = m1.pile[k];
        assert(h != t);
        assert(g2[h.0 as int][h.1 as int] == m1.grid[h.0 as int][h.1 as int] || (h.0 == t.0 && h.1 == t.1)
            || m1.grid[h.0 as int][h.1 as int] != GridCell::Empty);
    }
}

/// Placing a tile keeps the grid and the chain sizes agreeing.
pub proof fn lemma_place_cells(m: GameModel, idx: usize)
    requires
        well_formed(m),
        cells_consistent(m),
        place_tile(m, idx) is Ok,
    ensures
        cells_consistent(place_tile(m, idx)->Ok_0),
{
    let m2 = place_tile(m, idx)->Ok_0;
    let cur = m.current;
    let hand = m.players[cur].tiles;
    let valid = m.phase->PlaceTile_0;
    assert(m.phase is PlaceTile);
    assert(crate::rules::phase_wf(m));
    assert(valid.contains(idx));
    let i = choose|i: int| 0 <= i < valid.len() && valid[i] == idx;
    assert(idx < hand.len());
    let t = hand[idx as int];
    assert(t.in_grid());
    let m1 = GameModel { players: with_hand(m.players, cur, hand.remove(idx as int)), ..m };
    lemma_fresh_after_removal(m, idx as int);
    let g = m.grid;
    assert(grid_shape(g));
    assert(cell_at(g, t.0 as int, t.1 as int) == GridCell::Empty);
    assert forall|p: int, k: int| 0 <= p < m1.players.len() && 0 <= k < m1.players[p].tiles.len() implies (
    #[trigger] m1.players[p].tiles[k]).in_grid() by {
        if p == cur {
            if k < idx {
                assert(m1.players[p].tiles[k] == hand[k]);
            } else {
                assert(m1.players[p].tiles[k] == hand[k + 1]);
            }
        } else {
            assert(m1.players[p] == m.players[p]);
        }
    }
    assert forall|c: int| 0 <= c < MAX_NUM_CHAINS implies !retiring(m, c) by {}
    let nb = neighbors_of(t, g);
    crate::board::lemma_neighbors_facts(t, g);
    if nb.len() == 0 {
        let gh = set_cell(g, t, GridCell::Hotel);
        let mh = GameModel { grid: gh, ..m1 };
        crate::laws::lemma_set_cell_shape(g, t, GridCell::Hotel);
        assert forall|r: int, col: int| 0 <= r < GRID_HEIGHT && 0 <= col < GRID_WIDTH implies #[trigger] gh[r][col]
            == g[r][col] || (r == t.0 && col == t.1) || g[r][col] != GridCell::Empty by {
            lemma_set_cell_at(g, t, GridCell::Hotel, r, col);
        }
        lemma_fresh_after_paint(m1, gh, t);
        assert forall|c: int| 0 <= c < MAX_NUM_CHAINS implies has_cells(gh, c) == has_cells(g, c) by {
            lemma_chain_cells(c, 0);
            assert forall|r: int, col: int| 0 <= r < GRID_HEIGHT && 0 <= col < GRID_WIDTH implies (#[trigger] gh[r][col]
                == chain_cell(c)) == (g[r][col] == chain_cell(c)) by {
                lemma_set_cell_at(g, t, GridCell::Hotel, r, col);
            }
            lemma_has_cells_same(g, gh, c);
        }
        let avail = crate::rules::buyable_list(mh);
        if exists|i: int| 0 <= i < MAX_NUM_CHAINS && #[trigger] avail[i] > 0 {
        } else {
            assert(shape_ok(mh));
            lemma_end_turn_cells(mh);
        }
    } else if touched_chains(g, t) == 0 {
        crate::rules::lemma_count_chains_zero(MAX_NUM_CHAINS as int, |c: int| touches(g, t, c));
        assert forall|c: int| 0 <= c < MAX_NUM_CHAINS implies !#[trigger] touches(g, t, c) by {
            assert(!(|c: int| touches(g, t, c))(c));
        }
    } else {
        let flags = crate::rules::touched_flags(g, t);
        let merging = crate::rules::merging_chains(g, m.sizes, t);
        crate::rules::lemma_by_size_chains(flags, m.sizes, MAX_NUM_CHAINS as nat);
        crate::laws::lemma_by_size_len(flags, m.sizes, MAX_NUM_CHAINS as nat);
        crate::laws::lemma_count_chains_ext(MAX_NUM_CHAINS as int, |c: int| flags[c], |c: int| touches(g, t, c));
        crate::laws::lemma_count_chains_le(MAX_NUM_CHAINS as int, |c: int| flags[c]);
        assert(merging.len() == touched_chains(g, t));
        if touched_chains(g, t) == 1 {
            let c = merging[0] as int;
            assert(flags[c]);
            let cc = chain_cell(c);
            let g2 = m2.grid;
            assert(g2 == paint_entries(set_cell(g, t, cc), nb, cc, |x: GridCell| true));
            crate::laws::lemma_set_cell_shape(g, t, cc);
            crate::laws::lemma_paint_shape(set_cell(g, t, cc), nb, cc, |x: GridCell| true);
            assert forall|r: int, col: int| 0 <= r < GRID_HEIGHT && 0 <= col < GRID_WIDTH implies #[trigger] g2[r][col]
                == g[r][col] || (r == t.0 && col == t.1) || g[r][col] != GridCell::Empty by {
                lemma_paint_around(g, t, cc, |x: GridCell| true, r, col);
            }
            lemma_fresh_after_paint(m1, g2, t);
            // The placed tile now belongs to the chain.
            lemma_set_cell_at(g, t, cc, t.0 as int, t.1 as int);
            lemma_paint_at(set_cell(g, t, cc), nb, cc, |x: GridCell| true, t.0 as int, t.1 as int);
            assert(g2[t.0 as int][t.1 as int] == cc);
            assert(has_cells(g2, c));
            assert forall|d: int| 0 <= d < MAX_NUM_CHAINS && d != c implies has_cells(g2, d) == has_cells(g, d) by {
                lemma_chain_cells(c, d);
                assert forall|r: int, col: int| 0 <= r < GRID_HEIGHT && 0 <= col < GRID_WIDTH implies (#[trigger] g2[r][col]
                    == chain_cell(d)) == (g[r][col] == chain_cell(d)) by {
                    lemma_paint_around(g, t, cc, |x: GridCell| true, r, col);
                    if g2[r][col] != g[r][col] && g[r][col] == chain_cell(d) && !(r == t.0 && col == t.1) {
                        lemma_touches_at(g, t, r, col, d);
                        lemma_count_two(MAX_NUM_CHAINS as int, |e: int| touches(g, t, e), c, d);
                    }
                }
                lemma_has_cells_same(g, g2, d);
            }
            crate::rules::lemma_reserve_nonneg(m, 0);
            assert(m.sizes[c] + crate::rules::size_reserve(m) <= crate::rules::SIZE_LIMIT);
            assert(m2.sizes[c] > 0);
            assert forall|d: int| 0 <= d < MAX_NUM_CHAINS && !retiring(m2, d) implies (#[trigger] m2.sizes[d] == 0
                <==> !has_cells(m2.grid, d)) by {
                if d != c {
                    assert(m2.sizes[d] == m.sizes[d]);
                    assert(!retiring(m, d));
                }
            }
            assert(sizes_match_cells(m2));
        } else {
            let g2 = m2.grid;
            let hotel = |x: GridCell| x == GridCell::Hotel;
            assert(g2 == paint_entries(set_cell(g, t, GridCell::Dummy), nb, GridCell::Dummy, hotel));
            crate::laws::lemma_set_cell_shape(g, t, GridCell::Dummy);
            crate::laws::lemma_paint_shape(set_cell(g, t, GridCell::Dummy), nb, GridCell::Dummy, hotel);
            assert forall|r: int, col: int| 0 <= r < GRID_HEIGHT && 0 <= col < GRID_WIDTH implies #[trigger] g2[r][col]
                == g[r][col] || (r == t.0 && col == t.1) || g[r][col] != GridCell::Empty by {
                lemma_paint_around(g, t, GridCell::Dummy, hotel, r, col);
            }
            lemma_fresh_after_paint(m1, g2, t);
            assert forall|d: int| 0 <= d < MAX_NUM_CHAINS implies has_cells(g2, d) == has_cells(g, d) by {
                lemma_chain_cells(d, 0);
                assert forall|r: int, col: int| 0 <= r < GRID_HEIGHT && 0 <= col < GRID_WIDTH implies (#[trigger] g2[r][col]
                    == chain_cell(d)) == (g[r][col] == chain_cell(d)) by {
                    lemma_paint_around(g, t, GridCell::Dummy, hotel, r, col);
                }
                lemma_has_cells_same(g, g2, d);
            }
            assert forall|k: int| 0 <= k < merging.len() implies has_cells(m2.grid, #[trigger] merging[k] as int) by {
                assert(flags[merging[k] as int]);
                lemma_touched_has_cells(g, t, merging[k] as int);
            }
            assert(sizes_match_cells(m2));
        }
    }
}

/// Founding a chain keeps the grid and the chain sizes agreeing.
pub proof fn lemma_create_cells(m: GameModel, chain: usize)
    requires
        well_formed(m),
        cells_consistent(m),
        create_chain(m, chain) is Ok,
    ensures
        cells_consistent(create_chain(m, chain)->Ok_0),
{
    let m2 = create_chain(m, chain)->Ok_0;
    let ci = chain as int;
    assert(m.phase is CreateChain);
    let t = m.phase->CreateChain_0;
    let valid = m.phase->CreateChain_1;
    assert(crate::rules::phase_wf(m));
    assert(valid.contains(chain));
    let i = choose|i: int| 0 <= i < valid.len() && valid[i] == chain;
    assert(crate::rules::all_chains(valid));
    assert(chain < MAX_NUM_CHAINS);
    let g = m.grid;
    assert(grid_shape(g));
    let nb = neighbors_of(t, g);
    crate::board::lemma_neighbors_facts(t, g);
    let cc = chain_cell(ci);
    let g2 = m2.grid;
    assert(g2 == paint_entries(set_cell(g, t, cc), nb, cc, |x: GridCell| true));
    crate::laws::lemma_set_cell_shape(g, t, cc);
    crate::laws::lemma_paint_shape(set_cell(g, t, cc), nb, cc, |x: GridCell| true);
    assert(!retiring(m, ci));
    assert(!has_cells(g, ci));
    // Held tiles keep their empty cells.
    let m1 = GameModel { grid: m.grid, ..m2 };
    assert forall|p: int| 0 <= p < m1.players.len() implies #[trigger] m1.players[p].tiles == m.players[p].tiles by {}
    assert(held(m1, t) == held(m, t)) by {
        if held(m1, t) && !m1.pile.contains(t) {
            let (p, k) = choose|p: int, k: int|
                0 <= p < m1.players.len() && 0 <= k < m1.players[p].tiles.len() && #[trigger] m1.players[p].tiles[k] == t;
            assert(m.players[p].tiles[k] == t);
        }
    }
    assert(tiles_fresh(m1)) by {
        assert forall|p: int, k: int| 0 <= p < m1.players.len() && 0 <= k < m1.players[p].tiles.len() implies
            #[trigger] m1.players[p].tiles[k] == m.players[p].tiles[k] by {}
    }
    assert forall|p: int, k: int| 0 <= p < m1.players.len() && 0 <= k < m1.players[p].tiles.len() implies (
    #[trigger] m1.players[p].tiles[k]).in_grid() by {
        assert(m1.players[p].tiles[k] == m.players[p].tiles[k]);
    }
    assert forall|r: int, col: int| 0 <= r < GRID_HEIGHT && 0 <= col < GRID_WIDTH implies #[trigger] g2[r][col]
        == g[r][col] || (r == t.0 && col == t.1) || g[r][col] != GridCell::Empty by {
        lemma_paint_around(g, t, cc, |x: GridCell| true, r, col);
    }
    lemma_fresh_after_paint(m1, g2, t);
    assert(GameModel { grid: g2, ..m1 } == m2);
    lemma_set_cell_at(g, t, cc, t.0 as int, t.1 as int);
    lemma_paint_at(set_cell(g, t, cc), nb, cc, |x: GridCell| true, t.0 as int, t.1 as int);
    assert(g2[t.0 as int][t.1 as int] == cc);
    assert(has_cells(g2, ci));
    assert forall|d: int| 0 <= d < MAX_NUM_CHAINS && d != ci implies has_cells(g2, d) == has_cells(g, d) by {
        lemma_chain_cells(ci, d);
        assert forall|r: int, col: int| 0 <= r < GRID_HEIGHT && 0 <= col < GRID_WIDTH implies (#[trigger] g2[r][col]
            == chain_cell(d)) == (g[r][col] == chain_cell(d)) by {
            lemma_paint_around(g, t, cc, |x: GridCell| true, r, col);
            if g2[r][col] != g[r][col] && g[r][col] == chain_cell(d) && !(r == t.0 && col == t.1) {
                lemma_touches_at(g, t, r, col, d);
            }
        }
        lemma_has_cells_same(g, g2, d);
    }
    assert forall|d: int| 0 <= d < MAX_NUM_CHAINS && !retiring(m2, d) implies (#[trigger] m2.sizes[d] == 0
        <==> !has_cells(m2.grid, d)) by {
        if d != ci {
            assert(m2.sizes[d] == m.sizes[d]);
            assert(!retiring(m, d));
        }
    }
}

/// `without(s, x)` never holds `x`.
pub proof fn lemma_without_excludes(s: Seq<usize>, x: usize)
    ensures
        !crate::rules::without(s, x).contains(x),
    decreases s.len(),
{
    if s.len() > 0 {
        lemma_without_excludes(s.drop_last(), x);
        let prev = crate::rules::without(s.drop_last(), x);
        let cur = crate::rules::without(s, x);
        if cur.contains(x) {
            let j = choose|j: int| 0 <= j < cur.len() && cur[j] == x;
            if j < prev.len() {
                assert(prev[j] == x);
            }
        }
    }
}

/// Picking a merger's winner keeps the grid and the chain sizes agreeing.
pub proof fn lemma_pick_cells(m: GameModel, chain: usize)
    requires
        well_formed(m),
        cells_consistent(m),
        pick_winning_chain(m, chain) is Ok,
    ensures
        cells_consistent(pick_winning_chain(m, chain)->Ok_0),
{
    let m2 = pick_winning_chain(m, chain)->Ok_0;
    let ci = chain as int;
    assert(m.phase is PickWinningChain);
    let valid = m.phase->PickWinningChain_0;
    let merging = m.phase->PickWinningChain_1;
    assert(crate::rules::phase_wf(m));
    assert(valid.contains(chain));
    let i = choose|i: int| 0 <= i < valid.len() && valid[i] == chain;
    assert(merging.contains(valid[i]));
    let j = choose|j: int| 0 <= j < merging.len() && merging[j] == chain;
    assert(crate::rules::all_chains(merging));
    assert(chain < MAX_NUM_CHAINS);
    assert(has_cells(m.grid, merging[j] as int));
    let losers = crate::rules::without(merging, chain);
    lemma_without_excludes(merging, chain);
    let g = m.grid;
    assert(grid_shape(g));
    let pred = |x: GridCell| joins_winner(x, losers);
    let cc = chain_cell(ci);
    let g2 = m2.grid;
    assert(g2 == recolor(g, pred, cc));
    assert forall|r: int, col: int| 0 <= r < GRID_HEIGHT && 0 <= col < GRID_WIDTH implies #[trigger] g2[r][col]
        == if pred(g[r][col]) {
        cc
    } else {
        g[r][col]
    } by {}
    assert(!retiring(m, ci));
    assert(m.sizes[ci] > 0);
    // The winner keeps its cells.
    let (wr, wc) = choose|r: int, col: int|
        0 <= r < GRID_HEIGHT && 0 <= col < GRID_WIDTH && #[trigger] g[r][col] == chain_cell(ci);
    lemma_chain_cells(ci, 0);
    assert(!pred(g[wr][wc]));
    assert(g2[wr][wc] == cc);
    assert(has_cells(g2, ci));
    // Losers lose every cell; other chains are untouched.
    assert forall|d: int| 0 <= d < MAX_NUM_CHAINS && d != ci implies (losers.contains(d as usize) ==> !has_cells(g2, d)) && (
    !losers.contains(d as usize) ==> has_cells(g2, d) == has_cells(g, d)) by {
        lemma_chain_cells(ci, d);
        if losers.contains(d as usize) {
            assert(d != ci);
            if has_cells(g2, d) {
                let (r, col) = choose|r: int, col: int|
                    0 <= r < GRID_HEIGHT && 0 <= col < GRID_WIDTH && #[trigger] g2[r][col] == chain_cell(d);
                assert(g[r][col] == chain_cell(d) ==> pred(g[r][col]));
            }
        } else {
            assert forall|r: int, col: int| 0 <= r < GRID_HEIGHT && 0 <= col < GRID_WIDTH implies (#[trigger] g2[r][col]
                == chain_cell(d)) == (g[r][col] == chain_cell(d)) by {
                if g[r][col] == chain_cell(d) {
                    assert(!pred(g[r][col]));
                }
            }
            lemma_has_cells_same(g, g2, d);
        }
    }
    assert forall|d: int| 0 <= d < MAX_NUM_CHAINS && !retiring(m2, d) implies (#[trigger] m2.sizes[d] == 0
        <==> !has_cells(m2.grid, d)) by {
        assert(!retiring(m, d));
        if d == ci {
            crate::rules::lemma_reserve_nonneg(m, 0);
            assert(m.sizes[ci] + crate::rules::size_reserve(m) <= crate::rules::SIZE_LIMIT);
            crate::laws::lemma_count_cells_le(g, GRID_HEIGHT as int, pred);
            assert(m2.sizes[ci] > 0);
        } else {
            assert(m2.sizes[d] == m.sizes[d]);
            assert(!losers.contains(d as usize));
        }
    }
    assert forall|k: int| 0 <= k < losers.len() implies !has_cells(m2.grid, #[trigger] losers[k] as int) by {
        crate::laws::lemma_without(merging, chain);
        assert(losers.contains(losers[k]));
        assert(merging.contains(losers[k]));
        let q = choose|q: int| 0 <= q < merging.len() && merging[q] == losers[k];
    }
    // Held tiles sit on empty cells, which do not join the winner.
    assert forall|r: int, col: int| 0 <= r < GRID_HEIGHT && 0 <= col < GRID_WIDTH && g[r][col] == GridCell::Empty
        implies #[trigger] g2[r][col] == GridCell::Empty by {}
    assert(tiles_fresh(m2)) by {
        assert forall|p: int, k: int| 0 <= p < m2.players.len() && 0 <= k < m2.players[p].tiles.len() implies
            cell_at(m2.grid, (#[trigger] m2.players[p].tiles[k]).0 as int, m2.players[p].tiles[k].1 as int) == GridCell::Empty by {
            assert(m.players[p].tiles[k].in_grid());
        }
        assert forall|k: int| 0 <= k < m2.pile.len() implies cell_at(m2.grid, (#[trigger] m2.pile[k]).0 as int, m2.pile[k].1 as int)
            == GridCell::Empty by {
            assert(m.pile[k].in_grid());
        }
    }
}

/// A merger step keeps the grid and the chain sizes agreeing.
pub proof fn lemma_resolve_cells(m: GameModel, sell: usize, trade: usize)
    requires
        well_formed(m),
        cells_consistent(m),
        resolve_merger(m, sell, trade) is Ok,
    ensures
        cells_consistent(resolve_merger(m, sell, trade)->Ok_0),
{
    let r = resolve_merger(m, sell, trade)->Ok_0;
    assert(m.phase is ResolveMerger);
    let w = m.phase->ResolveMerger_0;
    let losers = m.phase->ResolveMerger_1;
    let sp = m.phase->ResolveMerger_2;
    assert(crate::rules::phase_wf(m));
    let l = losers[0] as int;
    let price = crate::board::share_price(l, m.sizes[l] as int);
    let seller = m.players[sp];
    let stocks1 = seller.stocks.update(l, (seller.stocks[l] - sell - trade) as usize);
    let stocks2 = stocks1.update(w, (stocks1[w] + trade / 2) as usize);
    let players1 = m.players.update(sp, PlayerModel { cash: seller.cash + price * sell, stocks: stocks2, ..seller });
    assert forall|p: int| 0 <= p < m.players.len() implies #[trigger] r.players[p].tiles == m.players[p].tiles by {}
    assert(r.players.len() == m.players.len());
    assert(r.grid == m.grid && r.pile == m.pile);
    assert(tiles_fresh(r)) by {
        assert forall|p: int, k: int| 0 <= p < r.players.len() && 0 <= k < r.players[p].tiles.len() implies
            #[trigger] r.players[p].tiles[k] == m.players[p].tiles[k] by {}
    }
    assert(!has_cells(m.grid, l));
    assert forall|c: int| 0 <= c < MAX_NUM_CHAINS && !retiring(r, c) implies (#[trigger] r.sizes[c] == 0
        <==> !has_cells(r.grid, c)) by {
        if c != l {
            assert(r.sizes[c] == m.sizes[c]);
            if retiring(m, c) {
                let k = choose|k: int| 0 <= k < losers.len() && losers[k] == c as usize;
                assert(k != 0);
                assert(losers.drop_first()[k - 1] == losers[k]);
            }
        }
    }
    if r.phase is ResolveMerger {
        let rl = r.phase->ResolveMerger_1;
        assert forall|k: int| 0 <= k < rl.len() implies !has_cells(r.grid, #[trigger] rl[k] as int) by {
            if rl != losers {
                assert(rl[k] == losers[k + 1]);
            }
        }
        if rl.contains(w as usize) {
            let k = choose|k: int| 0 <= k < rl.len() && rl[k] == w as usize;
            if rl != losers {
                assert(losers[k + 1] == w);
            }
        }
    }
}

/// Buying keeps the grid and the chain sizes agreeing.
pub proof fn lemma_buy_cells(m: GameModel, order: Seq<usize>)
    requires
        well_formed(m),
        cells_consistent(m),
        crate::rules::buy_stock(m, order) is Ok,
    ensures
        cells_consistent(crate::rules::buy_stock(m, order)->Ok_0),
{
    let cur = m.players[m.current];
    let cost = crate::rules::order_cost(m.sizes, order, MAX_NUM_CHAINS as int);
    let buyer = PlayerModel {
        cash: cur.cash - cost,
        stocks: Seq::new(MAX_NUM_CHAINS as nat, |i: int| (cur.stocks[i] + order[i]) as usize),
        ..cur
    };
    let mid = GameModel {
        players: m.players.update(m.current, buyer),
        market: Seq::new(MAX_NUM_CHAINS as nat, |i: int| (m.market[i] - order[i]) as usize),
        ..m
    };
    assert forall|p: int| 0 <= p < mid.players.len() implies #[trigger] mid.players[p].tiles == m.players[p].tiles by {}
    assert(tiles_fresh(mid)) by {
        assert forall|p: int, k: int| 0 <= p < mid.players.len() && 0 <= k < mid.players[p].tiles.len() implies
            #[trigger] mid.players[p].tiles[k] == m.players[p].tiles[k] by {}
    }
    assert forall|c: int| 0 <= c < MAX_NUM_CHAINS implies !retiring(mid, c) && !retiring(m, c) by {}
    assert(sizes_match_cells(mid));
    assert(shape_ok(mid)) by {
        assert forall|p: int| 0 <= p < mid.players.len() implies (#[trigger] mid.players[p]).stocks.len()
            == MAX_NUM_CHAINS by {}
    }
    lemma_end_turn_cells(mid);
}

/// After any accepted action, a chain that is not being retired by a merger
/// has size zero exactly when no grid cell belongs to it; the facts that
/// keep this so (tiles in hand and in the pile lie on distinct empty cells,
/// and what the pending decision needs) hold as well.
pub proof fn lemma_step_keeps_cells(m: GameModel, a: TurnAction)
    requires
        well_formed(m),
        cells_consistent(m),
        step(m, a) is Ok,
    ensures
        cells_consistent(step(m, a)->Ok_0),
{
    match a {
        TurnAction::PlaceTile(idx) => lemma_place_cells(m, idx),
        TurnAction::CreateChain(ci) => lemma_create_cells(m, ci),
        TurnAction::PickWinningChain(ci) => lemma_pick_cells(m, ci),
        TurnAction::ResolveMerger(sell, trade) => lemma_resolve_cells(m, sell, trade),
        TurnAction::BuyStock(order) => lemma_buy_cells(m, order@),
    }
}

/// Replacing one cell of a row changes its count by the difference.
pub proof fn lemma_count_row_update(
    row: Seq<GridCell>,
    c: int,
    x: GridCell,
    k: int,
    pred: spec_fn(GridCell) -> bool,
)
    requires
        0 <= c < row.len(),
        0 <= k <= row.len(),
    ensures
        crate::rules::count_row(row.update(c, x), k, pred) == crate::rules::count_row(row, k, pred) - (
        if c < k && pred(row[c]) {
            1int
        } else {
            0
        }) + (if c < k && pred(x) {
            1int
        } else {
            0
        }),
    decreases k,
{
    if k > 0 {
        lemma_count_row_update(row, c, x, k - 1, pred);
    }
}

/// Replacing one row changes the count of the rows by the difference.
pub proof fn lemma_count_cells_update(
    g: GridModel,
    r: int,
    row: Seq<GridCell>,
    k: int,
    pred: spec_fn(GridCell) -> bool,
)
    requires
        0 <= r < g.len(),
        0 <= k <= g.len(),
    ensures
        crate::rules::count_cells(g.update(r, row), k, pred) == crate::rules::count_cells(g, k, pred) - (
        if r < k {
            crate::rules::count_row(g[r], GRID_WIDTH as int, pred) as int
        } else {
            0
        }) + (if r < k {
            crate::rules::count_row(row, GRID_WIDTH as int, pred) as int
        } else {
            0
        }),
    decreases k,
{
    if k > 0 {
        lemma_count_cells_update(g, r, row, k - 1, pred);
    }
}

/// Setting one cell changes the count of cells by the difference.
pub proof fn lemma_count_set_cell(g: GridModel, t: Tile, x: GridCell, pred: spec_fn(GridCell) -> bool)
    requires
        grid_shape(g),
        t.in_grid(),
    ensures
        crate::rules::count_cells(set_cell(g, t, x), GRID_HEIGHT as int, pred) == crate::rules::count_cells(
            g,
            GRID_HEIGHT as int,
            pred,
        ) - (if pred(g[t.0 as int][t.1 as int]) {
            1int
        } else {
            0
        }) + (if pred(x) {
            1int
        } else {
            0
        }),
{
    let row = g[t.0 as int];
    lemma_count_row_update(row, t.1 as int, x, GRID_WIDTH as int, pred);
    lemma_count_cells_update(g, t.0 as int, row.update(t.1 as int, x), GRID_HEIGHT as int, pred);
}

/// A grid whose cells all fail the predicate counts none.
pub proof fn lemma_count_cells_none(g: GridModel, k: int, pred: spec_fn(GridCell) -> bool)
    requires
        grid_shape(g),
        0 <= k <= GRID_HEIGHT,
        forall|r: int, col: int| 0 <= r < GRID_HEIGHT && 0 <= col < GRID_WIDTH ==> !pred(#[trigger] g[r][col]),
    ensures
        crate::rules::count_cells(g, k, pred) == 0,
    decreases k,
{
    if k > 0 {
        lemma_count_cells_none(g, k - 1, pred);
        lemma_count_row_none(g[k - 1], GRID_WIDTH as int, pred, k - 1, g);
    }
}

proof fn lemma_count_row_none(row: Seq<GridCell>, k: int, pred: spec_fn(GridCell) -> bool, r: int, g: GridModel)
    requires
        0 <= r < GRID_HEIGHT,
        row == g[r],
        0 <= k <= GRID_WIDTH,
        forall|r: int, col: int| 0 <= r < GRID_HEIGHT && 0 <= col < GRID_WIDTH ==> !pred(#[trigger] g[r][col]),
    ensures
        crate::rules::count_row(row, k, pred) == 0,
    decreases k,
{
    if k > 0 {
        lemma_count_row_none(row, k - 1, pred, r, g);
        assert(!pred(g[r][k - 1]));
    }
}

} // verus!
