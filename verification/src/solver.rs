//! The grid assembly solver: a backtracking fill of an N by N grid of
//! oriented tiles along a centre-outward spiral search order, so that the
//! touching sides of neighbouring tiles agree wherever a concrete label
//! requires it, and no tile identity is placed twice.

use vstd::prelude::*;

use crate::index::{key_matches, SideKey, TileIndex};
use crate::tile::{ot_bottom, ot_left, ot_right, ot_top, OrientedTile, Tile};

verus! {

/// An N by N board of optional oriented tiles, kept as one row-major block.
pub struct Grid {
    pub n: usize,
    pub cells: Vec<Option<OrientedTile>>,
}

/// Two touching sides agree: they carry the same label, or one of them is
/// the sentinel, which asks for no match.
pub open spec fn sides_compatible(a: i8, b: i8) -> bool {
    a == b || a == -1 || b == -1
}

/// The cell in row `x`, column `y` of a row-major block of `n` by `n`
/// cells.
pub open spec fn m_cell(n: int, cells: Seq<Option<OrientedTile>>, x: int, y: int) -> Option<
    OrientedTile,
> {
    cells[x * n + y]
}

/// The constraint tuple the filled neighbours of a cell impose on it: each
/// of the four wanted sides is the facing side of the filled neighbour, or
/// the wildcard where there is no neighbour or it is still empty.
pub open spec fn m_adjacent_key(n: int, cells: Seq<Option<OrientedTile>>, x: int, y: int) -> SideKey {
    (
        if x > 0 && m_cell(n, cells, x - 1, y) is Some {
            ot_bottom(m_cell(n, cells, x - 1, y)->Some_0)
        } else {
            -1i8
        },
        if y < n - 1 && m_cell(n, cells, x, y + 1) is Some {
            ot_left(m_cell(n, cells, x, y + 1)->Some_0)
        } else {
            -1i8
        },
        if x < n - 1 && m_cell(n, cells, x + 1, y) is Some {
            ot_top(m_cell(n, cells, x + 1, y)->Some_0)
        } else {
            -1i8
        },
        if y > 0 && m_cell(n, cells, x, y - 1) is Some {
            ot_right(m_cell(n, cells, x, y - 1)->Some_0)
        } else {
            -1i8
        },
    )
}

/// A tile can go into the empty cell: it is a catalog tile in a valid
/// rotation, it satisfies the constraint tuple its filled neighbours
/// impose, and its identity is still free.
pub open spec fn placeable(
    n: int,
    cells: Seq<Option<OrientedTile>>,
    mask: Seq<bool>,
    ts: Seq<Tile>,
    x: int,
    y: int,
    ot: OrientedTile,
) -> bool {
    &&& exists|i: int| 0 <= i < ts.len() && ot.tile == ts[i]
    &&& ot.orientation < 4
    &&& key_matches(m_adjacent_key(n, cells, x, y), ot)
    &&& 0 <= ot.tile.id < mask.len()
    &&& mask[ot.tile.id as int] == true
}

/// A full consistent completion exists from position `si` of the search
/// order on: every still-empty cell along the rest of the order can be
/// filled with some placeable catalog tile, each placement consuming its
/// identity, until the order ends.
pub open spec fn fillable(
    n: int,
    cells: Seq<Option<OrientedTile>>,
    mask: Seq<bool>,
    ts: Seq<Tile>,
    order: Seq<(usize, usize)>,
    si: int,
) -> bool
    decreases order.len() - si,
{
    if si < 0 || si >= order.len() {
        true
    } else {
        let x = order[si].0 as int;
        let y = order[si].1 as int;
        if m_cell(n, cells, x, y) is Some {
            fillable(n, cells, mask, ts, order, si + 1)
        } else {
            exists|ot: OrientedTile|
                placeable(n, cells, mask, ts, x, y, ot) && fillable(
                    n,
                    cells.update(x * n + y, Some(ot)),
                    mask.update(ot.tile.id as int, false),
                    ts,
                    order,
                    si + 1,
                )
        }
    }
}

/// Row-major cell indices collide only for the same coordinates.
proof fn lemma_cell_index_injective(n: int, x1: int, y1: int, x2: int, y2: int)
    by (nonlinear_arith)
    requires
        0 <= x1 < n,
        0 <= y1 < n,
        0 <= x2 < n,
        0 <= y2 < n,
        x1 * n + y1 == x2 * n + y2,
    ensures
        x1 == x2 && y1 == y2,
{
}

/// A cell's row-major index stays inside the board.
proof fn lemma_cell_index_in_range(n: int, x: int, y: int)
    by (nonlinear_arith)
    requires
        0 <= x < n,
        0 <= y < n,
    ensures
        0 <= x * n + y < n * n,
{
}

impl Grid {
    /// The block holds exactly N by N cells.
    pub open spec fn wf(self) -> bool {
        self.cells@.len() == self.n * self.n
    }

    /// The cell in row `x`, column `y`.
    pub open spec fn cell(self, x: int, y: int) -> Option<OrientedTile> {
        m_cell(self.n as int, self.cells@, x, y)
    }

    /// An empty board of the given size.
    #[verifier::loop_isolation(false)]
    pub fn new(n: usize) -> (r: Grid)
        requires
            n * n <= usize::MAX,
        ensures
            r.wf(),
            r.n == n,
            forall|x: int, y: int| 0 <= x < n && 0 <= y < n ==> #[trigger] r.cell(x, y) is None,
    {
        let total = n * n;
        let mut cells: Vec<Option<OrientedTile>> = Vec::new();
        let mut i: usize = 0;
        while i < total
            invariant
                i <= total,
                cells@.len() == i,
                forall|k: int| 0 <= k < i ==> cells@[k] is None,
            decreases total - i,
        {
            cells.push(None);
            i += 1;
        }
        let r = Grid { n, cells };
        proof {
            assert forall|x: int, y: int|
                0 <= x < n && 0 <= y < n implies #[trigger] r.cell(x, y) is None by {
                lemma_cell_index_in_range(n as int, x, y);
            }
        }
        r
    }

    /// Reads one cell.
    pub fn get_cell(&self, x: usize, y: usize) -> (r: Option<OrientedTile>)
        requires
            self.wf(),
            x < self.n,
            y < self.n,
        ensures
            r == self.cell(x as int, y as int),
    {
        let total = self.cells.len();
        proof {
            lemma_cell_index_in_range(self.n as int, x as int, y as int);
        }
        self.cells[x * self.n + y]
    }

    /// Writes one cell, leaving every other cell alone.
    pub fn set_cell(&mut self, x: usize, y: usize, v: Option<OrientedTile>)
        requires
            old(self).wf(),
            x < old(self).n,
            y < old(self).n,
        ensures
            final(self).wf(),
            final(self).n == old(self).n,
            final(self).cells@ == old(self).cells@.update(x * old(self).n + y, v),
            final(self).cell(x as int, y as int) == v,
            forall|x2: int, y2: int|
                0 <= x2 < final(self).n && 0 <= y2 < final(self).n && !(x2 == x && y2 == y)
                    ==> final(self).cell(x2, y2) == old(self).cell(x2, y2),
    {
        let total = self.cells.len();
        proof {
            lemma_cell_index_in_range(self.n as int, x as int, y as int);
        }
        self.cells.set(x * self.n + y, v);
        proof {
            assert forall|x2: int, y2: int|
                0 <= x2 < self.n && 0 <= y2 < self.n && !(x2 == x && y2 == y) implies self.cell(
                x2,
                y2,
            ) == old(self).cell(x2, y2) by {
                lemma_cell_index_in_range(self.n as int, x2, y2);
                if x2 * self.n + y2 == x as int * self.n + y as int {
                    lemma_cell_index_injective(self.n as int, x2, y2, x as int, y as int);
                }
            }
        }
    }
}

/// Every placed tile is the catalog tile its identity names, in a valid
/// rotation.
#[verifier::opaque]
pub open spec fn grid_tiles_ok(g: Grid, ts: Seq<Tile>) -> bool {
    forall|x: int, y: int|
        0 <= x < g.n && 0 <= y < g.n && (#[trigger] g.cell(x, y)) is Some ==> {
            let ot = g.cell(x, y)->Some_0;
            &&& ot.rotatable()
            &&& ot.tile.id < ts.len()
            &&& ot.tile == ts[ot.tile.id as int]
        }
}

/// Wherever two filled cells touch, their facing sides agree (the sentinel
/// asks for no match).
#[verifier::opaque]
pub open spec fn grid_consistent(g: Grid) -> bool {
    &&& forall|x: int, y: int|
        0 <= x < g.n - 1 && 0 <= y < g.n && (#[trigger] g.cell(x, y)) is Some && g.cell(
            x + 1,
            y,
        ) is Some ==> sides_compatible(
            ot_bottom(g.cell(x, y)->Some_0),
            ot_top(g.cell(x + 1, y)->Some_0),
        )
    &&& forall|x: int, y: int|
        0 <= x < g.n && 0 <= y < g.n - 1 && (#[trigger] g.cell(x, y)) is Some && g.cell(
            x,
            y + 1,
        ) is Some ==> sides_compatible(
            ot_right(g.cell(x, y)->Some_0),
            ot_left(g.cell(x, y + 1)->Some_0),
        )
}

/// No tile identity stands in two filled cells.
#[verifier::opaque]
pub open spec fn grid_distinct(g: Grid) -> bool {
    forall|x1: int, y1: int, x2: int, y2: int|
        0 <= x1 < g.n && 0 <= y1 < g.n && 0 <= x2 < g.n && 0 <= y2 < g.n && !(x1 == x2 && y1
            == y2) && (#[trigger] g.cell(x1, y1)) is Some && (#[trigger] g.cell(x2, y2)) is Some
            ==> g.cell(x1, y1)->Some_0.tile.id != g.cell(x2, y2)->Some_0.tile.id
}

/// The availability mask agrees with the board exactly: an identity is
/// marked used precisely when some filled cell carries it.
#[verifier::opaque]
pub open spec fn mask_synced(g: Grid, mask: Seq<bool>) -> bool {
    &&& forall|x: int, y: int|
        0 <= x < g.n && 0 <= y < g.n && (#[trigger] g.cell(x, y)) is Some ==> mask[g.cell(
            x,
            y,
        )->Some_0.tile.id as int] == false
    &&& forall|j: int|
        0 <= j < mask.len() && #[trigger] mask[j] == false ==> exists|x: int, y: int|
            0 <= x < g.n && 0 <= y < g.n && g.cell(x, y) is Some && g.cell(
                x,
                y,
            )->Some_0.tile.id == j
}

/// Every placed tile carries a valid rotation.
pub open spec fn placed_rotatable(g: Grid) -> bool {
    forall|x2: int, y2: int|
        0 <= x2 < g.n && 0 <= y2 < g.n && (#[trigger] g.cell(x2, y2)) is Some ==> g.cell(
            x2,
            y2,
        )->Some_0.rotatable()
}

/// A board satisfying the tile invariant has only rotatable tiles placed.
pub proof fn lemma_tiles_ok_rotatable(g: Grid, ts: Seq<Tile>)
    requires
        grid_tiles_ok(g, ts),
    ensures
        placed_rotatable(g),
{
    reveal(grid_tiles_ok);
}

/// The solver invariant only reads the board through its size and cells, so
/// it carries over to any board with the same view.
pub proof fn lemma_inv_transfer(g0: Grid, g1: Grid, mask: Seq<bool>, ts: Seq<Tile>)
    requires
        solver_inv(g0, mask, ts),
        g1.n == g0.n,
        g1.cells@ == g0.cells@,
    ensures
        solver_inv(g1, mask, ts),
{
    reveal(grid_tiles_ok);
    reveal(grid_consistent);
    reveal(grid_distinct);
    reveal(mask_synced);
    assert(forall|x: int, y: int| #[trigger] g1.cell(x, y) == g0.cell(x, y));
    assert forall|j: int|
        0 <= j < mask.len() && #[trigger] mask[j] == false implies exists|x: int, y: int|
        0 <= x < g1.n && 0 <= y < g1.n && g1.cell(x, y) is Some && g1.cell(x, y)->Some_0.tile.id
            == j by {
        let (x2, y2) = choose|x2: int, y2: int|
            0 <= x2 < g0.n && 0 <= y2 < g0.n && g0.cell(x2, y2) is Some && g0.cell(
                x2,
                y2,
            )->Some_0.tile.id == j;
        assert(g1.cell(x2, y2) is Some && g1.cell(x2, y2)->Some_0.tile.id == j);
    }
}

/// Every catalog entry carries its own position as its identity.
pub open spec fn ids_are_positions(ts: Seq<Tile>) -> bool {
    forall|i: int| 0 <= i < ts.len() ==> (#[trigger] ts[i]).id == i
}

/// The whole solver invariant over board, mask and catalog.
pub open spec fn solver_inv(g: Grid, mask: Seq<bool>, ts: Seq<Tile>) -> bool {
    &&& g.wf()
    &&& g.n >= 1
    &&& mask.len() == ts.len()
    &&& grid_tiles_ok(g, ts)
    &&& grid_consistent(g)
    &&& grid_distinct(g)
    &&& mask_synced(g, mask)
}

/// The constraint tuple a cell's placed neighbours impose on it: each of
/// the four wanted sides is the facing side of the placed neighbour, or the
/// wildcard where there is no neighbour or it is still empty.
pub open spec fn adjacent_key(g: Grid, x: int, y: int) -> SideKey {
    m_adjacent_key(g.n as int, g.cells@, x, y)
}

/// Reads off the constraint tuple that the already placed neighbours of the
/// cell impose: wanted top, right, bottom and left side, with the wildcard
/// where nothing constrains.
pub fn get_adjacent_sides(grid: &Grid, x: usize, y: usize) -> (r: SideKey)
    requires
        grid.wf(),
        x < grid.n,
        y < grid.n,
        placed_rotatable(*grid),
    ensures
        r == adjacent_key(*grid, x as int, y as int),
{
    let mut top: i8 = -1;
    let mut right: i8 = -1;
    let mut bottom: i8 = -1;
    let mut left: i8 = -1;
    if x > 0 {
        if let Some(above) = grid.get_cell(x - 1, y) {
            top = above.bottom();
        }
    }
    if y + 1 < grid.n {
        if let Some(rn) = grid.get_cell(x, y + 1) {
            right = rn.left();
        }
    }
    if x + 1 < grid.n {
        if let Some(below) = grid.get_cell(x + 1, y) {
            bottom = below.top();
        }
    }
    if y > 0 {
        if let Some(ln) = grid.get_cell(x, y - 1) {
            left = ln.right();
        }
    }
    (top, right, bottom, left)
}

/// Placing an available, index-found tile in an empty cell preserves the
/// solver invariant: the new tile agrees with every placed neighbour
/// (because the constraint tuple was read off them), its identity was free,
/// and nothing else changed.
proof fn lemma_place_preserves_inv(
    g0: Grid,
    g1: Grid,
    mask0: Seq<bool>,
    mask1: Seq<bool>,
    ts: Seq<Tile>,
    x: int,
    y: int,
    ot: OrientedTile,
)
    requires
        solver_inv(g0, mask0, ts),
        0 <= x < g0.n,
        0 <= y < g0.n,
        g0.cell(x, y) is None,
        key_matches(adjacent_key(g0, x, y), ot),
        ot.rotatable(),
        ot.tile.id < ts.len(),
        ot.tile == ts[ot.tile.id as int],
        mask0[ot.tile.id as int] == true,
        g1.n == g0.n,
        g1.wf(),
        g1.cell(x, y) == Some(ot),
        forall|x2: int, y2: int|
            0 <= x2 < g0.n && 0 <= y2 < g0.n && !(x2 == x && y2 == y) ==> #[trigger] g1.cell(
                x2,
                y2,
            ) == g0.cell(x2, y2),
        mask1 == mask0.update(ot.tile.id as int, false),
    ensures
        solver_inv(g1, mask1, ts),
{
    reveal(grid_tiles_ok);
    reveal(grid_consistent);
    reveal(grid_distinct);
    reveal(mask_synced);
    let key = adjacent_key(g0, x, y);
    assert(grid_tiles_ok(g1, ts)) by {
        assert forall|x2: int, y2: int|
            0 <= x2 < g1.n && 0 <= y2 < g1.n && (#[trigger] g1.cell(x2, y2)) is Some implies {
            let ot2 = g1.cell(x2, y2)->Some_0;
            &&& ot2.rotatable()
            &&& ot2.tile.id < ts.len()
            &&& ot2.tile == ts[ot2.tile.id as int]
        } by {
            if !(x2 == x && y2 == y) {
                assert(g1.cell(x2, y2) == g0.cell(x2, y2));
            }
        }
    }
    assert(grid_consistent(g1)) by {
        assert forall|x2: int, y2: int|
            0 <= x2 < g1.n - 1 && 0 <= y2 < g1.n && (#[trigger] g1.cell(x2, y2)) is Some
                && g1.cell(x2 + 1, y2) is Some implies sides_compatible(
            ot_bottom(g1.cell(x2, y2)->Some_0),
            ot_top(g1.cell(x2 + 1, y2)->Some_0),
        ) by {
            if x2 == x && y2 == y {
                assert(g1.cell(x2 + 1, y2) == g0.cell(x2 + 1, y2));
            } else if x2 + 1 == x && y2 == y {
                assert(g1.cell(x2, y2) == g0.cell(x2, y2));
            } else {
                assert(g1.cell(x2, y2) == g0.cell(x2, y2));
                assert(g1.cell(x2 + 1, y2) == g0.cell(x2 + 1, y2));
            }
        }
        assert forall|x2: int, y2: int|
            0 <= x2 < g1.n && 0 <= y2 < g1.n - 1 && (#[trigger] g1.cell(x2, y2)) is Some
                && g1.cell(x2, y2 + 1) is Some implies sides_compatible(
            ot_right(g1.cell(x2, y2)->Some_0),
            ot_left(g1.cell(x2, y2 + 1)->Some_0),
        ) by {
            if x2 == x && y2 == y {
                assert(g1.cell(x2, y2 + 1) == g0.cell(x2, y2 + 1));
            } else if x2 == x && y2 + 1 == y {
                assert(g1.cell(x2, y2) == g0.cell(x2, y2));
            } else {
                assert(g1.cell(x2, y2) == g0.cell(x2, y2));
                assert(g1.cell(x2, y2 + 1) == g0.cell(x2, y2 + 1));
            }
        }
    }
    assert(grid_distinct(g1)) by {
        assert forall|x1: int, y1: int, x2: int, y2: int|
            0 <= x1 < g1.n && 0 <= y1 < g1.n && 0 <= x2 < g1.n && 0 <= y2 < g1.n && !(x1 == x2
                && y1 == y2) && (#[trigger] g1.cell(x1, y1)) is Some && (#[trigger] g1.cell(
                x2,
                y2,
            )) is Some implies g1.cell(x1, y1)->Some_0.tile.id != g1.cell(
            x2,
            y2,
        )->Some_0.tile.id by {
            if x1 == x && y1 == y {
                assert(g1.cell(x2, y2) == g0.cell(x2, y2));
                assert(mask0[g0.cell(x2, y2)->Some_0.tile.id as int] == false);
            } else if x2 == x && y2 == y {
                assert(g1.cell(x1, y1) == g0.cell(x1, y1));
                assert(mask0[g0.cell(x1, y1)->Some_0.tile.id as int] == false);
            } else {
                assert(g1.cell(x1, y1) == g0.cell(x1, y1));
                assert(g1.cell(x2, y2) == g0.cell(x2, y2));
            }
        }
    }
    assert(mask_synced(g1, mask1)) by {
        assert forall|x2: int, y2: int|
            0 <= x2 < g1.n && 0 <= y2 < g1.n && (#[trigger] g1.cell(x2, y2)) is Some implies
            mask1[g1.cell(x2, y2)->Some_0.tile.id as int] == false by {
            if !(x2 == x && y2 == y) {
                assert(g1.cell(x2, y2) == g0.cell(x2, y2));
            }
        }
        assert forall|j: int|
            0 <= j < mask1.len() && #[trigger] mask1[j] == false implies exists|x2: int, y2: int|
            0 <= x2 < g1.n && 0 <= y2 < g1.n && g1.cell(x2, y2) is Some && g1.cell(
                x2,
                y2,
            )->Some_0.tile.id == j by {
            if j == ot.tile.id {
                assert(g1.cell(x, y) is Some && g1.cell(x, y)->Some_0.tile.id == j);
            } else {
                assert(mask0[j] == false);
                let (x2, y2) = choose|x2: int, y2: int|
                    0 <= x2 < g0.n && 0 <= y2 < g0.n && g0.cell(x2, y2) is Some && g0.cell(
                        x2,
                        y2,
                    )->Some_0.tile.id == j;
                assert(!(x2 == x && y2 == y));
                assert(g1.cell(x2, y2) == g0.cell(x2, y2));
            }
        }
    }
}

/// The backtracking fill: places a fitting available tile at the current
/// search position, recurses, and takes it back out if the rest of the
/// search fails. The search is exhaustive with respect to the given order:
/// on failure board and mask are exactly as they were, and no consistent
/// completion along the rest of the order exists at all.
pub fn brute_force_recursive(
    grid: &mut Grid,
    available_mask: &mut Vec<bool>,
    tile_lookup: &TileIndex,
    tile_set: &[Tile],
    search_order: &Vec<(usize, usize)>,
    search_index: usize,
) -> (r: bool)
    requires
        ids_are_positions(tile_set@),
        tile_lookup.indexes(tile_set@, 0),
        solver_inv(*old(grid), old(available_mask)@, tile_set@),
        forall|k: int|
            0 <= k < search_order@.len() ==> (#[trigger] search_order@[k]).0 < old(grid).n && (
            #[trigger] search_order@[k]).1 < old(grid).n,
        search_index <= search_order@.len(),
        forall|k: int|
            0 <= k < search_index ==> (#[trigger] old(grid).cell(
                search_order@[k].0 as int,
                search_order@[k].1 as int,
            )) is Some,
    ensures
        final(grid).n == old(grid).n,
        solver_inv(*final(grid), final(available_mask)@, tile_set@),
        r ==> forall|k: int|
            0 <= k < search_order@.len() ==> (#[trigger] final(grid).cell(
                search_order@[k].0 as int,
                search_order@[k].1 as int,
            )) is Some,
        !r ==> final(grid).cells@ == old(grid).cells@ && final(available_mask)@ == old(
            available_mask,
        )@,
        !r ==> !fillable(
            old(grid).n as int,
            old(grid).cells@,
            old(available_mask)@,
            tile_set@,
            search_order@,
            search_index as int,
        ),
        search_index == search_order@.len() ==> r && final(grid).cells@ == old(grid).cells@
            && final(available_mask)@ == old(available_mask)@,
    decreases search_order@.len() - search_index, 2int,
{
    let norder = search_order.len();
    if search_index == norder {
        return true;
    }
    let (x, y) = search_order[search_index];
    if grid.get_cell(x, y).is_some() {
        let r = brute_force_recursive(
            grid,
            available_mask,
            tile_lookup,
            tile_set,
            search_order,
            search_index + 1,
        );
        proof {
            if !r {
                assert(m_cell(
                    old(grid).n as int,
                    old(grid).cells@,
                    search_order@[search_index as int].0 as int,
                    search_order@[search_index as int].1 as int,
                ) is Some);
                assert(fillable(
                    old(grid).n as int,
                    old(grid).cells@,
                    old(available_mask)@,
                    tile_set@,
                    search_order@,
                    search_index as int,
                ) == fillable(
                    old(grid).n as int,
                    old(grid).cells@,
                    old(available_mask)@,
                    tile_set@,
                    search_order@,
                    search_index + 1,
                ));
            }
        }
        return r;
    }
    proof {
        lemma_tiles_ok_rotatable(*grid, tile_set@);
    }
    let key = get_adjacent_sides(grid, x, y);
    let possible_tiles = tile_lookup.get(key);
    try_candidates(
        grid,
        available_mask,
        tile_lookup,
        tile_set,
        search_order,
        search_index,
        &possible_tiles,
    )
}

/// Tries, in order, every candidate tile the index offered for the current
/// search position: the placement that lets the rest of the search finish
/// wins; each failed placement is undone exactly.
#[verifier::loop_isolation(false)]
fn try_candidates(
    grid: &mut Grid,
    available_mask: &mut Vec<bool>,
    tile_lookup: &TileIndex,
    tile_set: &[Tile],
    search_order: &Vec<(usize, usize)>,
    search_index: usize,
    possible_tiles: &Vec<OrientedTile>,
) -> (r: bool)
    requires
        ids_are_positions(tile_set@),
        tile_lookup.indexes(tile_set@, 0),
        solver_inv(*old(grid), old(available_mask)@, tile_set@),
        forall|k: int|
            0 <= k < search_order@.len() ==> (#[trigger] search_order@[k]).0 < old(grid).n && (
            #[trigger] search_order@[k]).1 < old(grid).n,
        search_index < search_order@.len(),
        forall|k: int|
            0 <= k < search_index ==> (#[trigger] old(grid).cell(
                search_order@[k].0 as int,
                search_order@[k].1 as int,
            )) is Some,
        old(grid).cell(
            search_order@[search_index as int].0 as int,
            search_order@[search_index as int].1 as int,
        ) is None,
        forall|ot: OrientedTile| #[trigger]
            possible_tiles@.contains(ot) <==> tile_lookup.has(
                adjacent_key(
                    *old(grid),
                    search_order@[search_index as int].0 as int,
                    search_order@[search_index as int].1 as int,
                ),
                ot,
            ),
    ensures
        final(grid).n == old(grid).n,
        solver_inv(*final(grid), final(available_mask)@, tile_set@),
        r ==> forall|k: int|
            0 <= k < search_order@.len() ==> (#[trigger] final(grid).cell(
                search_order@[k].0 as int,
                search_order@[k].1 as int,
            )) is Some,
        !r ==> final(grid).cells@ == old(grid).cells@ && final(available_mask)@ == old(
            available_mask,
        )@,
        !r ==> !fillable(
            old(grid).n as int,
            old(grid).cells@,
            old(available_mask)@,
            tile_set@,
            search_order@,
            search_index as int,
        ),
    decreases search_order@.len() - search_index, 1int,
{
    let ghost g0 = *grid;
    let ghost mask0 = available_mask@;
    let ghost n0 = g0.n as int;
    let ghost ts = tile_set@;
    let ghost order = search_order@;
    let ghost si = search_index as int;
    let ghost gx = order[si].0 as int;
    let ghost gy = order[si].1 as int;
    let np = possible_tiles.len();
    let mut k: usize = 0;
    while k < np
        invariant
            k <= np,
            grid.cells@ == g0.cells@,
            grid.n == g0.n,
            available_mask@ == mask0,
            solver_inv(*grid, available_mask@, tile_set@),
            forall|k2: int|
                0 <= k2 < k ==> !(mask0[(#[trigger] possible_tiles@[k2]).tile.id as int] == true
                    && fillable(
                    n0,
                    g0.cells@.update(gx * n0 + gy, Some(possible_tiles@[k2])),
                    mask0.update(possible_tiles@[k2].tile.id as int, false),
                    ts,
                    order,
                    si + 1,
                )),
        decreases np - k,
    {
        let ot = possible_tiles[k];
        proof {
            assert(possible_tiles@.contains(ot)) by {
                assert(possible_tiles@[k as int] == ot);
            }
            assert(forall|x2: int, y2: int| #[trigger]
                grid.cell(x2, y2) == g0.cell(x2, y2));
            assert(adjacent_key(
                *grid,
                search_order@[search_index as int].0 as int,
                search_order@[search_index as int].1 as int,
            ) == adjacent_key(
                g0,
                search_order@[search_index as int].0 as int,
                search_order@[search_index as int].1 as int,
            ));
        }
        let ok = try_one_candidate(
            grid,
            available_mask,
            tile_lookup,
            tile_set,
            search_order,
            search_index,
            ot,
        );
        if ok {
            return true;
        }
        proof {
            assert(possible_tiles@[k as int] == ot);
        }
        k += 1;
    }
    proof {
        assert(!fillable(n0, g0.cells@, mask0, ts, order, si)) by {
            if fillable(n0, g0.cells@, mask0, ts, order, si) {
                assert(m_cell(n0, g0.cells@, gx, gy) is None);
                let ot = choose|ot: OrientedTile|
                    placeable(n0, g0.cells@, mask0, ts, gx, gy, ot) && fillable(
                        n0,
                        g0.cells@.update(gx * n0 + gy, Some(ot)),
                        mask0.update(ot.tile.id as int, false),
                        ts,
                        order,
                        si + 1,
                    );
                assert(crate::index::entry_valid((adjacent_key(g0, gx, gy), ot), ts, 0));
                assert(tile_lookup.has(adjacent_key(g0, gx, gy), ot));
                assert(possible_tiles@.contains(ot));
                let k0 = choose|k0: int|
                    0 <= k0 < possible_tiles@.len() && possible_tiles@[k0] == ot;
                assert(!(mask0[possible_tiles@[k0].tile.id as int] == true && fillable(
                    n0,
                    g0.cells@.update(gx * n0 + gy, Some(possible_tiles@[k0])),
                    mask0.update(possible_tiles@[k0].tile.id as int, false),
                    ts,
                    order,
                    si + 1,
                )));
                assert(false);
            }
        }
    }
    false
}

/// Attempts one candidate at the current search position: places it if its
/// identity is free, recurses, and takes it back out if the rest of the
/// search fails. On failure board and mask are exactly as they were.
fn try_one_candidate(
    grid: &mut Grid,
    available_mask: &mut Vec<bool>,
    tile_lookup: &TileIndex,
    tile_set: &[Tile],
    search_order: &Vec<(usize, usize)>,
    search_index: usize,
    ot: OrientedTile,
) -> (r: bool)
    requires
        ids_are_positions(tile_set@),
        tile_lookup.indexes(tile_set@, 0),
        solver_inv(*old(grid), old(available_mask)@, tile_set@),
        forall|k: int|
            0 <= k < search_order@.len() ==> (#[trigger] search_order@[k]).0 < old(grid).n && (
            #[trigger] search_order@[k]).1 < old(grid).n,
        search_index < search_order@.len(),
        forall|k: int|
            0 <= k < search_index ==> (#[trigger] old(grid).cell(
                search_order@[k].0 as int,
                search_order@[k].1 as int,
            )) is Some,
        old(grid).cell(
            search_order@[search_index as int].0 as int,
            search_order@[search_index as int].1 as int,
        ) is None,
        tile_lookup.has(
            adjacent_key(
                *old(grid),
                search_order@[search_index as int].0 as int,
                search_order@[search_index as int].1 as int,
            ),
            ot,
        ),
    ensures
        final(grid).n == old(grid).n,
        solver_inv(*final(grid), final(available_mask)@, tile_set@),
        r ==> forall|k: int|
            0 <= k < search_order@.len() ==> (#[trigger] final(grid).cell(
                search_order@[k].0 as int,
                search_order@[k].1 as int,
            )) is Some,
        !r ==> final(grid).cells@ == old(grid).cells@ && final(available_mask)@ == old(
            available_mask,
        )@,
        !r ==> !(old(available_mask)@[ot.tile.id as int] == true && fillable(
            old(grid).n as int,
            old(grid).cells@.update(
                search_order@[search_index as int].0 as int * old(grid).n
                    + search_order@[search_index as int].1 as int,
                Some(ot),
            ),
            old(available_mask)@.update(ot.tile.id as int, false),
            tile_set@,
            search_order@,
            search_index + 1,
        )),
    decreases search_order@.len() - search_index, 0int,
{
    let norder = search_order.len();
    let (x, y) = search_order[search_index];
    let ghost g0 = *grid;
    let ghost mask0 = available_mask@;
    let ghost key = adjacent_key(g0, x as int, y as int);
    proof {
        assert(crate::index::entry_valid((key, ot), tile_set@, 0));
        let i2 = choose|i2: int|
            0 <= i2 < tile_set@.len() && ot.tile == tile_set@[i2] && ot.orientation < 4
                && key_matches(key, ot);
        assert(ot.tile.id == i2);
    }
    if !available_mask[ot.id()] {
        return false;
    }
    grid.set_cell(x, y, Some(ot));
    available_mask.set(ot.id(), false);
    proof {
        assert(available_mask@ =~= mask0.update(ot.tile.id as int, false));
        lemma_place_preserves_inv(
            g0,
            *grid,
            mask0,
            available_mask@,
            tile_set@,
            x as int,
            y as int,
            ot,
        );
        assert forall|k2: int|
            0 <= k2 < search_index + 1 implies (#[trigger] grid.cell(
            search_order@[k2].0 as int,
            search_order@[k2].1 as int,
        )) is Some by {
            if k2 < search_index {
                if !(search_order@[k2].0 == x && search_order@[k2].1 == y) {
                    assert(grid.cell(search_order@[k2].0 as int, search_order@[k2].1 as int)
                        == g0.cell(search_order@[k2].0 as int, search_order@[k2].1 as int));
                }
            }
        }
    }
    let ok = brute_force_recursive(
        grid,
        available_mask,
        tile_lookup,
        tile_set,
        search_order,
        search_index + 1,
    );
    if ok {
        return true;
    }
    available_mask.set(ot.id(), true);
    grid.set_cell(x, y, None);
    proof {
        let idx = x as int * g0.n + y as int;
        lemma_cell_index_in_range(g0.n as int, x as int, y as int);
        assert(0 <= idx < g0.cells@.len());
        assert(g0.cell(x as int, y as int) is None);
        assert(g0.cells@[idx] is None);
        assert(g0.cells@[idx] == None::<OrientedTile>);
        assert(grid.n == g0.n);
        assert(grid.cells@ == g0.cells@.update(idx, Some(ot)).update(idx, None));
        assert(grid.cells@.len() == g0.cells@.len());
        assert forall|i2: int|
            0 <= i2 < g0.cells@.len() implies grid.cells@[i2] == g0.cells@[i2] by {
            if i2 == idx {
                assert(grid.cells@[i2] == None::<OrientedTile>);
            } else {
                assert(g0.cells@.update(idx, Some(ot)).update(idx, None)[i2] == g0.cells@.update(
                    idx,
                    Some(ot),
                )[i2]);
                assert(g0.cells@.update(idx, Some(ot))[i2] == g0.cells@[i2]);
            }
        }
        assert(grid.cells@ =~= g0.cells@);
        assert(available_mask@ =~= mask0);
        lemma_inv_transfer(g0, *grid, available_mask@, tile_set@);
    }
    false
}

/// The board cell in row `x`, column `y` has been taken into the order.
pub open spec fn cell_seen(seen: Seq<bool>, n: int, x: int, y: int) -> bool {
    seen[x * n + y]
}

/// The centre-outward search order: a square spiral starting at the middle
/// cell, with arm lengths growing by one every second turn. The order holds
/// every cell of the board exactly once, the centre first.
#[verifier::loop_isolation(false)]
#[verifier::rlimit(100)]
pub fn generate_spiral_search_order(grid_size: usize) -> (r: Vec<(usize, usize)>)
    requires
        1 <= grid_size <= 10000,
    ensures
        r@.len() == grid_size * grid_size,
        forall|k: int|
            0 <= k < r@.len() ==> (#[trigger] r@[k]).0 < grid_size && (#[trigger] r@[k]).1
                < grid_size,
        r@[0] == (grid_size / 2, grid_size / 2),
        forall|a: int, b: int| 0 <= a < b < r@.len() ==> r@[a] != r@[b],
        forall|x: usize, y: usize|
            x < grid_size && y < grid_size ==> #[trigger] r@.contains((x, y)),
{
    proof {
        assert(1 <= grid_size * grid_size <= 100000000) by (nonlinear_arith)
            requires
                1 <= grid_size <= 10000,
        ;
    }
    let n = grid_size;
    let total = n * n;
    let mut seen: Vec<bool> = Vec::new();
    let mut j: usize = 0;
    while j < total
        invariant
            j <= total,
            seen@.len() == j,
            forall|j2: int| 0 <= j2 < j ==> seen@[j2] == false,
        decreases total - j,
    {
        seen.push(false);
        j += 1;
    }
    let mut search_order: Vec<(usize, usize)> = Vec::new();
    let mut x = n / 2;
    let mut y = n / 2;
    proof {
        lemma_cell_index_in_range(n as int, x as int, y as int);
        assert forall|xi: int, yi: int|
            0 <= xi < n && 0 <= yi < n implies !cell_seen(seen@, n as int, xi, yi) by {
            lemma_cell_index_in_range(n as int, xi, yi);
        }
    }
    push_unseen_cell(&mut search_order, &mut seen, x, y, n);
    let mut direction: u8 = 0;
    let mut steps: usize = 1;
    let mut steps_taken: usize = 0;
    let mut budget: usize = 4 * total + 8;
    while search_order.len() < total && budget > 0
        invariant
            1 <= search_order@.len() <= total,
            seen@.len() == total,
            x < n,
            y < n,
            direction < 4,
            1 <= steps <= 500000000,
            steps_taken < steps,
            budget <= 4 * total + 8,
            search_order@[0] == (n / 2, n / 2),
            forall|k: int|
                0 <= k < search_order@.len() ==> (#[trigger] search_order@[k]).0 < n && (
                #[trigger] search_order@[k]).1 < n,
            forall|xi: int, yi: int|
                0 <= xi < n && 0 <= yi < n ==> (#[trigger] cell_seen(seen@, n as int, xi, yi)
                    <==> exists|k: int|
                    0 <= k < search_order@.len() && search_order@[k] == (
                    xi as usize,
                    yi as usize,
                    )),
            forall|a: int, b: int|
                0 <= a < b < search_order@.len() ==> search_order@[a] != search_order@[b],
        decreases budget,
    {
        match direction {
            0 => {
                if y > 0 {
                    y -= 1;
                }
            },
            1 => {
                if x > 0 {
                    x -= 1;
                }
            },
            2 => {
                if y + 1 < n {
                    y += 1;
                }
            },
            _ => {
                if x + 1 < n {
                    x += 1;
                }
            },
        }
        steps_taken += 1;
        if steps_taken == steps {
            steps_taken = 0;
            direction = (direction + 1) % 4;
            if direction % 2 == 0 && steps < 500000000 {
                steps += 1;
            }
        }
        proof {
            lemma_cell_index_in_range(n as int, x as int, y as int);
            assert(seen@[x as int * n + y as int] == cell_seen(seen@, n as int, x as int, y as int));
        }
        if !seen[x * n + y] {
            push_unseen_cell(&mut search_order, &mut seen, x, y, n);
        }
        budget -= 1;
    }
    let mut xi: usize = 0;
    while xi < n
        invariant
            xi <= n,
            1 <= search_order@.len(),
            seen@.len() == total,
            search_order@[0] == (n / 2, n / 2),
            forall|k: int|
                0 <= k < search_order@.len() ==> (#[trigger] search_order@[k]).0 < n && (
                #[trigger] search_order@[k]).1 < n,
            forall|x2: int, y2: int|
                0 <= x2 < n && 0 <= y2 < n ==> (#[trigger] cell_seen(seen@, n as int, x2, y2)
                    <==> exists|k: int|
                    0 <= k < search_order@.len() && search_order@[k] == (
                    x2 as usize,
                    y2 as usize,
                    )),
            forall|a: int, b: int|
                0 <= a < b < search_order@.len() ==> search_order@[a] != search_order@[b],
            forall|x2: int, y2: int|
                0 <= x2 < xi && 0 <= y2 < n ==> #[trigger] cell_seen(seen@, n as int, x2, y2),
        decreases n - xi,
    {
        let mut yi: usize = 0;
        while yi < n
            invariant
                yi <= n,
                xi < n,
                1 <= search_order@.len(),
                seen@.len() == total,
                search_order@[0] == (n / 2, n / 2),
                forall|k: int|
                    0 <= k < search_order@.len() ==> (#[trigger] search_order@[k]).0 < n && (
                    #[trigger] search_order@[k]).1 < n,
                forall|x2: int, y2: int|
                    0 <= x2 < n && 0 <= y2 < n ==> (#[trigger] cell_seen(seen@, n as int, x2, y2)
                        <==> exists|k: int|
                        0 <= k < search_order@.len() && search_order@[k] == (
                        x2 as usize,
                        y2 as usize,
                        )),
                forall|a: int, b: int|
                    0 <= a < b < search_order@.len() ==> search_order@[a] != search_order@[b],
                forall|x2: int, y2: int|
                    0 <= x2 < xi && 0 <= y2 < n ==> #[trigger] cell_seen(seen@, n as int, x2, y2),
                forall|y2: int| 0 <= y2 < yi ==> #[trigger] cell_seen(seen@, n as int, xi as int, y2),
            decreases n - yi,
        {
            proof {
                lemma_cell_index_in_range(n as int, xi as int, yi as int);
                assert(seen@[xi as int * n + yi as int] == cell_seen(
                    seen@,
                    n as int,
                    xi as int,
                    yi as int,
                ));
            }
            if !seen[xi * n + yi] {
                push_unseen_cell(&mut search_order, &mut seen, xi, yi, n);
            }
            proof {
                assert(cell_seen(seen@, n as int, xi as int, yi as int));
            }
            yi += 1;
        }
        xi += 1;
    }
    proof {
        lemma_distinct_cover_is_complete(search_order@, seen@, n as int);
    }
    search_order
}

/// Appends one not-yet-seen cell to the search order and marks it seen,
/// keeping the order duplicate-free and in step with the seen table.
#[verifier::loop_isolation(false)]
fn push_unseen_cell(
    search_order: &mut Vec<(usize, usize)>,
    seen: &mut Vec<bool>,
    x: usize,
    y: usize,
    n: usize,
)
    requires
        x < n,
        y < n,
        old(seen)@.len() == n * n,
        !cell_seen(old(seen)@, n as int, x as int, y as int),
        forall|k: int|
            0 <= k < old(search_order)@.len() ==> (#[trigger] old(search_order)@[k]).0 < n && (
            #[trigger] old(search_order)@[k]).1 < n,
        forall|xi: int, yi: int|
            0 <= xi < n && 0 <= yi < n ==> (#[trigger] cell_seen(old(seen)@, n as int, xi, yi)
                <==> exists|k: int|
                0 <= k < old(search_order)@.len() && old(search_order)@[k] == (
                xi as usize,
                yi as usize,
                )),
        forall|a: int, b: int|
            0 <= a < b < old(search_order)@.len()
                ==> old(search_order)@[a] != old(search_order)@[b],
    ensures
        final(search_order)@ == old(search_order)@.push((x, y)),
        final(seen)@.len() == n * n,
        cell_seen(final(seen)@, n as int, x as int, y as int),
        forall|k: int|
            0 <= k < final(search_order)@.len() ==> (#[trigger] final(search_order)@[k]).0 < n && (
            #[trigger] final(search_order)@[k]).1 < n,
        forall|xi: int, yi: int|
            0 <= xi < n && 0 <= yi < n ==> (#[trigger] cell_seen(final(seen)@, n as int, xi, yi)
                <==> exists|k: int|
                0 <= k < final(search_order)@.len() && final(search_order)@[k] == (
                xi as usize,
                yi as usize,
                )),
        forall|xi: int, yi: int|
            0 <= xi < n && 0 <= yi < n && cell_seen(old(seen)@, n as int, xi, yi)
                ==> #[trigger] cell_seen(final(seen)@, n as int, xi, yi),
        forall|a: int, b: int|
            0 <= a < b < final(search_order)@.len()
                ==> final(search_order)@[a] != final(search_order)@[b],
{
    let total = seen.len();
    proof {
        lemma_cell_index_in_range(n as int, x as int, y as int);
    }
    search_order.push((x, y));
    seen.set(x * n + y, true);
    proof {
        let so = search_order@;
        let pre = old(search_order)@;
        let idx = x as int * n + y as int;
        assert forall|xi: int, yi: int|
            0 <= xi < n && 0 <= yi < n implies (#[trigger] cell_seen(seen@, n as int, xi, yi)
            <==> exists|k: int|
            0 <= k < so.len() && so[k] == (xi as usize, yi as usize)) by {
            lemma_cell_index_in_range(n as int, xi, yi);
            if xi == x && yi == y {
                assert(cell_seen(seen@, n as int, xi, yi));
                assert(so[so.len() - 1] == (x, y));
            } else {
                assert(xi * n + yi != idx) by {
                    if xi * n + yi == idx {
                        lemma_cell_index_injective(n as int, xi, yi, x as int, y as int);
                    }
                }
                assert(cell_seen(seen@, n as int, xi, yi) == cell_seen(
                    old(seen)@,
                    n as int,
                    xi,
                    yi,
                ));
                if cell_seen(old(seen)@, n as int, xi, yi) {
                    let k = choose|k: int|
                        0 <= k < pre.len() && pre[k] == (xi as usize, yi as usize);
                    assert(so[k] == (xi as usize, yi as usize));
                }
                if exists|k: int| 0 <= k < so.len() && so[k] == (xi as usize, yi as usize) {
                    let k = choose|k: int|
                        0 <= k < so.len() && so[k] == (xi as usize, yi as usize);
                    assert(k < pre.len());
                    assert(pre[k] == (xi as usize, yi as usize));
                    assert(cell_seen(old(seen)@, n as int, xi, yi));
                }
            }
        }
        assert forall|a: int, b: int| 0 <= a < b < so.len() implies so[a] != so[b] by {
            if b == so.len() - 1 {
                assert(so[a] == pre[a]);
                if pre[a] == (x, y) {
                    assert(cell_seen(old(seen)@, n as int, x as int, y as int));
                }
            }
        }
        assert forall|xi: int, yi: int|
            0 <= xi < n && 0 <= yi < n && cell_seen(old(seen)@, n as int, xi, yi) implies
            #[trigger] cell_seen(seen@, n as int, xi, yi) by {
            lemma_cell_index_in_range(n as int, xi, yi);
        }
    }
}

/// A duplicate-free order over in-range cells that has marked every cell
/// seen holds exactly one entry per cell of the board.
proof fn lemma_distinct_cover_is_complete(so: Seq<(usize, usize)>, seen: Seq<bool>, n: int)
    requires
        1 <= n <= 10000,
        seen.len() == n * n,
        forall|k: int| 0 <= k < so.len() ==> (#[trigger] so[k]).0 < n && (#[trigger] so[k]).1 < n,
        forall|xi: int, yi: int|
            0 <= xi < n && 0 <= yi < n ==> (#[trigger] cell_seen(seen, n, xi, yi) <==> exists|
                k: int,
            |
                0 <= k < so.len() && so[k] == (xi as usize, yi as usize)),
        forall|a: int, b: int| 0 <= a < b < so.len() ==> so[a] != so[b],
        forall|x2: int, y2: int|
            0 <= x2 < n && 0 <= y2 < n ==> #[trigger] cell_seen(seen, n, x2, y2),
    ensures
        so.len() == n * n,
        forall|x: usize, y: usize| x < n && y < n ==> #[trigger] so.contains((x, y)),
{
    broadcast use vstd::seq_lib::seq_to_set_is_finite;
    broadcast use vstd::set::group_set_axioms;

    assert forall|x: usize, y: usize| x < n && y < n implies #[trigger] so.contains((x, y)) by {
        assert(cell_seen(seen, n, x as int, y as int));
        let k = choose|k: int| 0 <= k < so.len() && so[k] == (x, y);
    }
    let q = Seq::new(so.len(), |k: int| so[k].0 as int * n + so[k].1 as int);
    assert(q.no_duplicates()) by {
        assert forall|a: int, b: int| 0 <= a < b < q.len() implies q[a] != q[b] by {
            if q[a] == q[b] {
                lemma_cell_index_injective(
                    n,
                    so[a].0 as int,
                    so[a].1 as int,
                    so[b].0 as int,
                    so[b].1 as int,
                );
            }
        }
    }
    q.unique_seq_to_set();
    let range = vstd::set_lib::set_int_range(0, n * n);
    vstd::set_lib::lemma_int_range(0, n * n);
    assert(q.to_set() =~= range) by {
        assert forall|v: int| q.to_set().contains(v) implies range.contains(v) by {
            let k = choose|k: int| 0 <= k < q.len() && q[k] == v;
            lemma_cell_index_in_range(n, so[k].0 as int, so[k].1 as int);
        }
        assert forall|v: int| range.contains(v) implies q.to_set().contains(v) by {
            let x2 = v / n;
            let y2 = v % n;
            vstd::arithmetic::div_mod::lemma_fundamental_div_mod(v, n);
            assert(0 <= y2 < n) by {
                vstd::arithmetic::div_mod::lemma_mod_bound(v, n);
            }
            assert(0 <= x2 < n) by {
                vstd::arithmetic::div_mod::lemma_div_pos_is_pos(v, n);
                if x2 >= n {
                    assert(v == n * x2 + y2);
                    assert(n * x2 >= n * n) by (nonlinear_arith)
                        requires
                            x2 >= n,
                            n >= 1,
                    ;
                }
            }
            assert(x2 * n + y2 == v) by {
                assert(v == n * x2 + y2);
                assert(n * x2 == x2 * n) by (nonlinear_arith);
            }
            assert(cell_seen(seen, n, x2, y2));
            let k = choose|k: int| 0 <= k < so.len() && so[k] == (x2 as usize, y2 as usize);
            assert(q[k] == v);
            assert(q.to_set().contains(q[k]));
        }
    }
    assert(so.len() == q.len());
    assert(q.to_set().len() == n * n);
}

/// The board as the solver seeds it: empty but for the centre cell, which
/// holds the given tile.
pub open spec fn seeded_cells(grid_size: int, centre_tile: OrientedTile) -> Seq<
    Option<OrientedTile>,
> {
    Seq::new(
        (grid_size * grid_size) as nat,
        |i: int|
            if i == (grid_size / 2) * grid_size + grid_size / 2 {
                Some(centre_tile)
            } else {
                None
            },
    )
}

/// The mask as the solver seeds it: everything free but the centre tile.
pub open spec fn seeded_mask(ts: Seq<Tile>, centre_tile: OrientedTile) -> Seq<bool> {
    Seq::new(ts.len(), |j: int| j != centre_tile.tile.id as int)
}

/// A board holding exactly one placed tile, taken from the catalog, with a
/// mask that frees everything but that tile, satisfies the solver
/// invariant.
proof fn lemma_initial_inv(
    g: Grid,
    mask: Seq<bool>,
    ts: Seq<Tile>,
    centre_tile: OrientedTile,
    centre: int,
)
    requires
        g.wf(),
        g.n >= 1,
        0 <= centre < g.n,
        ids_are_positions(ts),
        centre_tile.rotatable(),
        centre_tile.tile.id < ts.len(),
        centre_tile.tile == ts[centre_tile.tile.id as int],
        g.cell(centre, centre) == Some(centre_tile),
        forall|x: int, y: int|
            0 <= x < g.n && 0 <= y < g.n && !(x == centre && y == centre)
                ==> #[trigger] g.cell(x, y) is None,
        mask.len() == ts.len(),
        forall|j: int| 0 <= j < mask.len() ==> mask[j] == (j != centre_tile.tile.id as int),
    ensures
        solver_inv(g, mask, ts),
{
    reveal(grid_tiles_ok);
    reveal(grid_consistent);
    reveal(grid_distinct);
    reveal(mask_synced);
    assert forall|j: int|
        0 <= j < mask.len() && #[trigger] mask[j] == false implies exists|x: int, y: int|
        0 <= x < g.n && 0 <= y < g.n && g.cell(x, y) is Some && g.cell(x, y)->Some_0.tile.id
            == j by {
        assert(j == centre_tile.tile.id);
        assert(g.cell(centre, centre) is Some && g.cell(centre, centre)->Some_0.tile.id == j);
    }
}

/// The top-level grid solver: builds the full-wildcard adjacency index over
/// the catalog, seeds the centre cell with the given tile, and fills the
/// board by backtracking along the spiral order. A returned board is fully
/// populated, placed neighbours agree wherever a concrete label requires
/// it, and no tile identity is used twice. Failure means no consistent
/// completion of the seeded board exists along the centre-first covering
/// order the search walked: it is exhaustive with respect to its start and
/// order.
pub fn brute_force(grid_size: usize, tile_set: &[Tile], centre_tile: OrientedTile) -> (r: Option<
    Grid,
>)
    requires
        1 <= grid_size <= 10000,
        ids_are_positions(tile_set@),
        centre_tile.rotatable(),
        centre_tile.tile.id < tile_set@.len(),
        centre_tile.tile == tile_set@[centre_tile.tile.id as int],
    ensures
        match r {
            Some(g) => {
                &&& g.wf()
                &&& g.n == grid_size
                &&& grid_tiles_ok(g, tile_set@)
                &&& grid_consistent(g)
                &&& grid_distinct(g)
                &&& forall|x: int, y: int|
                    0 <= x < grid_size && 0 <= y < grid_size ==> (#[trigger] g.cell(x, y)) is Some
            },
            None => exists|order: Seq<(usize, usize)>|
                {
                    &&& order.len() == grid_size * grid_size
                    &&& (forall|k: int|
                        0 <= k < order.len() ==> (#[trigger] order[k]).0 < grid_size
                            && (#[trigger] order[k]).1 < grid_size)
                    &&& order[0] == (grid_size / 2, grid_size / 2)
                    &&& (forall|a: int, b: int| 0 <= a < b < order.len() ==> order[a] != order[b])
                    &&& (forall|x: usize, y: usize|
                        x < grid_size && y < grid_size ==> #[trigger] order.contains((x, y)))
                    &&& !fillable(
                        grid_size as int,
                        seeded_cells(grid_size as int, centre_tile),
                        seeded_mask(tile_set@, centre_tile),
                        tile_set@,
                        order,
                        1,
                    )
                },
        },
{
    proof {
        assert(1 <= grid_size * grid_size <= 100000000) by (nonlinear_arith)
            requires
                1 <= grid_size <= 10000,
        ;
    }
    let mut grid = Grid::new(grid_size);
    let tile_lookup = crate::index::build_indices(tile_set, 0);
    let centre = grid_size / 2;
    grid.set_cell(centre, centre, Some(centre_tile));
    let nts = tile_set.len();
    let mut available_mask: Vec<bool> = Vec::new();
    let mut i: usize = 0;
    while i < nts
        invariant
            i <= nts,
            nts == tile_set@.len(),
            available_mask@.len() == i,
            forall|j: int|
                0 <= j < i ==> available_mask@[j] == (j != centre_tile.tile.id as int),
        decreases nts - i,
    {
        available_mask.push(i != centre_tile.id());
        i += 1;
    }
    let search_order = generate_spiral_search_order(grid_size);
    let ghost g_start = grid;
    proof {
        lemma_initial_inv(grid, available_mask@, tile_set@, centre_tile, centre as int);
        assert(grid.cell(search_order@[0].0 as int, search_order@[0].1 as int) is Some);
    }
    if brute_force_recursive(
        &mut grid,
        &mut available_mask,
        &tile_lookup,
        tile_set,
        &search_order,
        1,
    ) {
        proof {
            assert(solver_inv(grid, available_mask@, tile_set@));
            assert forall|x: int, y: int|
                0 <= x < grid_size && 0 <= y < grid_size implies (#[trigger] grid.cell(
                x,
                y,
            )) is Some by {
                assert(search_order@.contains((x as usize, y as usize)));
                let k = choose|k: int|
                    0 <= k < search_order@.len() && search_order@[k] == (x as usize, y as usize);
                assert(grid.cell(
                    search_order@[k].0 as int,
                    search_order@[k].1 as int,
                ) is Some);
            }
        }
        Some(grid)
    } else {
        proof {
            assert(grid.cells@ =~= seeded_cells(grid_size as int, centre_tile)) by {
                assert forall|i: int|
                    0 <= i < grid.cells@.len() implies grid.cells@[i] == seeded_cells(
                    grid_size as int,
                    centre_tile,
                )[i] by {
                    let ci = (grid_size / 2) as int * grid_size + (grid_size / 2) as int;
                    if i != ci {
                        let x2 = i / grid_size as int;
                        let y2 = i % grid_size as int;
                        vstd::arithmetic::div_mod::lemma_fundamental_div_mod(
                            i,
                            grid_size as int,
                        );
                        assert(0 <= y2 < grid_size) by {
                            vstd::arithmetic::div_mod::lemma_mod_bound(i, grid_size as int);
                        }
                        assert(0 <= x2 < grid_size) by {
                            vstd::arithmetic::div_mod::lemma_div_pos_is_pos(i, grid_size as int);
                            if x2 >= grid_size {
                                assert(grid_size as int * x2 >= grid_size * grid_size)
                                    by (nonlinear_arith)
                                    requires
                                        x2 >= grid_size as int,
                                        grid_size >= 1,
                                ;
                            }
                        }
                        assert(x2 * grid_size + y2 == i) by {
                            assert(i == grid_size * x2 + y2);
                            assert(grid_size as int * x2 == x2 * grid_size) by (nonlinear_arith);
                        }
                        assert(grid.cells@[i] == g_start.cells@[i]);
                        assert(g_start.cells@[i] == g_start.cell(x2, y2));
                        if !(x2 == centre && y2 == centre) {
                            assert(g_start.cell(x2, y2) is None);
                        } else {
                            assert(i == ci);
                        }
                    }
                }
            }
            assert(available_mask@ =~= seeded_mask(tile_set@, centre_tile));
            assert(!fillable(
                grid_size as int,
                seeded_cells(grid_size as int, centre_tile),
                seeded_mask(tile_set@, centre_tile),
                tile_set@,
                search_order@,
                1,
            ));
        }
        None
    }
}

/// In a consistent board whose placed tiles show no sentinel sides, the
/// touching sides of neighbouring filled cells are outright equal: with
/// every label concrete, compatibility leaves no other room.
pub proof fn lemma_solved_grid_matching(g: Grid)
    requires
        grid_consistent(g),
        forall|x: int, y: int|
            0 <= x < g.n && 0 <= y < g.n && (#[trigger] g.cell(x, y)) is Some
                ==> crate::tile::ot_sides_in_range(g.cell(x, y)->Some_0),
    ensures
        forall|x: int, y: int|
            0 <= x < g.n - 1 && 0 <= y < g.n && (#[trigger] g.cell(x, y)) is Some && g.cell(
                x + 1,
                y,
            ) is Some ==> ot_bottom(g.cell(x, y)->Some_0) == ot_top(g.cell(x + 1, y)->Some_0),
        forall|x: int, y: int|
            0 <= x < g.n && 0 <= y < g.n - 1 && (#[trigger] g.cell(x, y)) is Some && g.cell(
                x,
                y + 1,
            ) is Some ==> ot_right(g.cell(x, y)->Some_0) == ot_left(g.cell(x, y + 1)->Some_0),
{
    reveal(grid_consistent);
}

} // verus!