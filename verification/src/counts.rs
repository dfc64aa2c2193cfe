//! Side-label statistics over a tile catalog: how often each label occurs
//! on the sides of the corner, edge and interior tiles, what the forced hint
//! tiles will need, and what the rim stage will need.

use vstd::prelude::*;

use crate::tile::{catalog_wf, ot_bottom, ot_left, ot_right, ot_top, OrientedTile, Tile};
use crate::trackers::b2i;

verus! {

/// A corner tile: both the bottom and the left side are the sentinel.
pub open spec fn is_corner(t: Tile) -> bool {
    t.bottom == -1 && t.left == -1
}

/// An edge tile: only the left side is the sentinel.
pub open spec fn is_edge(t: Tile) -> bool {
    t.bottom != -1 && t.left == -1
}

/// An interior tile: no sentinel on the bottom or the left.
pub open spec fn is_center(t: Tile) -> bool {
    t.bottom != -1 && t.left != -1
}

/// The concrete sides that a tile's class makes countable carry labels of
/// the alphabet.
pub open spec fn tile_countable(t: Tile) -> bool {
    &&& is_corner(t) ==> 0 <= t.top < 22 && 0 <= t.right < 22
    &&& is_edge(t) ==> 0 <= t.top < 22 && 0 <= t.right < 22 && 0 <= t.bottom < 22
    &&& is_center(t) ==> 0 <= t.top < 22 && 0 <= t.right < 22 && 0 <= t.bottom < 22 && 0 <= t.left
        < 22
}

/// Every tile of the catalog is countable.
pub open spec fn catalog_countable(ts: Seq<Tile>) -> bool {
    forall|i: int| 0 <= i < ts.len() ==> tile_countable(#[trigger] ts[i])
}

/// How many selected sides of one tile carry the label `k`: two for a
/// counted corner tile, three for a counted edge tile, four for a counted
/// interior tile.
pub open spec fn tile_contribution(t: Tile, k: i8, corners: bool, edges: bool, center: bool) -> int {
    if corners && is_corner(t) {
        b2i(t.top == k) + b2i(t.right == k)
    } else if edges && is_edge(t) {
        b2i(t.top == k) + b2i(t.right == k) + b2i(t.bottom == k)
    } else if center && is_center(t) {
        b2i(t.top == k) + b2i(t.right == k) + b2i(t.bottom == k) + b2i(t.left == k)
    } else {
        0
    }
}

/// The total number of selected sides over a catalog that carry the label.
pub open spec fn side_count(ts: Seq<Tile>, k: i8, corners: bool, edges: bool, center: bool) -> int
    decreases ts.len(),
{
    if ts.len() == 0 {
        0
    } else {
        side_count(ts.drop_last(), k, corners, edges, center) + tile_contribution(
            ts.last(),
            k,
            corners,
            edges,
            center,
        )
    }
}

/// A side count lies between zero and four sides per tile.
pub proof fn lemma_side_count_bounds(ts: Seq<Tile>, k: i8, corners: bool, edges: bool, center: bool)
    ensures
        0 <= side_count(ts, k, corners, edges, center) <= 4 * ts.len(),
    decreases ts.len(),
{
    if ts.len() > 0 {
        lemma_side_count_bounds(ts.drop_last(), k, corners, edges, center);
    }
}

/// Counts, per label, the sides of the selected tile classes across a
/// catalog; with `trim_edge_only` the counts of the five rim-only labels are
/// zeroed.
#[verifier::loop_isolation(false)]
pub fn count_tile_types(
    tileset: &[Tile],
    corners: bool,
    edges: bool,
    center: bool,
    trim_edge_only: bool,
) -> (r: Vec<i32>)
    requires
        catalog_countable(tileset@),
        tileset@.len() <= 1000000,
    ensures
        r@.len() == 22,
        forall|k: int|
            0 <= k < 22 ==> #[trigger] r@[k] == (if trim_edge_only && k < 5 {
                0int
            } else {
                side_count(tileset@, k as i8, corners, edges, center)
            }),
{
    let mut counts: Vec<i32> = Vec::new();
    let mut j: usize = 0;
    while j < 22
        invariant
            j <= 22,
            counts@.len() == j,
            forall|k: int| 0 <= k < j ==> counts@[k] == 0,
        decreases 22 - j,
    {
        counts.push(0);
        j += 1;
    }
    let n = tileset.len();
    let mut i: usize = 0;
    proof {
        assert forall|k: int| 0 <= k < 22 implies counts@[k] == side_count(
            tileset@.take(0),
            k as i8,
            corners,
            edges,
            center,
        ) by {
            assert(tileset@.take(0) =~= Seq::<Tile>::empty());
        }
    }
    while i < n
        invariant
            i <= n,
            counts@.len() == 22,
            forall|k: int|
                0 <= k < 22 ==> #[trigger] counts@[k] == side_count(
                    tileset@.take(i as int),
                    k as i8,
                    corners,
                    edges,
                    center,
                ),
        decreases n - i,
    {
        proof {
            assert(tileset@.take(i as int + 1).drop_last() =~= tileset@.take(i as int));
            assert(tileset@.take(i as int + 1).last() == tileset@[i as int]);
            assert forall|k: int| 0 <= k < 22 implies 0 <= #[trigger] counts@[k]
                <= 4 * i as int by {
                lemma_side_count_bounds(tileset@.take(i as int), k as i8, corners, edges, center);
            }
        }
        let t = tileset[i];
        if corners && t.bottom == -1 && t.left == -1 {
            let v0 = counts[t.top as usize];
            counts.set(t.top as usize, v0 + 1);
            let v1 = counts[t.right as usize];
            counts.set(t.right as usize, v1 + 1);
        } else if edges && t.bottom != -1 && t.left == -1 {
            let v0 = counts[t.top as usize];
            counts.set(t.top as usize, v0 + 1);
            let v1 = counts[t.right as usize];
            counts.set(t.right as usize, v1 + 1);
            let v2 = counts[t.bottom as usize];
            counts.set(t.bottom as usize, v2 + 1);
        } else if center && t.bottom != -1 && t.left != -1 {
            let v0 = counts[t.top as usize];
            counts.set(t.top as usize, v0 + 1);
            let v1 = counts[t.right as usize];
            counts.set(t.right as usize, v1 + 1);
            let v2 = counts[t.bottom as usize];
            counts.set(t.bottom as usize, v2 + 1);
            let v3 = counts[t.left as usize];
            counts.set(t.left as usize, v3 + 1);
        }
        i += 1;
    }
    proof {
        assert(tileset@.take(n as int) =~= tileset@);
    }
    if trim_edge_only {
        counts.set(0, 0);
        counts.set(1, 0);
        counts.set(2, 0);
        counts.set(3, 0);
        counts.set(4, 0);
    }
    counts
}

/// What one forced hint tile needs on its bottom and left side, per label.
pub open spec fn hint_pair_contribution(ts: Seq<Tile>, id: int, o: u8, k: i8) -> int {
    let h = crate::builder::spec_new_ot(ts, id, o);
    b2i(ot_bottom(h) == k) + b2i(ot_left(h) == k)
}

/// What the four forced hint tiles together need, per label.
pub open spec fn hint_sides_count(ts: Seq<Tile>, k: i8) -> int {
    hint_pair_contribution(ts, 207, 3, k) + hint_pair_contribution(ts, 254, 2, k)
        + hint_pair_contribution(ts, 180, 0, k) + hint_pair_contribution(ts, 248, 2, k)
}

/// Raises the counts for the bottom and left side of one hint tile.
fn bump_hint_sides(counts: &mut Vec<i32>, h: OrientedTile)
    requires
        old(counts)@.len() == 22,
        h.rotatable(),
        0 <= ot_bottom(h) < 22,
        0 <= ot_left(h) < 22,
        forall|k: int| 0 <= k < 22 ==> 0 <= #[trigger] old(counts)@[k] <= 100,
    ensures
        final(counts)@.len() == 22,
        forall|k: int|
            0 <= k < 22 ==> #[trigger] final(counts)@[k] == old(counts)@[k] + b2i(
                ot_bottom(h) == k as i8,
            ) + b2i(ot_left(h) == k as i8),
{
    let b = h.bottom();
    let l = h.left();
    let v = counts[b as usize];
    counts.set(b as usize, v + 1);
    let v = counts[l as usize];
    counts.set(l as usize, v + 1);
}

/// Counts, per label, the bottom and left sides that the four forced hint
/// tiles will need to have matched when they are committed late in the
/// search.
#[verifier::loop_isolation(false)]
pub fn generate_wanted_hint_sides(tile_set: &[Tile]) -> (r: Vec<i32>)
    requires
        catalog_wf(tile_set@),
    ensures
        r@.len() == 22,
        forall|k: int| 0 <= k < 22 ==> #[trigger] r@[k] == hint_sides_count(tile_set@, k as i8),
{
    let mut counts: Vec<i32> = Vec::new();
    let mut j: usize = 0;
    while j < 22
        invariant
            j <= 22,
            counts@.len() == j,
            forall|k: int| 0 <= k < j ==> counts@[k] == 0,
        decreases 22 - j,
    {
        counts.push(0);
        j += 1;
    }
    let h1 = OrientedTile::new(207, tile_set, 3);
    let h2 = OrientedTile::new(254, tile_set, 2);
    let h3 = OrientedTile::new(180, tile_set, 0);
    let h4 = OrientedTile::new(248, tile_set, 2);
    proof {
        assert(crate::tile::tile_sides_in_range(tile_set@[207]));
        assert(crate::tile::tile_sides_in_range(tile_set@[254]));
        assert(crate::tile::tile_sides_in_range(tile_set@[180]));
        assert(crate::tile::tile_sides_in_range(tile_set@[248]));
    }
    bump_hint_sides(&mut counts, h1);
    bump_hint_sides(&mut counts, h2);
    bump_hint_sides(&mut counts, h3);
    bump_hint_sides(&mut counts, h4);
    counts
}

/// Counts, per non-rim label, how many sides the interior tiles show beyond
/// what the corner and edge tiles can absorb: the matches that must be made
/// tile-to-tile away from the rim.
#[verifier::loop_isolation(false)]
pub fn generate_needed_edge_sides(tile_set: &[Tile]) -> (r: Vec<i32>)
    requires
        catalog_countable(tile_set@),
        tile_set@.len() <= 1000000,
    ensures
        r@.len() == 22,
        forall|k: int|
            0 <= k < 22 ==> #[trigger] r@[k] == (if 5 <= k {
                side_count(tile_set@, k as i8, false, false, true) - side_count(
                    tile_set@,
                    k as i8,
                    true,
                    true,
                    false,
                )
            } else {
                0int
            }),
{
    let required_outside_matches = count_tile_types(tile_set, true, true, false, false);
    let required_inside_matches = count_tile_types(tile_set, false, false, true, false);
    let mut r: Vec<i32> = Vec::new();
    let mut j: usize = 0;
    while j < 5
        invariant
            j <= 5,
            r@.len() == j,
            forall|k: int| 0 <= k < j ==> r@[k] == 0,
        decreases 5 - j,
    {
        r.push(0);
        j += 1;
    }
    let mut i: usize = 5;
    while i < 22
        invariant
            5 <= i <= 22,
            r@.len() == i,
            forall|k: int| 0 <= k < 5 ==> r@[k] == 0,
            forall|k: int|
                5 <= k < i ==> #[trigger] r@[k] == side_count(
                    tile_set@,
                    k as i8,
                    false,
                    false,
                    true,
                ) - side_count(tile_set@, k as i8, true, true, false),
        decreases 22 - i,
    {
        proof {
            lemma_side_count_bounds(tile_set@, i as i8, false, false, true);
            lemma_side_count_bounds(tile_set@, i as i8, true, true, false);
        }
        r.push(required_inside_matches[i] - required_outside_matches[i]);
        i += 1;
    }
    r
}

/// The label requirements that the rim of a fully laid 16 by 16 grid places
/// on its inner neighbours, summed over the second to fifteenth cell of each
/// outer row and column; the labels here are carried one-based.
pub open spec fn rim_count(g: Seq<Vec<OrientedTile>>, k: int, i: int) -> int
    decreases 15 - i,
{
    if i < 1 || i >= 15 {
        0
    } else {
        b2i(ot_bottom(g[0]@[i]) - 1 == k) + b2i(ot_top(g[15]@[i]) - 1 == k) + b2i(
            ot_right(g[i]@[0]) - 1 == k,
        ) + b2i(ot_left(g[i]@[15]) - 1 == k) + rim_count(g, k, i + 1)
    }
}

/// Counts, per label, how many sides the rim cells of a fully laid 16 by 16
/// grid present towards the interior.
#[verifier::loop_isolation(false)]
pub fn find_required_outside_matches(grid: &Vec<Vec<OrientedTile>>) -> (r: Vec<i32>)
    requires
        grid@.len() == 16,
        forall|i: int| 0 <= i < 16 ==> (#[trigger] grid@[i])@.len() == 16,
        forall|i: int, j: int|
            0 <= i < 16 && 0 <= j < 16 ==> (#[trigger] grid@[i]@[j]).rotatable(),
        forall|i: int|
            1 <= i < 15 ==> 1 <= ot_bottom(#[trigger] grid@[0]@[i]) <= 22 && 1 <= ot_top(
                grid@[15]@[i],
            ) <= 22 && 1 <= ot_right(grid@[i]@[0]) <= 22 && 1 <= ot_left(grid@[i]@[15]) <= 22,
    ensures
        r@.len() == 22,
        forall|k: int| 0 <= k < 22 ==> #[trigger] r@[k] == rim_count(grid@, k, 1),
{
    let mut counts: Vec<i32> = Vec::new();
    let mut j: usize = 0;
    while j < 22
        invariant
            j <= 22,
            counts@.len() == j,
            forall|k: int| 0 <= k < j ==> counts@[k] == 0,
        decreases 22 - j,
    {
        counts.push(0);
        j += 1;
    }
    let mut i: usize = 1;
    while i < 15
        invariant
            1 <= i <= 15,
            counts@.len() == 22,
            forall|k: int|
                0 <= k < 22 ==> #[trigger] counts@[k] == rim_count(grid@, k, 1) - rim_count(
                    grid@,
                    k,
                    i as int,
                ),
            forall|k: int| 0 <= k < 22 ==> 0 <= #[trigger] counts@[k] <= 4 * i as int,
        decreases 15 - i,
    {
        let row0 = &grid[0];
        let row15 = &grid[15];
        let rowi = &grid[i];
        let s1 = row0[i].bottom();
        let v = counts[(s1 - 1) as usize];
        counts.set((s1 - 1) as usize, v + 1);
        let s2 = row15[i].top();
        let v = counts[(s2 - 1) as usize];
        counts.set((s2 - 1) as usize, v + 1);
        let s3 = rowi[0].right();
        let v = counts[(s3 - 1) as usize];
        counts.set((s3 - 1) as usize, v + 1);
        let s4 = rowi[15].left();
        let v = counts[(s4 - 1) as usize];
        counts.set((s4 - 1) as usize, v + 1);
        i += 1;
    }
    counts
}

} // verus!
