use edgematch::counts::{count_tile_types, find_required_outside_matches, generate_needed_edge_sides, generate_wanted_hint_sides};
use edgematch::tile::{OrientedTile, Tile};

fn mixed_catalog() -> Vec<Tile> {
    vec![
        Tile { top: 0, right: 1, bottom: -1, left: -1, id: 0 },
        Tile { top: 2, right: 3, bottom: 4, left: -1, id: 1 },
        Tile { top: 5, right: 6, bottom: 7, left: 8, id: 2 },
        Tile { top: 5, right: 5, bottom: 7, left: 8, id: 3 },
    ]
}

#[test]
fn count_tile_types_counts_the_selected_classes() {
    let ts = mixed_catalog();
    let all = count_tile_types(&ts, true, true, true, false);
    assert_eq!(all.len(), 22);
    assert_eq!(all[0], 1);
    assert_eq!(all[1], 1);
    assert_eq!(all[2], 1);
    assert_eq!(all[3], 1);
    assert_eq!(all[4], 1);
    assert_eq!(all[5], 3);
    assert_eq!(all[6], 1);
    assert_eq!(all[7], 2);
    assert_eq!(all[8], 2);
    assert_eq!(all[9], 0);
}

#[test]
fn count_tile_types_can_skip_classes() {
    let ts = mixed_catalog();
    let corners_only = count_tile_types(&ts, true, false, false, false);
    assert_eq!(corners_only[0], 1);
    assert_eq!(corners_only[1], 1);
    assert_eq!(corners_only[2], 0);
    assert_eq!(corners_only[5], 0);
    let center_only = count_tile_types(&ts, false, false, true, false);
    assert_eq!(center_only[0], 0);
    assert_eq!(center_only[5], 3);
    assert_eq!(center_only[8], 2);
}

#[test]
fn count_tile_types_trims_the_rim_labels() {
    let ts = mixed_catalog();
    let trimmed = count_tile_types(&ts, true, true, true, true);
    for k in 0..5 {
        assert_eq!(trimmed[k], 0);
    }
    assert_eq!(trimmed[5], 3);
    assert_eq!(trimmed[7], 2);
}

fn full_catalog() -> Vec<Tile> {
    let mut ts = Vec::new();
    for i in 0..256usize {
        if i < 4 {
            ts.push(Tile { top: 0, right: 0, bottom: -1, left: -1, id: i });
        } else if i < 60 {
            ts.push(Tile { top: 0, right: 0, bottom: 0, left: -1, id: i });
        } else {
            ts.push(Tile { top: 1, right: 2, bottom: 3, left: 4, id: i });
        }
    }
    ts
}

#[test]
fn hint_sides_count_the_bottom_and_left_of_each_hint() {
    let mut ts = full_catalog();
    ts[207] = Tile { top: 1, right: 2, bottom: 10, left: 11, id: 207 };
    ts[254] = Tile { top: 1, right: 2, bottom: 10, left: 11, id: 254 };
    ts[180] = Tile { top: 1, right: 2, bottom: 12, left: 13, id: 180 };
    ts[248] = Tile { top: 1, right: 2, bottom: 12, left: 13, id: 248 };
    let wanted = generate_wanted_hint_sides(&ts);
    assert_eq!(wanted.len(), 22);
    // Hint 207 enters rotated by three quarter turns: its rotated bottom is
    // the printed left (11) and its rotated left the printed top (1).
    // Hint 254 enters rotated by a half turn: rotated bottom is the printed
    // top (1), rotated left the printed right (2).
    // Hint 180 enters unrotated: bottom 12, left 13.
    // Hint 248 enters rotated by a half turn: bottom 1, left 2.
    assert_eq!(wanted[11], 1);
    assert_eq!(wanted[1], 3);
    assert_eq!(wanted[2], 2);
    assert_eq!(wanted[12], 1);
    assert_eq!(wanted[13], 1);
    assert_eq!(wanted[0], 0);
}

#[test]
fn needed_edge_sides_subtract_rim_capacity_from_interior_demand() {
    let mut ts = mixed_catalog();
    // Give the edge tile an interior-range bottom label so the difference
    // shows: interior demand for label 7 is 2, rim capacity 0.
    ts.push(Tile { top: 5, right: 6, bottom: 7, left: 9, id: 4 });
    let needed = generate_needed_edge_sides(&ts);
    assert_eq!(needed.len(), 22);
    for k in 0..5 {
        assert_eq!(needed[k], 0);
    }
    // Label 5: three interior sides, no rim sides.
    assert_eq!(needed[5], 4);
    // Label 7: interior bottoms of tiles 2, 3 and 4.
    assert_eq!(needed[7], 3);
}

#[test]
fn required_outside_matches_counts_the_rim_facing_sides() {
    // A full 16 by 16 board of one repeated tile, labels carried one-based.
    let t = Tile { top: 3, right: 4, bottom: 5, left: 6, id: 0 };
    let row: Vec<OrientedTile> = (0..16).map(|_| OrientedTile { tile: t, orientation: 0 }).collect();
    let grid: Vec<Vec<OrientedTile>> = (0..16).map(|_| row.clone()).collect();
    let r = find_required_outside_matches(&grid);
    assert_eq!(r.len(), 22);
    // Fourteen cells of the top row present their bottom (5 -> index 4),
    // fourteen of the bottom row their top (3 -> index 2), fourteen of the
    // left column their right (4 -> index 3), fourteen of the right column
    // their left (6 -> index 5).
    assert_eq!(r[4], 14);
    assert_eq!(r[2], 14);
    assert_eq!(r[3], 14);
    assert_eq!(r[5], 14);
    assert_eq!(r[0], 0);
}
