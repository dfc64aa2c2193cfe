use edgematch::tile::{MegaTile, OrientedTile, Tile};

fn sample_tile() -> Tile {
    Tile { top: 12, right: 4, bottom: 5, left: 19, id: 0 }
}

#[test]
fn rotation_zero_is_identity() {
    let t = sample_tile();
    let ot = OrientedTile { tile: t, orientation: 0 };
    assert_eq!(ot.tile_as_rotated(), t);
}

#[test]
fn rotation_quarter_turn_moves_left_to_top() {
    let t = sample_tile();
    let ot = OrientedTile { tile: t, orientation: 1 };
    let r = ot.tile_as_rotated();
    assert_eq!(r.top, 19);
    assert_eq!(r.right, 12);
    assert_eq!(r.bottom, 4);
    assert_eq!(r.left, 5);
    assert_eq!(r.id, 0);
}

#[test]
fn rotation_half_turn_swaps_opposite_sides() {
    let t = sample_tile();
    let ot = OrientedTile { tile: t, orientation: 2 };
    let r = ot.tile_as_rotated();
    assert_eq!(r.top, 5);
    assert_eq!(r.right, 19);
    assert_eq!(r.bottom, 12);
    assert_eq!(r.left, 4);
}

#[test]
fn rotation_then_inverse_rotation_restores_sides() {
    let t = sample_tile();
    for r in 0u8..4 {
        let rotated = OrientedTile { tile: t, orientation: r }.tile_as_rotated();
        let back = OrientedTile { tile: rotated, orientation: (4 - r) % 4 }.tile_as_rotated();
        assert_eq!(back, t);
    }
}

#[test]
fn side_accessors_follow_rotation() {
    let t = sample_tile();
    let ot = OrientedTile { tile: t, orientation: 3 };
    assert_eq!(ot.top(), 4);
    assert_eq!(ot.right(), 5);
    assert_eq!(ot.bottom(), 19);
    assert_eq!(ot.left(), 12);
    assert_eq!(ot.id(), 0);
}

#[test]
fn new_looks_tile_up_in_catalog() {
    let ts = vec![
        Tile { top: 1, right: 2, bottom: 3, left: 4, id: 0 },
        Tile { top: 5, right: 6, bottom: 7, left: 8, id: 1 },
    ];
    let ot = OrientedTile::new(1, &ts, 2);
    assert_eq!(ot.tile, ts[1]);
    assert_eq!(ot.orientation, 2);
}

#[test]
fn mega_tile_borders_read_in_traversal_order() {
    let mk = |top: i8, right: i8, bottom: i8, left: i8, id: usize| OrientedTile {
        tile: Tile { top, right, bottom, left, id },
        orientation: 0,
    };
    let m = MegaTile {
        tile1: mk(5, 9, 9, 8, 60),
        tile2: mk(6, 6, 9, 9, 61),
        tile3: mk(9, 9, 7, 5, 62),
        tile4: mk(9, 7, 8, 9, 63),
    };
    assert_eq!(m.top(), (5, 6));
    assert_eq!(m.right(), (6, 7));
    assert_eq!(m.bottom(), (7, 8));
    assert_eq!(m.left(), (8, 5));
}
