use edgematch::solver::{brute_force, generate_spiral_search_order};
use edgematch::tile::{OrientedTile, Tile};

/// A 3 by 3 catalog pre-arranged to have a unique matching: every internal
/// adjacency carries its own label, outer sides are the sentinel, and the
/// tile for row `r`, column `c` has identity `3 r + c`.
fn arranged_catalog() -> Vec<Tile> {
    let h = |r: usize, c: usize| (1 + r * 2 + c) as i8;
    let v = |r: usize, c: usize| (7 + r * 3 + c) as i8;
    let mut ts = Vec::new();
    for r in 0..3 {
        for c in 0..3 {
            ts.push(Tile {
                top: if r == 0 { -1 } else { v(r - 1, c) },
                right: if c == 2 { -1 } else { h(r, c) },
                bottom: if r == 2 { -1 } else { v(r, c) },
                left: if c == 0 { -1 } else { h(r, c - 1) },
                id: 3 * r + c,
            });
        }
    }
    ts
}

#[test]
fn spiral_starts_at_the_centre_and_covers_every_cell_once() {
    let order = generate_spiral_search_order(3);
    assert_eq!(order.len(), 9);
    assert_eq!(order[0], (1, 1));
    let mut seen = [[false; 3]; 3];
    for (x, y) in order.iter() {
        assert!(*x < 3 && *y < 3);
        assert!(!seen[*x][*y]);
        seen[*x][*y] = true;
    }
}

#[test]
fn spiral_of_larger_boards_still_covers_every_cell_once() {
    for n in [1usize, 2, 4, 7, 16] {
        let order = generate_spiral_search_order(n);
        assert_eq!(order.len(), n * n);
        assert_eq!(order[0], (n / 2, n / 2));
        let mut seen = vec![vec![false; n]; n];
        for (x, y) in order.iter() {
            assert!(*x < n && *y < n);
            assert!(!seen[*x][*y]);
            seen[*x][*y] = true;
        }
    }
}

#[test]
fn solver_recovers_the_unique_arrangement() {
    let ts = arranged_catalog();
    let centre = OrientedTile::new(4, &ts, 0);
    let solved = brute_force(3, &ts, centre);
    assert!(solved.is_some());
    let g = solved.unwrap();
    for r in 0..3usize {
        for c in 0..3usize {
            let cell = g.get_cell(r, c);
            assert!(cell.is_some());
            let ot = cell.unwrap();
            assert_eq!(ot.id(), 3 * r + c);
            assert_eq!(ot.orientation, 0);
        }
    }
    // Zero mismatched adjacent sides.
    for r in 0..3usize {
        for c in 0..3usize {
            let ot = g.get_cell(r, c).unwrap();
            if r + 1 < 3 {
                let below = g.get_cell(r + 1, c).unwrap();
                assert_eq!(ot.bottom(), below.top());
            }
            if c + 1 < 3 {
                let right = g.get_cell(r, c + 1).unwrap();
                assert_eq!(ot.right(), right.left());
            }
        }
    }
}

#[test]
fn solver_reports_failure_when_no_tile_fits() {
    // Two tiles whose sides cannot meet: the centre tile demands label 1 on
    // every side and the only other tile offers label 2 everywhere.
    let ts = vec![
        Tile { top: 1, right: 1, bottom: 1, left: 1, id: 0 },
        Tile { top: 2, right: 2, bottom: 2, left: 2, id: 1 },
    ];
    let centre = OrientedTile::new(0, &ts, 0);
    // A 2 by 2 board cannot be filled: only one tile besides the centre one.
    let solved = brute_force(2, &ts, centre);
    assert!(solved.is_none());
}

#[test]
fn solver_places_every_identity_at_most_once() {
    let ts = arranged_catalog();
    let centre = OrientedTile::new(4, &ts, 0);
    let g = brute_force(3, &ts, centre).unwrap();
    let mut used = [false; 9];
    for r in 0..3usize {
        for c in 0..3usize {
            let id = g.get_cell(r, c).unwrap().id();
            assert!(!used[id]);
            used[id] = true;
        }
    }
}
