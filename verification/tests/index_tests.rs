use edgematch::index::build_indices;
use edgematch::tile::{OrientedTile, Tile};

fn small_catalog() -> Vec<Tile> {
    vec![
        Tile { top: 1, right: 2, bottom: 3, left: 4, id: 0 },
        Tile { top: 5, right: 6, bottom: 7, left: 8, id: 1 },
        Tile { top: 1, right: 6, bottom: 3, left: 8, id: 2 },
    ]
}

fn contains(v: &Vec<OrientedTile>, ot: &OrientedTile) -> bool {
    v.iter().any(|c| c == ot)
}

#[test]
fn exact_query_finds_the_tile() {
    let ts = small_catalog();
    let idx = build_indices(&ts, 0);
    for id in 0..ts.len() {
        for o in 0u8..4 {
            let ot = OrientedTile::new(id, &ts, o);
            let key = (ot.top(), ot.right(), ot.bottom(), ot.left());
            let found = idx.get(key);
            assert!(contains(&found, &ot));
        }
    }
}

#[test]
fn wildcard_query_is_a_superset_of_the_exact_query() {
    let ts = small_catalog();
    let idx = build_indices(&ts, 0);
    let ot = OrientedTile::new(1, &ts, 0);
    let exact = idx.get((ot.top(), ot.right(), ot.bottom(), ot.left()));
    let masked_keys = [
        (-1, ot.right(), ot.bottom(), ot.left()),
        (ot.top(), -1, ot.bottom(), -1),
        (-1, -1, -1, ot.left()),
        (-1, -1, -1, -1),
    ];
    for key in masked_keys.iter() {
        let wider = idx.get(*key);
        for c in exact.iter() {
            assert!(contains(&wider, c));
        }
    }
}

#[test]
fn skipped_catalog_entries_are_not_indexed() {
    let ts = small_catalog();
    let idx = build_indices(&ts, 1);
    let skipped = OrientedTile::new(0, &ts, 0);
    let found = idx.get((skipped.top(), skipped.right(), skipped.bottom(), skipped.left()));
    assert!(!contains(&found, &skipped));
    let kept = OrientedTile::new(1, &ts, 0);
    let found2 = idx.get((kept.top(), kept.right(), kept.bottom(), kept.left()));
    assert!(contains(&found2, &kept));
}

#[test]
fn unsatisfiable_constraint_yields_no_tiles() {
    let ts = small_catalog();
    let idx = build_indices(&ts, 0);
    let found = idx.get((21, 21, 21, 21));
    assert_eq!(found.len(), 0);
}

#[test]
fn partial_query_respects_the_concrete_positions() {
    let ts = small_catalog();
    let idx = build_indices(&ts, 0);
    // Tiles whose unrotated left side is 8: tile 1 and tile 2.
    let found = idx.get((-1, -1, -1, 8));
    for c in found.iter() {
        assert_eq!(c.left(), 8);
    }
    assert!(contains(&found, &OrientedTile::new(1, &ts, 0)));
    assert!(contains(&found, &OrientedTile::new(2, &ts, 0)));
}
