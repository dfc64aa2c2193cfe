use edgematch::builder::{
    check_healthy_tileset, check_oriented_tile_fits_in_with_unpaired_edges_as_seed,
    create_mega_tiles, find_top_left_oriented_tiles_that_matches_one_mega_tile_edge,
    find_top_left_oriented_tiles_that_matches_two_mega_tile_edges, generate_initial_mega_tiles,
    get_edge_type_usage_score, get_valid_mega_tile_seeds, score_mega_tile, verify_mega_tiles,
    BuildError,
};
use edgematch::index::build_indices;
use edgematch::tile::{MegaTile, OrientedTile, Tile};
use edgematch::trackers::Trackers;

/// A full 256-tile catalog: four corners, fifty-six edge tiles, and interior
/// tiles defaulting to the same four labels.
fn base_catalog() -> Vec<Tile> {
    let mut ts = Vec::new();
    for i in 0..256usize {
        if i < 4 {
            ts.push(Tile { top: 0, right: 0, bottom: -1, left: -1, id: i });
        } else if i < 60 {
            ts.push(Tile { top: 0, right: 0, bottom: 0, left: -1, id: i });
        } else {
            ts.push(Tile { top: 1, right: 2, bottom: 3, left: 4, id: i });
        }
    }
    ts
}

/// A catalog in which the starter tile has exactly one way to grow into a
/// mega tile: tiles 140, 141 and 142 are its only partners.
fn solvable_catalog() -> Vec<Tile> {
    let mut ts = base_catalog();
    ts[138] = Tile { top: 10, right: 11, bottom: 12, left: 13, id: 138 };
    ts[140] = Tile { top: 14, right: 15, bottom: 16, left: 10, id: 140 };
    ts[141] = Tile { top: 16, right: 17, bottom: 18, left: 19, id: 141 };
    ts[142] = Tile { top: 11, right: 19, bottom: 20, left: 21, id: 142 };
    ts
}

fn mk(top: i8, right: i8, bottom: i8, left: i8, id: usize) -> OrientedTile {
    OrientedTile { tile: Tile { top, right, bottom, left, id }, orientation: 0 }
}

#[test]
fn builder_builds_the_unique_mega_tile() {
    let ts = solvable_catalog();
    let r = create_mega_tiles(&ts, 1, false);
    assert!(r.is_ok());
    let v = r.unwrap();
    assert_eq!(v.len(), 1);
    let m = &v[0];
    // The starter tile sits top-left, rotated a quarter turn.
    assert_eq!(m.tile1.id(), 138);
    assert_eq!(m.tile1.orientation, 1);
    assert_eq!(m.tile2.id(), 140);
    assert_eq!(m.tile3.id(), 142);
    assert_eq!(m.tile4.id(), 141);
    // The four internal adjacencies match exactly.
    assert_eq!(m.tile1.right(), m.tile2.left());
    assert_eq!(m.tile1.bottom(), m.tile3.top());
    assert_eq!(m.tile2.bottom(), m.tile4.top());
    assert_eq!(m.tile3.right(), m.tile4.left());
}

#[test]
fn builder_success_uses_four_distinct_identities_per_mega_tile() {
    let ts = solvable_catalog();
    let v = create_mega_tiles(&ts, 1, false).unwrap();
    let mut ids: Vec<usize> = Vec::new();
    for m in v.iter() {
        ids.push(m.tile1.id());
        ids.push(m.tile2.id());
        ids.push(m.tile3.id());
        ids.push(m.tile4.id());
    }
    assert_eq!(ids.len(), 4 * v.len());
    for a in 0..ids.len() {
        for b in (a + 1)..ids.len() {
            assert_ne!(ids[a], ids[b]);
        }
        assert!(ids[a] >= 60 && ids[a] < 256);
    }
}

#[test]
fn builder_reports_no_solution_when_the_starter_cannot_grow() {
    let mut ts = base_catalog();
    // No other tile carries the starter's label, so no partner exists.
    ts[138] = Tile { top: 20, right: 20, bottom: 20, left: 20, id: 138 };
    let r = create_mega_tiles(&ts, 1, false);
    assert_eq!(r, Err(BuildError::NoSolution));
}

#[test]
fn generate_initial_mega_tiles_returns_empty_on_failure() {
    let mut ts = base_catalog();
    ts[138] = Tile { top: 20, right: 20, bottom: 20, left: 20, id: 138 };
    let v = generate_initial_mega_tiles(&ts, 1, false);
    assert_eq!(v.len(), 0);
}

#[test]
fn seeds_start_with_the_fixed_starter_tile() {
    let ts = solvable_catalog();
    let idx = build_indices(&ts, 60);
    let st = Trackers::new(false);
    let seeds = get_valid_mega_tile_seeds(&st, 0, &idx, &ts, false);
    assert_eq!(seeds.len(), 1);
    assert_eq!(seeds[0].id(), 138);
    assert_eq!(seeds[0].orientation, 1);
}

#[test]
fn seeds_cross_multiply_the_unpaired_pairs() {
    let mut ts = solvable_catalog();
    // A tile whose top closes one unpaired pair and whose left opens the
    // other.
    ts[150] = Tile { top: 11, right: 1, bottom: 2, left: 10, id: 150 };
    let idx = build_indices(&ts, 60);
    let mut st = Trackers::new(false);
    st.unpaired_edges.push((10, 9));
    st.unpaired_edges.push((9, 11));
    let seeds = get_valid_mega_tile_seeds(&st, 5, &idx, &ts, false);
    assert!(seeds.iter().any(|s| s.id() == 150 && s.orientation == 0));
    for s in seeds.iter() {
        let fits = (0..st.unpaired_edges.len()).any(|i| {
            (0..st.unpaired_edges.len()).any(|j| {
                i != j && s.top() == st.unpaired_edges[i].1 && s.left() == st.unpaired_edges[j].0
            })
        });
        assert!(fits);
    }
}

#[test]
fn hint_gate_checks_the_unpaired_pairs() {
    let tile = mk(9, 1, 2, 5, 60);
    // Some pair opens with another label, and some pair opening with the
    // tile's left closes with another label: the tile fits as a seed.
    let fits = check_oriented_tile_fits_in_with_unpaired_edges_as_seed(
        &tile,
        &vec![(5, 6), (7, 8)],
    );
    assert!(fits);
    // The only pair opening with its left side closes with exactly its top.
    let no_fit = check_oriented_tile_fits_in_with_unpaired_edges_as_seed(
        &tile,
        &vec![(5, 9), (7, 8)],
    );
    assert!(!no_fit);
}

#[test]
fn health_check_enforces_the_supply_bound() {
    let st = Trackers::new(false);
    let zeros = vec![0i32; 22];
    assert!(check_healthy_tileset(&st, 0, &zeros, &zeros));
    let mut needed = vec![0i32; 22];
    needed[5] = 1;
    assert!(!check_healthy_tileset(&st, 0, &needed, &zeros));
}

#[test]
fn health_check_enforces_the_unpaired_ceiling() {
    let mut st = Trackers::new(false);
    let zeros = vec![0i32; 22];
    for k in 0..7i8 {
        st.unpaired_edges.push((k, k + 1));
    }
    // Seven unpaired pair types exceed the early ceiling of six.
    assert!(!check_healthy_tileset(&st, 0, &zeros, &zeros));
    assert!(check_healthy_tileset(&st, 4, &zeros, &zeros));
}

#[test]
fn usage_score_is_supply_minus_all_demands() {
    let total = vec![10i32; 22];
    let used = vec![2i32; 22];
    let wanted = vec![1i32; 22];
    let needed = vec![3i32; 22];
    let r = get_edge_type_usage_score(&wanted, &needed, &used, &total);
    assert_eq!(r.len(), 22);
    for k in 0..22 {
        assert_eq!(r[k], 4);
    }
}

#[test]
fn score_spends_label_budgets_and_punishes_exhausted_ones() {
    let m = MegaTile {
        tile1: mk(5, 9, 9, 8, 60),
        tile2: mk(6, 6, 9, 9, 61),
        tile3: mk(9, 9, 7, 5, 62),
        tile4: mk(9, 7, 8, 9, 63),
    };
    // With all budgets at zero every one of the sixteen sides draws the
    // exhaustion penalty, plus the growing negative budget readings.
    let score = score_mega_tile(&m, &vec![], &vec![], 3, &vec![0i32; 22], 777);
    assert_eq!(score, -192032);
}

#[test]
fn score_rewards_resolving_an_unpaired_pair() {
    let m = MegaTile {
        tile1: mk(5, 9, 9, 8, 60),
        tile2: mk(6, 6, 9, 9, 61),
        tile3: mk(9, 9, 7, 5, 62),
        tile4: mk(9, 7, 8, 9, 63),
    };
    let budgets = vec![100i32; 22];
    let base = score_mega_tile(&m, &vec![], &vec![], 3, &budgets, 777);
    // The pair (6, 5) is the reversed form of the aggregate top border
    // (5, 6): resolving it is worth one thousand.
    let boosted = score_mega_tile(&m, &vec![(6, 5)], &vec![], 3, &budgets, 777);
    assert_eq!(boosted - base, 1000);
    // Matching an already-paired entry is worth three hundred instead.
    let reinforced = score_mega_tile(&m, &vec![], &vec![(6, 5)], 3, &budgets, 777);
    assert_eq!(reinforced - base, 300);
}

#[test]
fn early_scores_are_just_the_tie_break() {
    let m = MegaTile {
        tile1: mk(5, 9, 9, 8, 60),
        tile2: mk(6, 6, 9, 9, 61),
        tile3: mk(9, 9, 7, 5, 62),
        tile4: mk(9, 7, 8, 9, 63),
    };
    let score = score_mega_tile(&m, &vec![], &vec![], 0, &vec![0i32; 22], 421);
    assert_eq!(score, 421);
}

#[test]
fn verify_accepts_disjoint_mega_tiles_and_rejects_reuse() {
    let m1 = MegaTile {
        tile1: mk(5, 9, 9, 8, 60),
        tile2: mk(6, 6, 9, 9, 61),
        tile3: mk(9, 9, 7, 5, 62),
        tile4: mk(9, 7, 8, 9, 63),
    };
    let m2 = MegaTile {
        tile1: mk(5, 9, 9, 8, 64),
        tile2: mk(6, 6, 9, 9, 65),
        tile3: mk(9, 9, 7, 5, 66),
        tile4: mk(9, 7, 8, 9, 67),
    };
    assert!(verify_mega_tiles(&vec![m1, m2]));
    let m3 = MegaTile {
        tile1: mk(5, 9, 9, 8, 68),
        tile2: mk(6, 6, 9, 9, 61),
        tile3: mk(9, 9, 7, 5, 69),
        tile4: mk(9, 7, 8, 9, 70),
    };
    assert!(!verify_mega_tiles(&vec![m1, m3]));
    let internal_reuse = MegaTile {
        tile1: mk(5, 9, 9, 8, 71),
        tile2: mk(6, 6, 9, 9, 71),
        tile3: mk(9, 9, 7, 5, 72),
        tile4: mk(9, 7, 8, 9, 73),
    };
    assert!(!verify_mega_tiles(&vec![internal_reuse]));
}

#[test]
fn verify_rejects_non_interior_identities() {
    // A rim identity in a mega tile marks the bookkeeping as broken even
    // when all identities are distinct.
    let rim_member = MegaTile {
        tile1: mk(5, 9, 9, 8, 12),
        tile2: mk(6, 6, 9, 9, 61),
        tile3: mk(9, 9, 7, 5, 62),
        tile4: mk(9, 7, 8, 9, 63),
    };
    assert!(!verify_mega_tiles(&vec![rim_member]));
}

#[test]
fn two_edge_matcher_finds_tiles_resolving_two_pairs() {
    let mut ts = solvable_catalog();
    ts[150] = Tile { top: 11, right: 1, bottom: 2, left: 10, id: 150 };
    let idx = build_indices(&ts, 60);
    let mask = vec![true; 256];
    let unpaired = vec![(10i8, 9i8), (9i8, 11i8)];
    let r = find_top_left_oriented_tiles_that_matches_two_mega_tile_edges(
        &unpaired,
        &idx,
        &mask,
        &ts,
    );
    assert!(r.iter().any(|s| s.id() == 150 && s.orientation == 0));
    for s in r.iter() {
        let fits = (0..unpaired.len()).any(|i| {
            (0..unpaired.len()).any(|j| {
                i != j && s.left() == unpaired[i].0 && s.top() == unpaired[j].1
            })
        });
        assert!(fits);
    }
}

#[test]
fn one_edge_matcher_finds_tiles_resolving_one_pair() {
    let ts = solvable_catalog();
    let idx = build_indices(&ts, 60);
    let mask = vec![true; 256];
    let unpaired = vec![(10i8, 3i8)];
    let r = find_top_left_oriented_tiles_that_matches_one_mega_tile_edge(
        &unpaired,
        &idx,
        &mask,
        &ts,
    );
    // Tile 140 offers its printed left side 10.
    assert!(r.iter().any(|s| s.id() == 140 && s.orientation == 0));
    for s in r.iter() {
        assert!(s.left() == 10 || s.top() == 3);
    }
}

#[test]
fn unavailable_tiles_are_never_offered() {
    let mut ts = solvable_catalog();
    ts[150] = Tile { top: 11, right: 1, bottom: 2, left: 10, id: 150 };
    let idx = build_indices(&ts, 60);
    let mut mask = vec![true; 256];
    mask[150] = false;
    let unpaired = vec![(10i8, 9i8), (9i8, 11i8)];
    let r = find_top_left_oriented_tiles_that_matches_two_mega_tile_edges(
        &unpaired,
        &idx,
        &mask,
        &ts,
    );
    assert!(!r.iter().any(|s| s.id() == 150));
}
