use edgematch::tile::{MegaTile, OrientedTile, Tile};
use edgematch::trackers::{add_mega_tile_to_available_mask, Trackers};

fn mk(top: i8, right: i8, bottom: i8, left: i8, id: usize) -> OrientedTile {
    OrientedTile { tile: Tile { top, right, bottom, left, id }, orientation: 0 }
}

/// A mega tile with the given aggregate borders and one internal label.
fn mega_with_borders(
    top: (i8, i8),
    right: (i8, i8),
    bottom: (i8, i8),
    left: (i8, i8),
    internal: i8,
    base_id: usize,
) -> MegaTile {
    MegaTile {
        tile1: mk(top.0, internal, internal, left.0, base_id),
        tile2: mk(top.1, right.0, internal, internal, base_id + 1),
        tile3: mk(internal, internal, bottom.0, left.1, base_id + 2),
        tile4: mk(internal, right.1, bottom.1, internal, base_id + 3),
    }
}

fn has_pair(v: &Vec<(i8, i8)>, p: (i8, i8)) -> bool {
    v.iter().any(|e| *e == p)
}

#[test]
fn first_commit_leaves_all_four_borders_unpaired() {
    let a = 5;
    let b = 6;
    let c = 7;
    let d = 8;
    let m = mega_with_borders((a, b), (b, c), (c, d), (d, a), 9, 60);
    let mut st = Trackers::new(false);
    st.add_mega_tile_to_trackers(&m);
    st.recalculate_paired_and_unpaired_counts();
    assert_eq!(st.unpaired_edges.len(), 4);
    assert!(has_pair(&st.unpaired_edges, (a, b)));
    assert!(has_pair(&st.unpaired_edges, (b, c)));
    assert!(has_pair(&st.unpaired_edges, (c, d)));
    assert!(has_pair(&st.unpaired_edges, (d, a)));
    assert_eq!(st.paired_edges.len(), 0);
}

#[test]
fn committing_the_mirror_pairs_all_eight_borders() {
    let a = 5;
    let b = 6;
    let c = 7;
    let d = 8;
    let m = mega_with_borders((a, b), (b, c), (c, d), (d, a), 9, 60);
    let mirror = mega_with_borders((b, a), (c, b), (d, c), (a, d), 9, 64);
    let mut st = Trackers::new(false);
    st.add_mega_tile_to_trackers(&m);
    st.recalculate_paired_and_unpaired_counts();
    st.add_mega_tile_to_trackers(&mirror);
    st.recalculate_paired_and_unpaired_counts();
    assert_eq!(st.unpaired_edges.len(), 0);
    assert!(has_pair(&st.paired_edges, (a, b)));
    assert!(has_pair(&st.paired_edges, (b, a)));
    assert!(has_pair(&st.paired_edges, (b, c)));
    assert!(has_pair(&st.paired_edges, (c, b)));
    assert!(has_pair(&st.paired_edges, (c, d)));
    assert!(has_pair(&st.paired_edges, (d, c)));
    assert!(has_pair(&st.paired_edges, (d, a)));
    assert!(has_pair(&st.paired_edges, (a, d)));
}

#[test]
fn palindromic_border_pairs_with_itself_on_even_counts() {
    let m = mega_with_borders((5, 5), (6, 7), (7, 6), (8, 9), 10, 60);
    let mut st = Trackers::new(false);
    st.add_mega_tile_to_trackers(&m);
    st.recalculate_paired_and_unpaired_counts();
    // One (5, 5) border: odd count, unpaired; (6, 7) and (7, 6) pair up.
    assert!(has_pair(&st.unpaired_edges, (5, 5)));
    assert!(has_pair(&st.paired_edges, (6, 7)));
    assert!(has_pair(&st.paired_edges, (7, 6)));
    let m2 = mega_with_borders((5, 5), (11, 12), (12, 11), (9, 8), 10, 64);
    st.add_mega_tile_to_trackers(&m2);
    st.recalculate_paired_and_unpaired_counts();
    // Two (5, 5) borders now: even count, paired.
    assert!(has_pair(&st.paired_edges, (5, 5)));
    assert!(!has_pair(&st.unpaired_edges, (5, 5)));
}

#[test]
fn commit_then_rollback_restores_every_tracker() {
    let m = mega_with_borders((5, 6), (6, 7), (7, 8), (8, 5), 9, 60);
    let mut st = Trackers::new(false);
    // Shape a non-trivial starting state first.
    let m0 = mega_with_borders((10, 11), (11, 12), (12, 13), (13, 10), 14, 70);
    st.add_mega_tile_to_trackers(&m0);
    st.recalculate_paired_and_unpaired_counts();
    let mask_before = st.available_mask.clone();
    let usage_before = st.edge_usage_count.clone();
    let items_before = st.mega_tile_edge_count.items.clone();
    st.add_mega_tile_to_trackers(&m);
    st.recalculate_paired_and_unpaired_counts();
    st.remove_mega_tiles_from_trackers(&m, false);
    st.recalculate_paired_and_unpaired_counts();
    assert_eq!(st.available_mask, mask_before);
    assert_eq!(st.edge_usage_count, usage_before);
    assert_eq!(st.mega_tile_edge_count.items, items_before);
}

#[test]
fn rollback_keeps_pinned_identities_out_of_the_pool() {
    // A mega tile whose top-left member is the pinned starter tile 138.
    let m = MegaTile {
        tile1: mk(5, 9, 9, 8, 138),
        tile2: mk(6, 6, 9, 9, 61),
        tile3: mk(9, 9, 7, 5, 62),
        tile4: mk(9, 7, 8, 9, 63),
    };
    let mut st = Trackers::new(false);
    assert!(!st.available_mask[138]);
    st.add_mega_tile_to_trackers(&m);
    st.remove_mega_tiles_from_trackers(&m, false);
    assert!(!st.available_mask[138]);
    assert!(st.available_mask[61]);
    assert!(st.available_mask[62]);
    assert!(st.available_mask[63]);
}

#[test]
fn hinted_mode_pins_the_four_hint_tiles() {
    let st = Trackers::new(true);
    assert!(!st.available_mask[138]);
    assert!(!st.available_mask[207]);
    assert!(!st.available_mask[254]);
    assert!(!st.available_mask[180]);
    assert!(!st.available_mask[248]);
    assert!(st.available_mask[60]);
    let st2 = Trackers::new(false);
    assert!(!st2.available_mask[138]);
    assert!(st2.available_mask[207]);
}

#[test]
fn commit_counts_each_consumed_side_label() {
    let m = mega_with_borders((5, 6), (6, 7), (7, 8), (8, 5), 9, 60);
    let mut st = Trackers::new(false);
    st.add_mega_tile_to_trackers(&m);
    // Eight internal sides carry the label 9.
    assert_eq!(st.edge_usage_count[9], 8);
    // Each of the labels 5 to 8 shows up twice on the aggregate borders.
    assert_eq!(st.edge_usage_count[5], 2);
    assert_eq!(st.edge_usage_count[6], 2);
    assert_eq!(st.edge_usage_count[7], 2);
    assert_eq!(st.edge_usage_count[8], 2);
    assert_eq!(st.edge_usage_count[0], 0);
}

#[test]
fn mask_helper_marks_all_four_identities() {
    let m = mega_with_borders((5, 6), (6, 7), (7, 8), (8, 5), 9, 100);
    let mut mask = vec![true; 256];
    add_mega_tile_to_available_mask(&m, &mut mask);
    assert!(!mask[100]);
    assert!(!mask[101]);
    assert!(!mask[102]);
    assert!(!mask[103]);
    assert!(mask[99]);
    assert!(mask[104]);
}
