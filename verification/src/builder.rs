//! The mega-tile cluster builder: a depth-first backtracking search that
//! commits disjoint 2x2 clusters of interior tiles, pruned by depth-keyed
//! feasibility bounds on the unpaired-pair count, on border-type diversity
//! and on per-label supply, and ordered by a scored candidate ranking.

use vstd::prelude::*;

use crate::index::{key_matches, TileIndex};
use crate::tile::{
    catalog_wf, ot_bottom, ot_left, ot_right, ot_top, ot_sides_in_range, MegaTile, OrientedTile,
    Tile,
};
use crate::trackers::{
    b2i, commit_effect, conj, mt_has_id, pair_uses, rollback_effect, side_uses, spec_paired,
    spec_pinned, spec_unpaired, BorderPair, Trackers,
};

verus! {

/// Relies on `rand::thread_rng` and `rand::Rng::gen_range` over a half-open
/// range of `i32`: the sample always lies inside the range, which must not
/// be empty.
#[verifier::external_body]
fn random_in_range(lo: i32, hi: i32) -> (r: i32)
    requires
        lo < hi,
    ensures
        lo <= r < hi,
{
    rand::Rng::gen_range(&mut rand::thread_rng(), lo..hi)
}

/// The depth-keyed ceiling on how many distinct unpaired border-pair types
/// the committed set may show: looser early, tighter through the middle of
/// the search, relaxed again close to the end.
pub open spec fn unpaired_ceiling(c: int) -> int {
    if c <= 3 {
        6
    } else if c <= 7 {
        7
    } else if c <= 15 {
        8
    } else if c <= 23 {
        9
    } else if c <= 31 {
        10
    } else if c <= 39 {
        14
    } else if c <= 44 {
        15
    } else if c == 45 {
        16
    } else if c == 46 {
        17
    } else if c == 47 {
        19
    } else if c == 48 {
        20
    } else if c == 49 {
        22
    } else {
        30
    }
}

/// The depth-keyed ceiling on how many distinct border-pair types may exist
/// at all: it steers the search towards reusing a small palette of border
/// types.
pub open spec fn diversity_ceiling(c: int) -> int {
    if c <= 3 {
        9
    } else if c <= 6 {
        12 + ((c - 3) / 2) * 2
    } else if c <= 40 {
        13 + ((c - 3) / 2) * 2
    } else if c <= 42 {
        16 + ((c - 3) / 2) * 2
    } else if c <= 44 {
        22 + ((c - 3) / 2) * 2
    } else if c == 45 {
        24 + ((c - 3) / 2) * 2
    } else if c == 46 {
        25 + ((c - 3) / 2) * 2
    } else if c == 47 {
        27 + ((c - 3) / 2) * 2
    } else if c == 48 {
        29 + ((c - 3) / 2) * 2
    } else if c == 49 {
        31 + ((c - 3) / 2) * 2
    } else {
        30
    }
}

/// For every non-rim label, the sides already consumed plus the sides the
/// rim stage still needs fit inside the label's total supply.
pub open spec fn supply_ok(usage: Seq<i32>, needed: Seq<i32>, total: Seq<i32>) -> bool {
    forall|i: int| 5 <= i < 22 ==> usage[i] + needed[i] <= total[i]
}

/// The committed set is still within all three feasibility bounds.
pub open spec fn spec_healthy(
    st: Trackers,
    c: int,
    needed: Seq<i32>,
    total: Seq<i32>,
) -> bool {
    &&& st.unpaired_edges@.len() <= unpaired_ceiling(c)
    &&& st.mega_tile_edge_count.items@.len() <= diversity_ceiling(c)
    &&& supply_ok(st.edge_usage_count@, needed, total)
}

/// The feasibility pruning: decides whether the committed set, at the given
/// depth, is still within the unpaired-pair ceiling, the border-diversity
/// ceiling, and the per-label supply bound.
#[verifier::loop_isolation(false)]
pub fn check_healthy_tileset(
    st: &Trackers,
    mega_tile_count: usize,
    needed_sides_for_edges: &Vec<i32>,
    total_edge_count: &Vec<i32>,
) -> (r: bool)
    requires
        st.wf(),
        needed_sides_for_edges@.len() == 22,
        total_edge_count@.len() == 22,
    ensures
        r == spec_healthy(
            *st,
            mega_tile_count as int,
            needed_sides_for_edges@,
            total_edge_count@,
        ),
{
    let c = mega_tile_count;
    let unpaired_limit: usize = if c <= 3 {
        6
    } else if c <= 7 {
        7
    } else if c <= 15 {
        8
    } else if c <= 23 {
        9
    } else if c <= 31 {
        10
    } else if c <= 39 {
        14
    } else if c <= 44 {
        15
    } else if c == 45 {
        16
    } else if c == 46 {
        17
    } else if c == 47 {
        19
    } else if c == 48 {
        20
    } else if c == 49 {
        22
    } else {
        30
    };
    if st.unpaired_edges.len() > unpaired_limit {
        return false;
    }
    let diversity_limit: usize = if c <= 3 {
        9
    } else if c <= 6 {
        12 + ((c - 3) / 2) * 2
    } else if c <= 40 {
        13 + ((c - 3) / 2) * 2
    } else if c <= 42 {
        16 + ((c - 3) / 2) * 2
    } else if c <= 44 {
        22 + ((c - 3) / 2) * 2
    } else if c == 45 {
        24 + ((c - 3) / 2) * 2
    } else if c == 46 {
        25 + ((c - 3) / 2) * 2
    } else if c == 47 {
        27 + ((c - 3) / 2) * 2
    } else if c == 48 {
        29 + ((c - 3) / 2) * 2
    } else if c == 49 {
        31 + ((c - 3) / 2) * 2
    } else {
        30
    };
    if st.mega_tile_edge_count.distinct_len() > diversity_limit {
        return false;
    }
    let mut i: usize = 5;
    while i < 22
        invariant
            5 <= i <= 22,
            forall|i2: int|
                5 <= i2 < i ==> st.edge_usage_count@[i2] + needed_sides_for_edges@[i2]
                    <= total_edge_count@[i2],
        decreases 22 - i,
    {
        if (st.edge_usage_count[i] as i64) + (needed_sides_for_edges[i] as i64)
            > (total_edge_count[i] as i64) {
            return false;
        }
        i += 1;
    }
    true
}

/// The per-label budget that the scoring may still spend: total supply minus
/// what is already used, what the forced hints will need, and what the rim
/// stage will need.
pub fn get_edge_type_usage_score(
    wanted_sides_for_hints: &Vec<i32>,
    needed_sides_for_edges: &Vec<i32>,
    used_edge_count: &Vec<i32>,
    total_edge_count: &Vec<i32>,
) -> (r: Vec<i32>)
    requires
        wanted_sides_for_hints@.len() == 22,
        needed_sides_for_edges@.len() == 22,
        used_edge_count@.len() == 22,
        total_edge_count@.len() == 22,
        forall|i: int|
            0 <= i < 22 ==> -100000 <= #[trigger] wanted_sides_for_hints@[i] <= 100000,
        forall|i: int|
            0 <= i < 22 ==> -100000 <= #[trigger] needed_sides_for_edges@[i] <= 100000,
        forall|i: int| 0 <= i < 22 ==> -100000 <= #[trigger] used_edge_count@[i] <= 100000,
        forall|i: int| 0 <= i < 22 ==> -100000 <= #[trigger] total_edge_count@[i] <= 100000,
    ensures
        r@.len() == 22,
        forall|i: int|
            0 <= i < 22 ==> #[trigger] r@[i] == total_edge_count@[i] - used_edge_count@[i]
                - wanted_sides_for_hints@[i] - needed_sides_for_edges@[i],
{
    let mut r: Vec<i32> = Vec::new();
    let mut i: usize = 0;
    while i < 22
        invariant
            i <= 22,
            r@.len() == i,
            wanted_sides_for_hints@.len() == 22,
            needed_sides_for_edges@.len() == 22,
            used_edge_count@.len() == 22,
            total_edge_count@.len() == 22,
            forall|i2: int|
                0 <= i2 < 22 ==> -100000 <= #[trigger] wanted_sides_for_hints@[i2] <= 100000,
            forall|i2: int|
                0 <= i2 < 22 ==> -100000 <= #[trigger] needed_sides_for_edges@[i2] <= 100000,
            forall|i2: int| 0 <= i2 < 22 ==> -100000 <= #[trigger] used_edge_count@[i2] <= 100000,
            forall|i2: int| 0 <= i2 < 22 ==> -100000 <= #[trigger] total_edge_count@[i2] <= 100000,
            forall|i2: int|
                0 <= i2 < i ==> #[trigger] r@[i2] == total_edge_count@[i2] - used_edge_count@[i2]
                    - wanted_sides_for_hints@[i2] - needed_sides_for_edges@[i2],
        decreases 22 - i,
    {
        r.push(
            total_edge_count[i] - used_edge_count[i] - wanted_sides_for_hints[i]
                - needed_sides_for_edges[i],
        );
        i += 1;
    }
    r
}

/// An oriented tile can seed a new mega tile against the current unpaired
/// pairs: some unpaired pair opens with a label other than its left side,
/// and some unpaired pair opening with its left side closes with a label
/// other than its top side.
pub open spec fn spec_fits_as_seed(ot: OrientedTile, u: Seq<BorderPair>) -> bool {
    &&& exists|i: int| 0 <= i < u.len() && u[i].0 != ot_left(ot)
    &&& exists|i: int| 0 <= i < u.len() && u[i].0 == ot_left(ot) && u[i].1 != ot_top(ot)
}

/// The admission test for a forced hint seed: whether the oriented tile fits
/// in against the current unpaired pairs when placed top-left.
#[verifier::loop_isolation(false)]
pub fn check_oriented_tile_fits_in_with_unpaired_edges_as_seed(
    oriented_tile: &OrientedTile,
    unpaired_edges: &Vec<BorderPair>,
) -> (r: bool)
    requires
        oriented_tile.rotatable(),
    ensures
        r == spec_fits_as_seed(*oriented_tile, unpaired_edges@),
{
    let mut fits_left = false;
    let mut fits_top = false;
    let left = oriented_tile.left();
    let top = oriented_tile.top();
    let n = unpaired_edges.len();
    let mut i: usize = 0;
    while i < n
        invariant
            i <= n,
            fits_left == exists|i2: int| 0 <= i2 < i && unpaired_edges@[i2].0 != ot_left(
                *oriented_tile,
            ),
            fits_top == exists|i2: int|
                0 <= i2 < i && unpaired_edges@[i2].0 == ot_left(*oriented_tile)
                    && unpaired_edges@[i2].1 != ot_top(*oriented_tile),
        decreases n - i,
    {
        let e = unpaired_edges[i];
        if e.0 != left {
            fits_left = true;
            proof {
                assert(unpaired_edges@[i as int].0 != ot_left(*oriented_tile));
            }
        } else if e.1 != top {
            fits_top = true;
            proof {
                assert(unpaired_edges@[i as int].0 == ot_left(*oriented_tile)
                    && unpaired_edges@[i as int].1 != ot_top(*oriented_tile));
            }
        }
        i += 1;
    }
    fits_top && fits_left
}

/// The view of a vector of machine integers as unbounded integers.
pub open spec fn to_ints(s: Seq<i32>) -> Seq<int> {
    Seq::new(s.len(), |i: int| s[i] as int)
}

/// The sixteen rotated sides of a mega tile, member by member, each in the
/// order top, right, bottom, left.
pub open spec fn mt_sides_seq(m: MegaTile) -> Seq<i8> {
    seq![
        ot_top(m.tile1),
        ot_right(m.tile1),
        ot_bottom(m.tile1),
        ot_left(m.tile1),
        ot_top(m.tile2),
        ot_right(m.tile2),
        ot_bottom(m.tile2),
        ot_left(m.tile2),
        ot_top(m.tile3),
        ot_right(m.tile3),
        ot_bottom(m.tile3),
        ot_left(m.tile3),
        ot_top(m.tile4),
        ot_right(m.tile4),
        ot_bottom(m.tile4),
        ot_left(m.tile4),
    ]
}

/// The bonus for palindromic aggregate borders: one hundred for each border
/// whose two labels agree.
pub open spec fn sym_bonus(m: MegaTile) -> int {
    100 * b2i(m.spec_top().0 == m.spec_top().1) + 100 * b2i(m.spec_right().0 == m.spec_right().1)
        + 100 * b2i(m.spec_bottom().0 == m.spec_bottom().1) + 100 * b2i(
        m.spec_left().0 == m.spec_left().1,
    )
}

/// What one unpaired pair contributes to a candidate's score: one thousand
/// for the first border that matches it in the reversed-pair sense, and a
/// heavy penalty for each further border that matches the same pair (the
/// borders are tried in the order top, left, right, bottom).
pub open spec fn unpaired_edge_delta(
    e: BorderPair,
    t: BorderPair,
    r: BorderPair,
    b: BorderPair,
    l: BorderPair,
) -> int {
    let m_top = e.0 == t.1 && e.1 == t.0;
    let m_left = e.0 == l.1 && e.1 == l.0;
    let m_right = e.0 == r.1 && e.1 == r.0;
    let m_bottom = e.0 == b.1 && e.1 == b.0;
    let d1 = if m_top {
        1000int
    } else {
        0int
    };
    let d2 = if m_left {
        if !m_top {
            d1 + 1000
        } else {
            d1 - 10000
        }
    } else {
        d1
    };
    let d3 = if m_right {
        if !(m_top || m_left) {
            d2 + 1000
        } else {
            d2 - 10000
        }
    } else {
        d2
    };
    if m_bottom {
        if !(m_top || m_left || m_right) {
            d3 + 1000
        } else {
            d3 - 10000
        }
    } else {
        d3
    }
}

/// What one already-paired pair contributes to a candidate's score: three
/// hundred for the first border that matches it in the reversed-pair sense,
/// and the same heavy penalty for a second match (the borders are tried in
/// the order top, left, bottom, right).
pub open spec fn paired_edge_delta(
    e: BorderPair,
    t: BorderPair,
    r: BorderPair,
    b: BorderPair,
    l: BorderPair,
) -> int {
    let m_top = e.0 == t.1 && e.1 == t.0;
    let m_left = e.0 == l.1 && e.1 == l.0;
    let m_bottom = e.0 == b.1 && e.1 == b.0;
    let m_right = e.0 == r.1 && e.1 == r.0;
    let d1 = if m_top {
        300int
    } else {
        0int
    };
    let d2 = if m_left {
        if !m_top {
            d1 + 300
        } else {
            d1 - 10000
        }
    } else {
        d1
    };
    let d3 = if m_bottom {
        if !(m_top || m_left) {
            d2 + 300
        } else {
            d2 - 10000
        }
    } else {
        d2
    };
    if m_right {
        if !(m_top || m_left || m_bottom) {
            d3 + 300
        } else {
            d3 - 10000
        }
    } else {
        d3
    }
}

/// The total unpaired-pair contribution over a list of unpaired pairs.
pub open spec fn unpaired_total(
    u: Seq<BorderPair>,
    t: BorderPair,
    r: BorderPair,
    b: BorderPair,
    l: BorderPair,
) -> int
    decreases u.len(),
{
    if u.len() == 0 {
        0
    } else {
        unpaired_edge_delta(u[0], t, r, b, l) + unpaired_total(u.drop_first(), t, r, b, l)
    }
}

/// The total paired-pair contribution over a list of paired pairs.
pub open spec fn paired_total(
    p: Seq<BorderPair>,
    t: BorderPair,
    r: BorderPair,
    b: BorderPair,
    l: BorderPair,
) -> int
    decreases p.len(),
{
    if p.len() == 0 {
        0
    } else {
        paired_edge_delta(p[0], t, r, b, l) + paired_total(p.drop_first(), t, r, b, l)
    }
}

/// Each unpaired pair contributes between minus thirty thousand and one
/// thousand, so the total is bounded by the list's length.
proof fn lemma_unpaired_total_bounds(
    u: Seq<BorderPair>,
    t: BorderPair,
    r: BorderPair,
    b: BorderPair,
    l: BorderPair,
)
    ensures
        -30000 * u.len() <= unpaired_total(u, t, r, b, l) <= 1000 * u.len(),
    decreases u.len(),
{
    if u.len() > 0 {
        lemma_unpaired_total_bounds(u.drop_first(), t, r, b, l);
        assert(-30000 <= unpaired_edge_delta(u[0], t, r, b, l) <= 1000);
    }
}

/// Each paired pair contributes between minus thirty thousand and one
/// thousand, so the total is bounded by the list's length.
proof fn lemma_paired_total_bounds(
    p: Seq<BorderPair>,
    t: BorderPair,
    r: BorderPair,
    b: BorderPair,
    l: BorderPair,
)
    ensures
        -30000 * p.len() <= paired_total(p, t, r, b, l) <= 1000 * p.len(),
    decreases p.len(),
{
    if p.len() > 0 {
        lemma_paired_total_bounds(p.drop_first(), t, r, b, l);
        assert(-30000 <= paired_edge_delta(p[0], t, r, b, l) <= 1000);
    }
}

/// The per-label budget adjustment, folded left to right over a list of
/// consumed side labels: each label adds its remaining budget to the score
/// and spends one unit of it; a label whose budget has run out draws a heavy
/// penalty.
pub open spec fn usage_adjust(sides: Seq<i8>, rem: Seq<int>, acc: int) -> int
    decreases sides.len(),
{
    if sides.len() == 0 {
        acc
    } else {
        let s = sides[0] as int;
        let acc2 = acc + rem[s];
        let rem2 = rem.update(s, rem[s] - 1);
        let acc3 = if rem2[s] < 0 {
            acc2 - 12000
        } else {
            acc2
        };
        usage_adjust(sides.drop_first(), rem2, acc3)
    }
}

/// The score of a candidate mega tile against the current search state. For
/// the first three commits the score is just the random tie-break handed in;
/// afterwards it is the palindromic-border bonus, plus the unpaired- and
/// paired-pair match contributions, adjusted by the per-label budgets.
pub open spec fn spec_score(
    m: MegaTile,
    u: Seq<BorderPair>,
    p: Seq<BorderPair>,
    usage_score: Seq<int>,
    tie: int,
    count: int,
) -> int {
    if count < 3 {
        tie
    } else {
        let t = m.spec_top();
        let r = m.spec_right();
        let b = m.spec_bottom();
        let l = m.spec_left();
        usage_adjust(
            mt_sides_seq(m),
            usage_score,
            sym_bonus(m) + unpaired_total(u, t, r, b, l) + paired_total(p, t, r, b, l),
        )
    }
}

/// Scores one candidate mega tile. The tie-break argument only decides the
/// result while fewer than three mega tiles are committed; the caller draws
/// it from its source of randomness, which keeps this function deterministic
/// and searches reproducible.
#[verifier::loop_isolation(false)]
#[verifier::rlimit(60)]
pub fn score_mega_tile(
    mega_tile: &MegaTile,
    unpaired_edges: &Vec<BorderPair>,
    paired_edges: &Vec<BorderPair>,
    mega_tile_count: usize,
    edge_type_usage_score: &Vec<i32>,
    tie_break: i32,
) -> (r: i32)
    requires
        mega_tile.rotatable(),
        mega_tile.sides_in_range(),
        edge_type_usage_score@.len() == 22,
        forall|i: int|
            0 <= i < 22 ==> -500000 <= #[trigger] edge_type_usage_score@[i] <= 500000,
        unpaired_edges@.len() <= 1000,
        paired_edges@.len() <= 1000,
    ensures
        r as int == spec_score(
            *mega_tile,
            unpaired_edges@,
            paired_edges@,
            to_ints(edge_type_usage_score@),
            tie_break as int,
            mega_tile_count as int,
        ),
{
    let mut score: i32 = 0;
    let t = mega_tile.top();
    let r = mega_tile.right();
    let b = mega_tile.bottom();
    let l = mega_tile.left();
    if t.0 == t.1 {
        score += 100;
    }
    if r.0 == r.1 {
        score += 100;
    }
    if b.0 == b.1 {
        score += 100;
    }
    if l.0 == l.1 {
        score += 100;
    }
    if mega_tile_count < 3 {
        return tie_break;
    }
    assert(score as int == sym_bonus(*mega_tile));
    proof {
        assert(unpaired_edges@.skip(0) =~= unpaired_edges@);
    }
    let nu = unpaired_edges.len();
    let mut i: usize = 0;
    while i < nu
        invariant
            i <= nu,
            score as int == sym_bonus(*mega_tile) + unpaired_total(
                unpaired_edges@,
                t,
                r,
                b,
                l,
            ) - unpaired_total(unpaired_edges@.skip(i as int), t, r, b, l),
        decreases nu - i,
    {
        proof {
            lemma_unpaired_total_bounds(unpaired_edges@, t, r, b, l);
            lemma_unpaired_total_bounds(unpaired_edges@.skip(i as int), t, r, b, l);
            let tail = unpaired_edges@.skip(i as int);
            assert(tail[0] == unpaired_edges@[i as int]);
            assert(tail.drop_first() =~= unpaired_edges@.skip(i as int + 1));
        }
        let e = unpaired_edges[i];
        let mut has_matched_this_edge = false;
        if e.0 == t.1 && e.1 == t.0 {
            score += 1000;
            has_matched_this_edge = true;
        }
        if e.0 == l.1 && e.1 == l.0 {
            if !has_matched_this_edge {
                score += 1000;
            } else {
                score -= 10000;
            }
            has_matched_this_edge = true;
        }
        if e.0 == r.1 && e.1 == r.0 {
            if !has_matched_this_edge {
                score += 1000;
            } else {
                score -= 10000;
            }
            has_matched_this_edge = true;
        }
        if e.0 == b.1 && e.1 == b.0 {
            if !has_matched_this_edge {
                score += 1000;
            } else {
                score -= 10000;
            }
            has_matched_this_edge = true;
        }
        i += 1;
    }
    proof {
        assert(unpaired_edges@.skip(nu as int) =~= Seq::<BorderPair>::empty());
        lemma_unpaired_total_bounds(unpaired_edges@, t, r, b, l);
    }
    proof {
        assert(paired_edges@.skip(0) =~= paired_edges@);
    }
    let np = paired_edges.len();
    let mut i2: usize = 0;
    while i2 < np
        invariant
            i2 <= np,
            score as int == sym_bonus(*mega_tile) + unpaired_total(
                unpaired_edges@,
                t,
                r,
                b,
                l,
            ) + paired_total(paired_edges@, t, r, b, l) - paired_total(
                paired_edges@.skip(i2 as int),
                t,
                r,
                b,
                l,
            ),
        decreases np - i2,
    {
        proof {
            lemma_unpaired_total_bounds(unpaired_edges@, t, r, b, l);
            lemma_paired_total_bounds(paired_edges@, t, r, b, l);
            lemma_paired_total_bounds(paired_edges@.skip(i2 as int), t, r, b, l);
            let tail = paired_edges@.skip(i2 as int);
            assert(tail[0] == paired_edges@[i2 as int]);
            assert(tail.drop_first() =~= paired_edges@.skip(i2 as int + 1));
        }
        let e = paired_edges[i2];
        let mut has_matched_this_edge = false;
        if e.0 == t.1 && e.1 == t.0 {
            score += 300;
            has_matched_this_edge = true;
        }
        if e.0 == l.1 && e.1 == l.0 {
            if !has_matched_this_edge {
                score += 300;
            } else {
                score -= 10000;
            }
            has_matched_this_edge = true;
        }
        if e.0 == b.1 && e.1 == b.0 {
            if !has_matched_this_edge {
                score += 300;
            } else {
                score -= 10000;
            }
            has_matched_this_edge = true;
        }
        if e.0 == r.1 && e.1 == r.0 {
            if !has_matched_this_edge {
                score += 300;
            } else {
                score -= 10000;
            }
            has_matched_this_edge = true;
        }
        i2 += 1;
    }
    proof {
        assert(paired_edges@.skip(np as int) =~= Seq::<BorderPair>::empty());
        lemma_unpaired_total_bounds(unpaired_edges@, t, r, b, l);
        lemma_paired_total_bounds(paired_edges@, t, r, b, l);
    }
    let mut sides: Vec<i8> = Vec::new();
    sides.push(mega_tile.tile1.top());
    sides.push(mega_tile.tile1.right());
    sides.push(mega_tile.tile1.bottom());
    sides.push(mega_tile.tile1.left());
    sides.push(mega_tile.tile2.top());
    sides.push(mega_tile.tile2.right());
    sides.push(mega_tile.tile2.bottom());
    sides.push(mega_tile.tile2.left());
    sides.push(mega_tile.tile3.top());
    sides.push(mega_tile.tile3.right());
    sides.push(mega_tile.tile3.bottom());
    sides.push(mega_tile.tile3.left());
    sides.push(mega_tile.tile4.top());
    sides.push(mega_tile.tile4.right());
    sides.push(mega_tile.tile4.bottom());
    sides.push(mega_tile.tile4.left());
    proof {
        assert(sides@ =~= mt_sides_seq(*mega_tile));
    }
    let mut remaining: Vec<i32> = Vec::new();
    let mut j: usize = 0;
    while j < 22
        invariant
            j <= 22,
            remaining@.len() == j,
            forall|j2: int| 0 <= j2 < j ==> remaining@[j2] == edge_type_usage_score@[j2],
        decreases 22 - j,
    {
        remaining.push(edge_type_usage_score[j]);
        j += 1;
    }
    proof {
        assert(to_ints(remaining@) =~= to_ints(edge_type_usage_score@));
    }
    let ghost base = score as int;
    let ghost target = usage_adjust(sides@, to_ints(edge_type_usage_score@), base);
    proof {
        assert(sides@.skip(0) =~= sides@);
    }
    let mut k: usize = 0;
    while k < 16
        invariant
            k <= 16,
            sides@ == mt_sides_seq(*mega_tile),
            remaining@.len() == 22,
            forall|j2: int|
                0 <= j2 < 22 ==> edge_type_usage_score@[j2] - (k as int) <= #[trigger] remaining@[j2]
                    <= edge_type_usage_score@[j2],
            -62000000 - 520000 * (k as int) <= score as int <= 62000000 + 520000 * (k as int),
            usage_adjust(sides@.skip(k as int), to_ints(remaining@), score as int) == target,
        decreases 16 - k,
    {
        proof {
            let tail = sides@.skip(k as int);
            assert(tail[0] == sides@[k as int]);
            assert(tail.drop_first() =~= sides@.skip(k as int + 1));
        }
        let s = sides[k];
        assert(0 <= s < 22);
        let ghost pre_rem = remaining@;
        let cur = remaining[s as usize];
        score += cur;
        remaining.set(s as usize, cur - 1);
        if remaining[s as usize] < 0 {
            score -= 12000;
        }
        proof {
            assert(to_ints(remaining@) =~= to_ints(pre_rem).update(s as int, cur as int - 1));
        }
        k += 1;
    }
    proof {
        assert(sides@.skip(16) =~= Seq::<i8>::empty());
    }
    score
}

/// An oriented tile built by looking a catalog position up.
pub open spec fn spec_new_ot(ts: Seq<Tile>, id: int, o: u8) -> OrientedTile {
    OrientedTile { tile: ts[id], orientation: o }
}

/// An interior catalog tile keeps concrete labels on all rotated sides.
proof fn lemma_interior_ot_in_range(ts: Seq<Tile>, ot: OrientedTile)
    requires
        catalog_wf(ts),
        60 <= ot.tile.id < 256,
        ot.tile == ts[ot.tile.id as int],
        ot.rotatable(),
    ensures
        ot_sides_in_range(ot),
{
    assert(crate::tile::tile_sides_in_range(ts[ot.tile.id as int]));
}

/// Appends to `r` every oriented tile the index holds under `key` whose
/// identity is still available.
fn append_from_key(
    r: &mut Vec<OrientedTile>,
    tile_lookup: &TileIndex,
    key: crate::index::SideKey,
    mask: &Vec<bool>,
    Ghost(ts): Ghost<Seq<Tile>>,
)
    requires
        tile_lookup.indexes(ts, 60),
        catalog_wf(ts),
        mask@.len() == 256,
    ensures
        forall|ot: OrientedTile| #[trigger]
            final(r)@.contains(ot) <==> old(r)@.contains(ot) || (tile_lookup.has(key, ot)
                && mask@[ot.tile.id as int] == true),
{
    let cands = tile_lookup.get(key);
    let n = cands.len();
    let mut k: usize = 0;
    while k < n
        invariant
            k <= n,
            n == cands@.len(),
            mask@.len() == 256,
            catalog_wf(ts),
            tile_lookup.indexes(ts, 60),
            forall|ot: OrientedTile| #[trigger] cands@.contains(ot) <==> tile_lookup.has(key, ot),
            forall|ot: OrientedTile| #[trigger]
                r@.contains(ot) <==> old(r)@.contains(ot) || (exists|k2: int|
                    0 <= k2 < k && cands@[k2] == ot && mask@[ot.tile.id as int] == true),
        decreases n - k,
    {
        let c = cands[k];
        proof {
            assert(cands@.contains(c)) by {
                assert(cands@[k as int] == c);
            }
            assert(tile_lookup.has(key, c));
            assert(crate::index::entry_valid((key, c), ts, 60));
            let i2 = choose|i2: int|
                60 <= i2 < ts.len() && c.tile == ts[i2] && c.orientation < 4 && key_matches(key, c);
            assert(c.tile.id == i2);
        }
        let ghost pre = r@;
        if mask[c.id()] {
            r.push(c);
        }
        proof {
            assert forall|ot: OrientedTile| #[trigger]
                r@.contains(ot) implies pre.contains(ot) || (exists|k2: int|
                0 <= k2 < k + 1 && cands@[k2] == ot && mask@[ot.tile.id as int] == true) by {
                if r@ != pre {
                    let idx = choose|idx: int| 0 <= idx < r@.len() && r@[idx] == ot;
                    if idx < pre.len() {
                        assert(pre[idx] == ot);
                        assert(pre.contains(ot));
                    } else {
                        assert(ot == c);
                        assert(cands@[k as int] == ot);
                    }
                }
            }
            assert forall|ot: OrientedTile|
                pre.contains(ot) || (exists|k2: int|
                    0 <= k2 < k + 1 && cands@[k2] == ot && mask@[ot.tile.id as int]
                        == true) implies #[trigger] r@.contains(ot) by {
                if pre.contains(ot) {
                    let idx = choose|idx: int| 0 <= idx < pre.len() && pre[idx] == ot;
                    assert(r@[idx] == ot);
                } else {
                    let k2 = choose|k2: int|
                        0 <= k2 < k + 1 && cands@[k2] == ot && mask@[ot.tile.id as int] == true;
                    if k2 < k {
                        assert(exists|k3: int|
                            0 <= k3 < k && cands@[k3] == ot && mask@[ot.tile.id as int] == true);
                        assert(pre.contains(ot));
                        let idx = choose|idx: int| 0 <= idx < pre.len() && pre[idx] == ot;
                        assert(r@[idx] == ot);
                    } else {
                        assert(ot == c);
                        assert(r@[r@.len() - 1] == ot);
                    }
                }
            }
        }
        k += 1;
    }
    proof {
        assert forall|ot: OrientedTile| #[trigger]
            r@.contains(ot) <==> old(r)@.contains(ot) || (tile_lookup.has(key, ot)
                && mask@[ot.tile.id as int] == true) by {
            if tile_lookup.has(key, ot) && mask@[ot.tile.id as int] {
                assert(cands@.contains(ot));
                let k2 = choose|k2: int| 0 <= k2 < cands@.len() && cands@[k2] == ot;
            }
            if r@.contains(ot) && !old(r)@.contains(ot) {
                let k2 = choose|k2: int|
                    0 <= k2 < n && cands@[k2] == ot && mask@[ot.tile.id as int] == true;
                assert(cands@.contains(ot));
            }
        }
    }
}

/// A seed offered for the next mega tile is legitimate: an interior catalog
/// tile in a valid rotation whose identity is either still available or the
/// pinned starter or hint tile forced at exactly this depth.
pub open spec fn seed_ok(
    s: OrientedTile,
    st: Trackers,
    ts: Seq<Tile>,
    count: int,
    hinted: bool,
) -> bool {
    &&& s.rotatable()
    &&& 60 <= s.tile.id < 256
    &&& s.tile == ts[s.tile.id as int]
    &&& (st.available_mask@[s.tile.id as int] == true || (count == 0 && s.tile.id == 138) || (
    hinted && count == 45 && s.tile.id == 207) || (hinted && count == 46 && s.tile.id == 254) || (
    hinted && count == 47 && s.tile.id == 180) || (hinted && count == 48 && s.tile.id == 248))
}

/// An oriented tile is discovered as a seed by crossing two distinct
/// unpaired pairs: the index finds it under the constraint "top equals the
/// closing label of one, left equals the opening label of the other", and
/// its identity is still available.
pub open spec fn seed_from_pair(
    idx: TileIndex,
    u: Seq<BorderPair>,
    mask: Seq<bool>,
    ot: OrientedTile,
    i: int,
    j: int,
) -> bool {
    &&& 0 <= i < u.len()
    &&& 0 <= j < u.len()
    &&& i != j
    &&& idx.has((u[i].1, -1i8, -1i8, u[j].0), ot)
    &&& mask[ot.tile.id as int] == true
}

/// Seed discovery up to the pair `(i, j)` of the nested cross-multiply.
pub open spec fn seed_from_pairs_upto(
    idx: TileIndex,
    u: Seq<BorderPair>,
    mask: Seq<bool>,
    ot: OrientedTile,
    i: int,
    j: int,
) -> bool {
    exists|i2: int, j2: int|
        (i2 < i || (i2 == i && j2 < j)) && seed_from_pair(idx, u, mask, ot, i2, j2)
}

/// All legitimate seeds for the next mega tile, best source first: the one
/// fixed starter at depth zero, an admission-tested forced hint tile at the four late
/// depths of hinted mode, and otherwise every available oriented tile whose
/// top and left sides together resolve two distinct outstanding unpaired
/// pairs.
#[verifier::loop_isolation(false)]
pub fn get_valid_mega_tile_seeds(
    st: &Trackers,
    mega_tile_count: usize,
    tile_lookup: &TileIndex,
    tile_set: &[Tile],
    hinted: bool,
) -> (r: Vec<OrientedTile>)
    requires
        st.wf(),
        catalog_wf(tile_set@),
        tile_lookup.indexes(tile_set@, 60),
    ensures
        forall|k: int|
            0 <= k < r@.len() ==> seed_ok(
                #[trigger] r@[k],
                *st,
                tile_set@,
                mega_tile_count as int,
                hinted,
            ),
        mega_tile_count == 0 ==> r@ == seq![spec_new_ot(tile_set@, 138, 1)],
        hinted && mega_tile_count == 45 ==> r@ == (if spec_fits_as_seed(
            spec_new_ot(tile_set@, 207, 3),
            st.unpaired_edges@,
        ) {
            seq![spec_new_ot(tile_set@, 207, 3)]
        } else {
            Seq::<OrientedTile>::empty()
        }),
        hinted && mega_tile_count == 46 ==> r@ == (if spec_fits_as_seed(
            spec_new_ot(tile_set@, 254, 2),
            st.unpaired_edges@,
        ) {
            seq![spec_new_ot(tile_set@, 254, 2)]
        } else {
            Seq::<OrientedTile>::empty()
        }),
        hinted && mega_tile_count == 47 ==> r@ == (if spec_fits_as_seed(
            spec_new_ot(tile_set@, 180, 0),
            st.unpaired_edges@,
        ) {
            seq![spec_new_ot(tile_set@, 180, 0)]
        } else {
            Seq::<OrientedTile>::empty()
        }),
        hinted && mega_tile_count == 48 ==> r@ == (if spec_fits_as_seed(
            spec_new_ot(tile_set@, 248, 2),
            st.unpaired_edges@,
        ) {
            seq![spec_new_ot(tile_set@, 248, 2)]
        } else {
            Seq::<OrientedTile>::empty()
        }),
        !(mega_tile_count == 0 || (hinted && 45 <= mega_tile_count <= 48)) ==> forall|
            ot: OrientedTile,
        | #[trigger]
            r@.contains(ot) <==> seed_from_pairs_upto(
                *tile_lookup,
                st.unpaired_edges@,
                st.available_mask@,
                ot,
                st.unpaired_edges@.len() as int,
                0,
            ),
{
    if mega_tile_count == 0 {
        let s = OrientedTile::new(138, tile_set, 1);
        let mut r: Vec<OrientedTile> = Vec::new();
        r.push(s);
        proof {
            assert(r@ =~= seq![spec_new_ot(tile_set@, 138, 1)]);
        }
        return r;
    }
    if hinted && mega_tile_count == 45 {
        let s = OrientedTile::new(207, tile_set, 3);
        let mut r: Vec<OrientedTile> = Vec::new();
        if check_oriented_tile_fits_in_with_unpaired_edges_as_seed(&s, &st.unpaired_edges) {
            r.push(s);
            proof {
                assert(r@ =~= seq![spec_new_ot(tile_set@, 207, 3)]);
            }
        }
        return r;
    }
    if hinted && mega_tile_count == 46 {
        let s = OrientedTile::new(254, tile_set, 2);
        let mut r: Vec<OrientedTile> = Vec::new();
        if check_oriented_tile_fits_in_with_unpaired_edges_as_seed(&s, &st.unpaired_edges) {
            r.push(s);
            proof {
                assert(r@ =~= seq![spec_new_ot(tile_set@, 254, 2)]);
            }
        }
        return r;
    }
    if hinted && mega_tile_count == 47 {
        let s = OrientedTile::new(180, tile_set, 0);
        let mut r: Vec<OrientedTile> = Vec::new();
        if check_oriented_tile_fits_in_with_unpaired_edges_as_seed(&s, &st.unpaired_edges) {
            r.push(s);
            proof {
                assert(r@ =~= seq![spec_new_ot(tile_set@, 180, 0)]);
            }
        }
        return r;
    }
    if hinted && mega_tile_count == 48 {
        let s = OrientedTile::new(248, tile_set, 2);
        let mut r: Vec<OrientedTile> = Vec::new();
        if check_oriented_tile_fits_in_with_unpaired_edges_as_seed(&s, &st.unpaired_edges) {
            r.push(s);
            proof {
                assert(r@ =~= seq![spec_new_ot(tile_set@, 248, 2)]);
            }
        }
        return r;
    }
    let mut seed_pieces: Vec<OrientedTile> = Vec::new();
    let n = st.unpaired_edges.len();
    let ghost u = st.unpaired_edges@;
    let ghost mask = st.available_mask@;
    let mut i: usize = 0;
    while i < n
        invariant
            i <= n,
            n == u.len(),
            u == st.unpaired_edges@,
            mask == st.available_mask@,
            forall|ot: OrientedTile| #[trigger]
                seed_pieces@.contains(ot) <==> seed_from_pairs_upto(
                    *tile_lookup,
                    u,
                    mask,
                    ot,
                    i as int,
                    0,
                ),
        decreases n - i,
    {
        let mut j: usize = 0;
        while j < n
            invariant
                i < n,
                j <= n,
                n == u.len(),
                u == st.unpaired_edges@,
                mask == st.available_mask@,
                forall|ot: OrientedTile| #[trigger]
                    seed_pieces@.contains(ot) <==> seed_from_pairs_upto(
                        *tile_lookup,
                        u,
                        mask,
                        ot,
                        i as int,
                        j as int,
                    ),
            decreases n - j,
        {
            let ghost pre = seed_pieces@;
            if i != j {
                let e_top = st.unpaired_edges[i].1;
                let e_left = st.unpaired_edges[j].0;
                append_from_key(
                    &mut seed_pieces,
                    tile_lookup,
                    (e_top, -1, -1, e_left),
                    &st.available_mask,
                    Ghost(tile_set@),
                );
            }
            proof {
                assert forall|ot: OrientedTile| #[trigger]
                    seed_pieces@.contains(ot) implies seed_from_pairs_upto(
                    *tile_lookup,
                    u,
                    mask,
                    ot,
                    i as int,
                    j as int + 1,
                ) by {
                    if pre.contains(ot) {
                        let (i2, j2) = choose|i2: int, j2: int|
                            (i2 < i || (i2 == i && j2 < j)) && seed_from_pair(
                                *tile_lookup,
                                u,
                                mask,
                                ot,
                                i2,
                                j2,
                            );
                        assert(seed_from_pair(*tile_lookup, u, mask, ot, i2, j2));
                    } else {
                        assert(i != j);
                        assert(seed_from_pair(*tile_lookup, u, mask, ot, i as int, j as int));
                    }
                }
                assert forall|ot: OrientedTile|
                    seed_from_pairs_upto(
                        *tile_lookup,
                        u,
                        mask,
                        ot,
                        i as int,
                        j as int + 1,
                    ) implies #[trigger] seed_pieces@.contains(ot) by {
                    let (i2, j2) = choose|i2: int, j2: int|
                        (i2 < i || (i2 == i && j2 <= j)) && seed_from_pair(
                            *tile_lookup,
                            u,
                            mask,
                            ot,
                            i2,
                            j2,
                        );
                    if i2 < i || (i2 == i && j2 < j) {
                        assert(seed_from_pairs_upto(*tile_lookup, u, mask, ot, i as int, j as int));
                        assert(pre.contains(ot));
                    } else {
                        assert(i2 == i && j2 == j && i != j);
                    }
                }
            }
            j += 1;
        }
        i += 1;
        proof {
            assert forall|ot: OrientedTile| #[trigger]
                seed_pieces@.contains(ot) <==> seed_from_pairs_upto(
                    *tile_lookup,
                    u,
                    mask,
                    ot,
                    i as int,
                    0,
                ) by {
                if seed_pieces@.contains(ot) {
                    let (i2, j2) = choose|i2: int, j2: int|
                        (i2 < i - 1 || (i2 == i - 1 && j2 < n)) && seed_from_pair(
                            *tile_lookup,
                            u,
                            mask,
                            ot,
                            i2,
                            j2,
                        );
                    assert(i2 < i);
                }
                if seed_from_pairs_upto(*tile_lookup, u, mask, ot, i as int, 0) {
                    let (i2, j2) = choose|i2: int, j2: int|
                        (i2 < i) && seed_from_pair(*tile_lookup, u, mask, ot, i2, j2);
                    assert(0 <= j2 < n);
                    assert(i2 < i - 1 || (i2 == i - 1 && j2 < n));
                }
            }
        }
    }
    proof {
        assert forall|k: int| 0 <= k < seed_pieces@.len() implies seed_ok(
            #[trigger] seed_pieces@[k],
            *st,
            tile_set@,
            mega_tile_count as int,
            hinted,
        ) by {
            let ot = seed_pieces@[k];
            assert(seed_pieces@.contains(ot));
            let (i2, j2) = choose|i2: int, j2: int|
                (i2 < n as int || (i2 == n as int && j2 < 0)) && seed_from_pair(
                    *tile_lookup,
                    u,
                    mask,
                    ot,
                    i2,
                    j2,
                );
            assert(tile_lookup.has((u[i2].1, -1i8, -1i8, u[j2].0), ot));
            assert(crate::index::entry_valid(((u[i2].1, -1i8, -1i8, u[j2].0), ot), tile_set@, 60));
            let c = choose|c: int|
                60 <= c < tile_set@.len() && ot.tile == tile_set@[c] && ot.orientation < 4
                    && key_matches((u[i2].1, -1i8, -1i8, u[j2].0), ot);
            assert(ot.tile.id == c);
        }
    }
    seed_pieces
}

/// An oriented tile matches two outstanding unpaired pairs at once when
/// placed top-left: its left side opens one pair and its top side closes
/// another.
pub open spec fn cross_match(
    idx: TileIndex,
    u: Seq<BorderPair>,
    mask: Seq<bool>,
    ot: OrientedTile,
    i: int,
    j: int,
) -> bool {
    &&& 0 <= i < u.len()
    &&& 0 <= j < u.len()
    &&& i != j
    &&& idx.has((u[j].1, -1i8, -1i8, u[i].0), ot)
    &&& mask[ot.tile.id as int] == true
}

/// Cross matching up to the pair `(i, j)` of the nested enumeration.
pub open spec fn cross_match_upto(
    idx: TileIndex,
    u: Seq<BorderPair>,
    mask: Seq<bool>,
    ot: OrientedTile,
    i: int,
    j: int,
) -> bool {
    exists|i2: int, j2: int|
        (i2 < i || (i2 == i && j2 < j)) && cross_match(idx, u, mask, ot, i2, j2)
}

/// Every available oriented tile that, placed top-left, would resolve two
/// distinct outstanding unpaired pairs at once: its left side opens one of
/// them and its top side closes the other.
#[verifier::loop_isolation(false)]
pub fn find_top_left_oriented_tiles_that_matches_two_mega_tile_edges(
    mega_tile_edges_without_counterpart: &Vec<BorderPair>,
    tile_lookup: &TileIndex,
    available_mask: &Vec<bool>,
    tile_set: &[Tile],
) -> (r: Vec<OrientedTile>)
    requires
        catalog_wf(tile_set@),
        tile_lookup.indexes(tile_set@, 60),
        available_mask@.len() == 256,
    ensures
        forall|ot: OrientedTile| #[trigger]
            r@.contains(ot) <==> cross_match_upto(
                *tile_lookup,
                mega_tile_edges_without_counterpart@,
                available_mask@,
                ot,
                mega_tile_edges_without_counterpart@.len() as int,
                0,
            ),
{
    let ghost u = mega_tile_edges_without_counterpart@;
    let ghost mask = available_mask@;
    let mut r: Vec<OrientedTile> = Vec::new();
    let n = mega_tile_edges_without_counterpart.len();
    let mut i: usize = 0;
    while i < n
        invariant
            i <= n,
            n == u.len(),
            u == mega_tile_edges_without_counterpart@,
            mask == available_mask@,
            forall|ot: OrientedTile| #[trigger]
                r@.contains(ot) <==> cross_match_upto(*tile_lookup, u, mask, ot, i as int, 0),
        decreases n - i,
    {
        let mut j: usize = 0;
        while j < n
            invariant
                i < n,
                j <= n,
                n == u.len(),
                u == mega_tile_edges_without_counterpart@,
                mask == available_mask@,
                forall|ot: OrientedTile| #[trigger]
                    r@.contains(ot) <==> cross_match_upto(
                        *tile_lookup,
                        u,
                        mask,
                        ot,
                        i as int,
                        j as int,
                    ),
            decreases n - j,
        {
            let ghost pre = r@;
            if i != j {
                let opening = mega_tile_edges_without_counterpart[i].0;
                let closing = mega_tile_edges_without_counterpart[j].1;
                append_from_key(
                    &mut r,
                    tile_lookup,
                    (closing, -1, -1, opening),
                    available_mask,
                    Ghost(tile_set@),
                );
            }
            proof {
                assert forall|ot: OrientedTile| #[trigger] r@.contains(ot) implies cross_match_upto(
                    *tile_lookup,
                    u,
                    mask,
                    ot,
                    i as int,
                    j as int + 1,
                ) by {
                    if pre.contains(ot) {
                        let (i2, j2) = choose|i2: int, j2: int|
                            (i2 < i || (i2 == i && j2 < j)) && cross_match(
                                *tile_lookup,
                                u,
                                mask,
                                ot,
                                i2,
                                j2,
                            );
                        assert(cross_match(*tile_lookup, u, mask, ot, i2, j2));
                    } else {
                        assert(i != j);
                        assert(cross_match(*tile_lookup, u, mask, ot, i as int, j as int));
                    }
                }
                assert forall|ot: OrientedTile|
                    cross_match_upto(
                        *tile_lookup,
                        u,
                        mask,
                        ot,
                        i as int,
                        j as int + 1,
                    ) implies #[trigger] r@.contains(ot) by {
                    let (i2, j2) = choose|i2: int, j2: int|
                        (i2 < i || (i2 == i && j2 <= j)) && cross_match(
                            *tile_lookup,
                            u,
                            mask,
                            ot,
                            i2,
                            j2,
                        );
                    if i2 < i || (i2 == i && j2 < j) {
                        assert(cross_match_upto(*tile_lookup, u, mask, ot, i as int, j as int));
                        assert(pre.contains(ot));
                    } else {
                        assert(i2 == i && j2 == j && i != j);
                    }
                }
            }
            j += 1;
        }
        i += 1;
        proof {
            assert forall|ot: OrientedTile| #[trigger]
                r@.contains(ot) <==> cross_match_upto(
                    *tile_lookup,
                    u,
                    mask,
                    ot,
                    i as int,
                    0,
                ) by {
                if r@.contains(ot) {
                    let (i2, j2) = choose|i2: int, j2: int|
                        (i2 < i - 1 || (i2 == i - 1 && j2 < n)) && cross_match(
                            *tile_lookup,
                            u,
                            mask,
                            ot,
                            i2,
                            j2,
                        );
                    assert(i2 < i);
                }
                if cross_match_upto(*tile_lookup, u, mask, ot, i as int, 0) {
                    let (i2, j2) = choose|i2: int, j2: int|
                        (i2 < i) && cross_match(*tile_lookup, u, mask, ot, i2, j2);
                    assert(0 <= j2 < n);
                    assert(i2 < i - 1 || (i2 == i - 1 && j2 < n));
                }
            }
        }
    }
    r
}

/// An oriented tile matches a single outstanding unpaired pair when placed
/// top-left: its left side opens it, or its top side closes it.
pub open spec fn one_match(
    idx: TileIndex,
    u: Seq<BorderPair>,
    mask: Seq<bool>,
    ot: OrientedTile,
    i: int,
) -> bool {
    &&& 0 <= i < u.len()
    &&& (idx.has((-1i8, -1i8, -1i8, u[i].0), ot) || idx.has((u[i].1, -1i8, -1i8, -1i8), ot))
    &&& mask[ot.tile.id as int] == true
}

/// Single matching over the first `i` unpaired pairs.
pub open spec fn one_match_upto(
    idx: TileIndex,
    u: Seq<BorderPair>,
    mask: Seq<bool>,
    ot: OrientedTile,
    i: int,
) -> bool {
    exists|i2: int| i2 < i && one_match(idx, u, mask, ot, i2)
}

/// Every available oriented tile that, placed top-left, would resolve at
/// least one outstanding unpaired pair: its left side opens it or its top
/// side closes it.
#[verifier::loop_isolation(false)]
pub fn find_top_left_oriented_tiles_that_matches_one_mega_tile_edge(
    mega_tile_edges_without_counterpart: &Vec<BorderPair>,
    tile_lookup: &TileIndex,
    available_mask: &Vec<bool>,
    tile_set: &[Tile],
) -> (r: Vec<OrientedTile>)
    requires
        catalog_wf(tile_set@),
        tile_lookup.indexes(tile_set@, 60),
        available_mask@.len() == 256,
    ensures
        forall|ot: OrientedTile| #[trigger]
            r@.contains(ot) <==> one_match_upto(
                *tile_lookup,
                mega_tile_edges_without_counterpart@,
                available_mask@,
                ot,
                mega_tile_edges_without_counterpart@.len() as int,
            ),
{
    let ghost u = mega_tile_edges_without_counterpart@;
    let ghost mask = available_mask@;
    let mut r: Vec<OrientedTile> = Vec::new();
    let n = mega_tile_edges_without_counterpart.len();
    let mut i: usize = 0;
    while i < n
        invariant
            i <= n,
            n == u.len(),
            u == mega_tile_edges_without_counterpart@,
            mask == available_mask@,
            forall|ot: OrientedTile| #[trigger]
                r@.contains(ot) <==> one_match_upto(*tile_lookup, u, mask, ot, i as int),
        decreases n - i,
    {
        let edge = mega_tile_edges_without_counterpart[i];
        let ghost pre = r@;
        append_from_key(&mut r, tile_lookup, (-1, -1, -1, edge.0), available_mask, Ghost(tile_set@));
        let ghost mid = r@;
        append_from_key(&mut r, tile_lookup, (edge.1, -1, -1, -1), available_mask, Ghost(tile_set@));
        proof {
            assert forall|ot: OrientedTile| #[trigger] r@.contains(ot) implies one_match_upto(
                *tile_lookup,
                u,
                mask,
                ot,
                i as int + 1,
            ) by {
                if mid.contains(ot) {
                    if pre.contains(ot) {
                        let i2 = choose|i2: int| i2 < i && one_match(*tile_lookup, u, mask, ot, i2);
                        assert(one_match(*tile_lookup, u, mask, ot, i2));
                    } else {
                        assert(one_match(*tile_lookup, u, mask, ot, i as int));
                    }
                } else {
                    assert(one_match(*tile_lookup, u, mask, ot, i as int));
                }
            }
            assert forall|ot: OrientedTile|
                one_match_upto(*tile_lookup, u, mask, ot, i as int + 1) implies #[trigger]
                r@.contains(ot) by {
                let i2 = choose|i2: int| i2 < i + 1 && one_match(*tile_lookup, u, mask, ot, i2);
                if i2 < i {
                    assert(one_match_upto(*tile_lookup, u, mask, ot, i as int));
                    assert(pre.contains(ot));
                    assert(mid.contains(ot));
                } else {
                    assert(i2 == i);
                    if tile_lookup.has((-1i8, -1i8, -1i8, u[i as int].0), ot) {
                        assert(mid.contains(ot));
                    } else {
                        assert(tile_lookup.has((u[i as int].1, -1i8, -1i8, -1i8), ot));
                    }
                }
            }
        }
        i += 1;
    }
    r
}

/// A generated candidate mega tile is legitimate against the current state:
/// rotatable interior catalog tiles with concrete sides, internally
/// consistent, pairwise distinct, the three grown members still available
/// and the seed member available or forced at this depth.
pub open spec fn candidate_ok(
    m: MegaTile,
    st: Trackers,
    ts: Seq<Tile>,
    count: int,
    hinted: bool,
) -> bool {
    &&& m.rotatable()
    &&& m.sides_in_range()
    &&& m.internally_consistent()
    &&& m.distinct_ids()
    &&& seed_ok(m.tile1, st, ts, count, hinted)
    &&& 60 <= m.tile2.tile.id < 256 && m.tile2.tile == ts[m.tile2.tile.id as int]
    &&& 60 <= m.tile3.tile.id < 256 && m.tile3.tile == ts[m.tile3.tile.id as int]
    &&& 60 <= m.tile4.tile.id < 256 && m.tile4.tile == ts[m.tile4.tile.id as int]
    &&& st.available_mask@[m.tile2.tile.id as int] == true
    &&& st.available_mask@[m.tile3.tile.id as int] == true
    &&& st.available_mask@[m.tile4.tile.id as int] == true
}

/// A scored candidate: a legitimate mega tile whose attached score, once at
/// least three mega tiles are committed, is its deterministic score.
pub open spec fn pair_ok(
    e: (i32, MegaTile),
    st: Trackers,
    ts: Seq<Tile>,
    usage: Seq<int>,
    count: int,
    hinted: bool,
) -> bool {
    &&& candidate_ok(e.1, st, ts, count, hinted)
    &&& (count >= 3 ==> e.0 as int == spec_score(
        e.1,
        st.unpaired_edges@,
        st.paired_edges@,
        usage,
        0,
        count,
    ))
    &&& (count < 3 ==> e.0 >= 1)
}

/// Sorts scored candidates by score, highest first, by repeated selection
/// of a maximum. Every output element is an input element and the other way
/// round.
#[verifier::loop_isolation(false)]
fn sort_candidates_desc(v: Vec<(i32, MegaTile)>) -> (r: Vec<(i32, MegaTile)>)
    ensures
        r@.len() == v@.len(),
        forall|a: int, b: int| 0 <= a < b < r@.len() ==> r@[a].0 >= r@[b].0,
        forall|e: (i32, MegaTile)| #[trigger] r@.contains(e) <==> v@.contains(e),
{
    let mut rem = v;
    let mut out: Vec<(i32, MegaTile)> = Vec::new();
    let ghost orig = rem@;
    while rem.len() > 0
        invariant
            out@.len() + rem@.len() == orig.len(),
            forall|e: (i32, MegaTile)|
                (out@.contains(e) || rem@.contains(e)) <==> #[trigger] orig.contains(e),
            forall|a: int, b: int| 0 <= a < b < out@.len() ==> out@[a].0 >= out@[b].0,
            forall|a: int, b: int|
                0 <= a < out@.len() && 0 <= b < rem@.len() ==> out@[a].0 >= rem@[b].0,
        decreases rem@.len(),
    {
        let n = rem.len();
        let mut best: usize = 0;
        let mut k: usize = 1;
        while k < n
            invariant
                best < k <= n,
                n == rem@.len(),
                forall|b: int| 0 <= b < k ==> rem@[best as int].0 >= rem@[b].0,
            decreases n - k,
        {
            if rem[k].0 > rem[best].0 {
                best = k;
            }
            k += 1;
        }
        let ghost pre_rem = rem@;
        let ghost pre_out = out@;
        let e = rem.swap_remove(best);
        out.push(e);
        proof {
            assert(pre_rem[best as int] == e);
            assert forall|x: (i32, MegaTile)|
                (out@.contains(x) || rem@.contains(x)) <==> #[trigger] orig.contains(x) by {
                if out@.contains(x) {
                    let idx = choose|idx: int| 0 <= idx < out@.len() && out@[idx] == x;
                    if idx < pre_out.len() {
                        assert(pre_out[idx] == x);
                        assert(pre_out.contains(x));
                    } else {
                        assert(x == e);
                        assert(pre_rem.contains(x)) by {
                            assert(pre_rem[best as int] == x);
                        }
                    }
                }
                if rem@.contains(x) {
                    let idx = choose|idx: int| 0 <= idx < rem@.len() && rem@[idx] == x;
                    if idx == best {
                        assert(rem@[idx] == pre_rem[pre_rem.len() - 1]);
                        assert(pre_rem.contains(x)) by {
                            assert(pre_rem[pre_rem.len() - 1] == x);
                        }
                    } else {
                        assert(rem@[idx] == pre_rem[idx]);
                        assert(pre_rem.contains(x)) by {
                            assert(pre_rem[idx] == x);
                        }
                    }
                }
                if orig.contains(x) {
                    if pre_out.contains(x) {
                        let idx = choose|idx: int| 0 <= idx < pre_out.len() && pre_out[idx] == x;
                        assert(out@[idx] == x);
                        assert(out@.contains(x));
                    } else {
                        assert(pre_rem.contains(x));
                        let idx = choose|idx: int| 0 <= idx < pre_rem.len() && pre_rem[idx] == x;
                        if x == e {
                            assert(out@[out@.len() - 1] == x);
                            assert(out@.contains(x));
                        } else {
                            assert(idx != best);
                            if idx == pre_rem.len() - 1 {
                                assert(best < pre_rem.len() - 1);
                                assert(rem@[best as int] == x);
                                assert(rem@.contains(x));
                            } else {
                                assert(rem@[idx] == x);
                                assert(rem@.contains(x));
                            }
                        }
                    }
                }
            }
            assert forall|a: int, b: int|
                0 <= a < out@.len() && 0 <= b < rem@.len() implies out@[a].0 >= rem@[b].0 by {
                assert(rem@.contains(rem@[b])) by {
                    assert(rem@[b] == rem@[b]);
                }
                assert(pre_rem.contains(rem@[b]));
                let idx = choose|idx: int| 0 <= idx < pre_rem.len() && pre_rem[idx] == rem@[b];
                assert(e.0 >= pre_rem[idx].0);
                if a < pre_out.len() {
                    assert(out@[a].0 >= e.0);
                }
            }
        }
    }
    out
}

/// A mega tile grown from the offered seeds: its top-left member is one of
/// the seeds, the index finds the three other members under the constraint
/// tuples the growth imposes (top-right by its left side, bottom-right by
/// its top, bottom-left by its top and right), and the three grown members
/// are available and all four identities pairwise distinct.
pub open spec fn grown_candidate(
    m: MegaTile,
    seeds: Seq<OrientedTile>,
    idx: TileIndex,
    mask: Seq<bool>,
) -> bool {
    &&& seeds.contains(m.tile1)
    &&& idx.has((-1i8, -1i8, -1i8, ot_right(m.tile1)), m.tile2)
    &&& idx.has((ot_bottom(m.tile2), -1i8, -1i8, -1i8), m.tile4)
    &&& idx.has((ot_bottom(m.tile1), ot_left(m.tile4), -1i8, -1i8), m.tile3)
    &&& m.tile2.tile.id != m.tile1.tile.id
    &&& mask[m.tile2.tile.id as int] == true
    &&& m.tile4.tile.id != m.tile1.tile.id
    &&& m.tile4.tile.id != m.tile2.tile.id
    &&& mask[m.tile4.tile.id as int] == true
    &&& m.tile3.tile.id != m.tile1.tile.id
    &&& m.tile3.tile.id != m.tile2.tile.id
    &&& m.tile3.tile.id != m.tile4.tile.id
    &&& mask[m.tile3.tile.id as int] == true
}

/// The mega tile occurs among the scored candidates.
pub open spec fn scored_has(scored: Seq<(i32, MegaTile)>, m: MegaTile) -> bool {
    exists|a: int| 0 <= a < scored.len() && scored[a].1 == m
}

/// Builds every candidate mega tile that can grow from the given seeds, each
/// internally consistent, made of four distinct available interior tiles,
/// scores them, discards the candidates scoring below zero and returns the
/// rest sorted best first: the result holds exactly the grown candidates
/// whose score passes (while fewer than three mega tiles are committed every
/// grown candidate passes, its random tie-break being positive).
#[verifier::loop_isolation(false)]
#[verifier::rlimit(90)]
pub fn get_all_possible_megatiles_sorted_by_score(
    seeds: &Vec<OrientedTile>,
    st: &Trackers,
    mega_tile_count: usize,
    tile_lookup: &TileIndex,
    tile_set: &[Tile],
    edge_type_usage_score: &Vec<i32>,
    hinted: bool,
) -> (r: Vec<MegaTile>)
    requires
        st.wf(),
        catalog_wf(tile_set@),
        tile_lookup.indexes(tile_set@, 60),
        edge_type_usage_score@.len() == 22,
        forall|i: int|
            0 <= i < 22 ==> -500000 <= #[trigger] edge_type_usage_score@[i] <= 500000,
        st.unpaired_edges@.len() <= 1000,
        st.paired_edges@.len() <= 1000,
        forall|k: int|
            0 <= k < seeds@.len() ==> seed_ok(
                #[trigger] seeds@[k],
                *st,
                tile_set@,
                mega_tile_count as int,
                hinted,
            ),
    ensures
        forall|k: int|
            0 <= k < r@.len() ==> candidate_ok(
                #[trigger] r@[k],
                *st,
                tile_set@,
                mega_tile_count as int,
                hinted,
            ),
        forall|k: int|
            0 <= k < r@.len() ==> grown_candidate(
                #[trigger] r@[k],
                seeds@,
                *tile_lookup,
                st.available_mask@,
            ),
        mega_tile_count >= 3 ==> forall|a: int, b: int|
            0 <= a < b < r@.len() ==> spec_score(
                r@[a],
                st.unpaired_edges@,
                st.paired_edges@,
                to_ints(edge_type_usage_score@),
                0,
                mega_tile_count as int,
            ) >= spec_score(
                r@[b],
                st.unpaired_edges@,
                st.paired_edges@,
                to_ints(edge_type_usage_score@),
                0,
                mega_tile_count as int,
            ),
        mega_tile_count >= 3 ==> forall|a: int|
            0 <= a < r@.len() ==> spec_score(
                #[trigger] r@[a],
                st.unpaired_edges@,
                st.paired_edges@,
                to_ints(edge_type_usage_score@),
                0,
                mega_tile_count as int,
            ) >= 0,
        forall|m: MegaTile|
            #![trigger grown_candidate(m, seeds@, *tile_lookup, st.available_mask@)]
            grown_candidate(m, seeds@, *tile_lookup, st.available_mask@) && (mega_tile_count >= 3
                ==> spec_score(
                m,
                st.unpaired_edges@,
                st.paired_edges@,
                to_ints(edge_type_usage_score@),
                0,
                mega_tile_count as int,
            ) >= 0) ==> r@.contains(m),
{
    let ghost ts = tile_set@;
    let ghost usage_ints = to_ints(edge_type_usage_score@);
    let ghost count = mega_tile_count as int;
    let ghost mask = st.available_mask@;
    let mut scored: Vec<(i32, MegaTile)> = Vec::new();
    let ns = seeds.len();
    let mut si: usize = 0;
    while si < ns
        invariant
            si <= ns,
            ns == seeds@.len(),
            forall|a: int|
                0 <= a < scored@.len() ==> pair_ok(
                    #[trigger] scored@[a],
                    *st,
                    ts,
                    usage_ints,
                    count,
                    hinted,
                ),
            forall|a: int|
                0 <= a < scored@.len() ==> grown_candidate(
                    (#[trigger] scored@[a]).1,
                    seeds@,
                    *tile_lookup,
                    mask,
                ),
            forall|m: MegaTile|
                #![trigger grown_candidate(m, seeds@, *tile_lookup, mask)]
                grown_candidate(m, seeds@, *tile_lookup, mask) && (exists|si2: int|
                    0 <= si2 < si && seeds@[si2] == m.tile1) ==> scored_has(scored@, m),
        decreases ns - si,
    {
        let s = seeds[si];
        proof {
            assert(seed_ok(s, *st, ts, count, hinted));
            lemma_interior_ot_in_range(ts, s);
            assert(seeds@.contains(s)) by {
                assert(seeds@[si as int] == s);
            }
        }
        let trs = tile_lookup.get((-1, -1, -1, s.right()));
        let ghost tr_key = (-1i8, -1i8, -1i8, ot_right(s));
        let ntr = trs.len();
        let mut ti: usize = 0;
        while ti < ntr
            invariant
                ti <= ntr,
                ntr == trs@.len(),
                forall|ot: OrientedTile| #[trigger] trs@.contains(ot) <==> tile_lookup.has(
                    tr_key,
                    ot,
                ),
                forall|a: int|
                    0 <= a < scored@.len() ==> pair_ok(
                        #[trigger] scored@[a],
                        *st,
                        ts,
                        usage_ints,
                        count,
                        hinted,
                    ),
                forall|a: int|
                    0 <= a < scored@.len() ==> grown_candidate(
                        (#[trigger] scored@[a]).1,
                        seeds@,
                        *tile_lookup,
                        mask,
                    ),
                forall|m: MegaTile|
                    #![trigger grown_candidate(m, seeds@, *tile_lookup, mask)]
                    grown_candidate(m, seeds@, *tile_lookup, mask) && (exists|si2: int|
                        0 <= si2 < si && seeds@[si2] == m.tile1) ==> scored_has(scored@, m),
                forall|m: MegaTile|
                    #![trigger grown_candidate(m, seeds@, *tile_lookup, mask)]
                    grown_candidate(m, seeds@, *tile_lookup, mask) && m.tile1 == s && (exists|
                        ti2: int,
                    |
                        0 <= ti2 < ti && trs@[ti2] == m.tile2) ==> scored_has(scored@, m),
            decreases ntr - ti,
        {
            let tr = trs[ti];
            proof {
                assert(trs@.contains(tr)) by {
                    assert(trs@[ti as int] == tr);
                }
                assert(tile_lookup.has(tr_key, tr));
                assert(crate::index::entry_valid((tr_key, tr), ts, 60));
                let i2 = choose|i2: int|
                    60 <= i2 < ts.len() && tr.tile == ts[i2] && tr.orientation < 4 && key_matches(
                        tr_key,
                        tr,
                    );
                assert(tr.tile.id == i2);
                lemma_interior_ot_in_range(ts, tr);
            }
            let ghost pre_tr_scored = scored@;
            if tr.id() != s.id() && st.available_mask[tr.id()] {
                let brs = tile_lookup.get((tr.bottom(), -1, -1, -1));
                let ghost br_key = (ot_bottom(tr), -1i8, -1i8, -1i8);
                let nbr = brs.len();
                let mut bi: usize = 0;
                while bi < nbr
                    invariant
                        bi <= nbr,
                        nbr == brs@.len(),
                        pre_tr_scored.len() <= scored@.len(),
                        forall|j: int|
                            0 <= j < pre_tr_scored.len() ==> scored@[j] == pre_tr_scored[j],
                        forall|ot: OrientedTile| #[trigger] brs@.contains(ot) <==> tile_lookup.has(
                            br_key,
                            ot,
                        ),
                        forall|a: int|
                            0 <= a < scored@.len() ==> pair_ok(
                                #[trigger] scored@[a],
                                *st,
                                ts,
                                usage_ints,
                                count,
                                hinted,
                            ),
                        forall|a: int|
                            0 <= a < scored@.len() ==> grown_candidate(
                                (#[trigger] scored@[a]).1,
                                seeds@,
                                *tile_lookup,
                                mask,
                            ),
                        forall|m: MegaTile|
                            #![trigger grown_candidate(m, seeds@, *tile_lookup, mask)]
                            grown_candidate(m, seeds@, *tile_lookup, mask) && (exists|si2: int|
                                0 <= si2 < si && seeds@[si2] == m.tile1) ==> scored_has(
                                scored@,
                                m,
                            ),
                        forall|m: MegaTile|
                            #![trigger grown_candidate(m, seeds@, *tile_lookup, mask)]
                            grown_candidate(m, seeds@, *tile_lookup, mask) && m.tile1 == s && (
                            exists|ti2: int| 0 <= ti2 < ti && trs@[ti2] == m.tile2) ==> scored_has(
                                scored@,
                                m,
                            ),
                        forall|m: MegaTile|
                            #![trigger grown_candidate(m, seeds@, *tile_lookup, mask)]
                            grown_candidate(m, seeds@, *tile_lookup, mask) && m.tile1 == s
                                && m.tile2 == tr && (exists|bi2: int|
                                0 <= bi2 < bi && brs@[bi2] == m.tile4) ==> scored_has(scored@, m),
                    decreases nbr - bi,
                {
                    let br = brs[bi];
                    proof {
                        assert(brs@.contains(br)) by {
                            assert(brs@[bi as int] == br);
                        }
                        assert(tile_lookup.has(br_key, br));
                        assert(crate::index::entry_valid((br_key, br), ts, 60));
                        let i2 = choose|i2: int|
                            60 <= i2 < ts.len() && br.tile == ts[i2] && br.orientation < 4
                                && key_matches(br_key, br);
                        assert(br.tile.id == i2);
                        lemma_interior_ot_in_range(ts, br);
                    }
                    let ghost pre_br_scored = scored@;
                    if st.available_mask[br.id()] && br.id() != s.id() && br.id() != tr.id() {
                        let bls = tile_lookup.get((s.bottom(), br.left(), -1, -1));
                        let ghost bl_key = (ot_bottom(s), ot_left(br), -1i8, -1i8);
                        let nbl = bls.len();
                        let mut li: usize = 0;
                        while li < nbl
                            invariant
                                li <= nbl,
                                nbl == bls@.len(),
                                pre_br_scored.len() <= scored@.len(),
                                forall|j: int|
                                    0 <= j < pre_br_scored.len()
                                        ==> scored@[j] == pre_br_scored[j],
                                forall|ot: OrientedTile| #[trigger]
                                    bls@.contains(ot) <==> tile_lookup.has(bl_key, ot),
                                forall|a: int|
                                    0 <= a < scored@.len() ==> pair_ok(
                                        #[trigger] scored@[a],
                                        *st,
                                        ts,
                                        usage_ints,
                                        count,
                                        hinted,
                                    ),
                                forall|a: int|
                                    0 <= a < scored@.len() ==> grown_candidate(
                                        (#[trigger] scored@[a]).1,
                                        seeds@,
                                        *tile_lookup,
                                        mask,
                                    ),
                                forall|m: MegaTile|
                                    #![trigger grown_candidate(m, seeds@, *tile_lookup, mask)]
                                    grown_candidate(m, seeds@, *tile_lookup, mask) && (exists|
                                        si2: int,
                                    |
                                        0 <= si2 < si && seeds@[si2] == m.tile1) ==> scored_has(
                                        scored@,
                                        m,
                                    ),
                                forall|m: MegaTile|
                                    #![trigger grown_candidate(m, seeds@, *tile_lookup, mask)]
                                    grown_candidate(m, seeds@, *tile_lookup, mask) && m.tile1 == s
                                        && (exists|ti2: int|
                                        0 <= ti2 < ti && trs@[ti2] == m.tile2) ==> scored_has(
                                        scored@,
                                        m,
                                    ),
                                forall|m: MegaTile|
                                    #![trigger grown_candidate(m, seeds@, *tile_lookup, mask)]
                                    grown_candidate(m, seeds@, *tile_lookup, mask) && m.tile1 == s
                                        && m.tile2 == tr && (exists|bi2: int|
                                        0 <= bi2 < bi && brs@[bi2] == m.tile4) ==> scored_has(
                                        scored@,
                                        m,
                                    ),
                                forall|m: MegaTile|
                                    #![trigger grown_candidate(m, seeds@, *tile_lookup, mask)]
                                    grown_candidate(m, seeds@, *tile_lookup, mask) && m.tile1 == s
                                        && m.tile2 == tr && m.tile4 == br && (exists|li2: int|
                                        0 <= li2 < li && bls@[li2] == m.tile3) ==> scored_has(
                                        scored@,
                                        m,
                                    ),
                            decreases nbl - li,
                        {
                            let bl = bls[li];
                            proof {
                                assert(bls@.contains(bl)) by {
                                    assert(bls@[li as int] == bl);
                                }
                                assert(tile_lookup.has(bl_key, bl));
                                assert(crate::index::entry_valid((bl_key, bl), ts, 60));
                                let i2 = choose|i2: int|
                                    60 <= i2 < ts.len() && bl.tile == ts[i2] && bl.orientation < 4
                                        && key_matches(bl_key, bl);
                                assert(bl.tile.id == i2);
                                lemma_interior_ot_in_range(ts, bl);
                            }
                            let ghost pre_scored = scored@;
                            if st.available_mask[bl.id()] && bl.id() != s.id() && bl.id()
                                != tr.id() && bl.id() != br.id() {
                                let m = MegaTile { tile1: s, tile2: tr, tile3: bl, tile4: br };
                                proof {
                                    assert(candidate_ok(m, *st, ts, count, hinted));
                                    assert(grown_candidate(m, seeds@, *tile_lookup, mask));
                                }
                                let tie = if mega_tile_count < 3 {
                                    random_in_range(1, 1000)
                                } else {
                                    0
                                };
                                let sc = score_mega_tile(
                                    &m,
                                    &st.unpaired_edges,
                                    &st.paired_edges,
                                    mega_tile_count,
                                    edge_type_usage_score,
                                    tie,
                                );
                                scored.push((sc, m));
                                proof {
                                    assert forall|a: int| 0 <= a < scored@.len() implies pair_ok(
                                        #[trigger] scored@[a],
                                        *st,
                                        ts,
                                        usage_ints,
                                        count,
                                        hinted,
                                    ) && grown_candidate(
                                        scored@[a].1,
                                        seeds@,
                                        *tile_lookup,
                                        mask,
                                    ) by {
                                        if a < pre_scored.len() {
                                            assert(scored@[a] == pre_scored[a]);
                                        } else {
                                            assert(scored@[a] == (sc, m));
                                        }
                                    }
                                }
                            }
                            proof {
                                lemma_scored_extend(pre_scored, scored@);
                                assert forall|m2: MegaTile|
                                    #![trigger grown_candidate(m2, seeds@, *tile_lookup, mask)]
                                    grown_candidate(m2, seeds@, *tile_lookup, mask) && m2.tile1
                                        == s && m2.tile2 == tr && m2.tile4 == br && (exists|
                                        li2: int,
                                    |
                                        0 <= li2 < li + 1 && bls@[li2] == m2.tile3) implies
                                    scored_has(scored@, m2) by {
                                    let li2 = choose|li2: int|
                                        0 <= li2 < li + 1 && bls@[li2] == m2.tile3;
                                    if li2 < li {
                                        assert(scored_has(pre_scored, m2));
                                    } else {
                                        assert(m2.tile3 == bl);
                                        assert(m2 == MegaTile {
                                            tile1: s,
                                            tile2: tr,
                                            tile3: bl,
                                            tile4: br,
                                        });
                                        assert(scored@[scored@.len() - 1].1 == m2);
                                    }
                                }
                            }
                            li += 1;
                        }
                        proof {
                            assert forall|m2: MegaTile|
                                #![trigger grown_candidate(m2, seeds@, *tile_lookup, mask)]
                                grown_candidate(m2, seeds@, *tile_lookup, mask) && m2.tile1 == s
                                    && m2.tile2 == tr && (exists|bi2: int|
                                    0 <= bi2 < bi + 1 && brs@[bi2] == m2.tile4) implies scored_has(
                                scored@,
                                m2,
                            ) by {
                                let bi2 = choose|bi2: int|
                                    0 <= bi2 < bi + 1 && brs@[bi2] == m2.tile4;
                                if bi2 < bi {
                                    lemma_scored_extend(pre_br_scored, scored@);
                                    assert(scored_has(pre_br_scored, m2));
                                } else {
                                    assert(m2.tile4 == br);
                                    assert(tile_lookup.has(
                                        (ot_bottom(m2.tile1), ot_left(m2.tile4), -1i8, -1i8),
                                        m2.tile3,
                                    ));
                                    assert(bls@.contains(m2.tile3));
                                    let li2 = choose|li2: int|
                                        0 <= li2 < bls@.len() && bls@[li2] == m2.tile3;
                                }
                            }
                        }
                    } else {
                        proof {
                            assert forall|m2: MegaTile|
                                #![trigger grown_candidate(m2, seeds@, *tile_lookup, mask)]
                                grown_candidate(m2, seeds@, *tile_lookup, mask) && m2.tile1 == s
                                    && m2.tile2 == tr && (exists|bi2: int|
                                    0 <= bi2 < bi + 1 && brs@[bi2] == m2.tile4) implies scored_has(
                                scored@,
                                m2,
                            ) by {
                                let bi2 = choose|bi2: int|
                                    0 <= bi2 < bi + 1 && brs@[bi2] == m2.tile4;
                                if bi2 < bi {
                                    assert(scored_has(pre_br_scored, m2));
                                } else {
                                    assert(m2.tile4 == br);
                                }
                            }
                        }
                    }
                    bi += 1;
                }
                proof {
                    assert forall|m2: MegaTile|
                        #![trigger grown_candidate(m2, seeds@, *tile_lookup, mask)]
                        grown_candidate(m2, seeds@, *tile_lookup, mask) && m2.tile1 == s && (
                        exists|ti2: int| 0 <= ti2 < ti + 1 && trs@[ti2] == m2.tile2) implies
                        scored_has(scored@, m2) by {
                        let ti2 = choose|ti2: int| 0 <= ti2 < ti + 1 && trs@[ti2] == m2.tile2;
                        if ti2 < ti {
                            lemma_scored_extend(pre_tr_scored, scored@);
                            assert(scored_has(pre_tr_scored, m2));
                        } else {
                            assert(m2.tile2 == tr);
                            assert(tile_lookup.has((ot_bottom(m2.tile2), -1i8, -1i8, -1i8), m2.tile4));
                            assert(brs@.contains(m2.tile4));
                            let bi2 = choose|bi2: int|
                                0 <= bi2 < brs@.len() && brs@[bi2] == m2.tile4;
                        }
                    }
                }
            } else {
                proof {
                    assert forall|m2: MegaTile|
                        #![trigger grown_candidate(m2, seeds@, *tile_lookup, mask)]
                        grown_candidate(m2, seeds@, *tile_lookup, mask) && m2.tile1 == s && (
                        exists|ti2: int| 0 <= ti2 < ti + 1 && trs@[ti2] == m2.tile2) implies
                        scored_has(scored@, m2) by {
                        let ti2 = choose|ti2: int| 0 <= ti2 < ti + 1 && trs@[ti2] == m2.tile2;
                        if ti2 < ti {
                            assert(scored_has(pre_tr_scored, m2));
                        } else {
                            assert(m2.tile2 == tr);
                        }
                    }
                }
            }
            ti += 1;
        }
        si += 1;
        proof {
            assert forall|m2: MegaTile|
                #![trigger grown_candidate(m2, seeds@, *tile_lookup, mask)]
                grown_candidate(m2, seeds@, *tile_lookup, mask) && (exists|si2: int|
                    0 <= si2 < si && seeds@[si2] == m2.tile1) implies scored_has(scored@, m2) by {
                let si2 = choose|si2: int| 0 <= si2 < si && seeds@[si2] == m2.tile1;
                if si2 < si - 1 {
                    assert(scored_has(scored@, m2));
                } else {
                    assert(m2.tile1 == s);
                    assert(tile_lookup.has((-1i8, -1i8, -1i8, ot_right(m2.tile1)), m2.tile2));
                    assert(trs@.contains(m2.tile2));
                    let ti2 = choose|ti2: int| 0 <= ti2 < trs@.len() && trs@[ti2] == m2.tile2;
                }
            }
        }
    }
    proof {
        assert forall|m2: MegaTile|
            #![trigger grown_candidate(m2, seeds@, *tile_lookup, mask)]
            grown_candidate(m2, seeds@, *tile_lookup, mask) implies scored_has(scored@, m2) by {
            assert(seeds@.contains(m2.tile1));
            let si2 = choose|si2: int| 0 <= si2 < seeds@.len() && seeds@[si2] == m2.tile1;
        }
    }
    let sorted = sort_candidates_desc(scored);
    let mut result: Vec<MegaTile> = Vec::new();
    let nk = sorted.len();
    let mut k: usize = 0;
    while k < nk
        invariant
            k <= nk,
            nk == sorted@.len(),
            forall|a: int|
                0 <= a < result@.len() ==> candidate_ok(
                    #[trigger] result@[a],
                    *st,
                    ts,
                    count,
                    hinted,
                ) && grown_candidate(result@[a], seeds@, *tile_lookup, mask),
            mega_tile_count >= 3 ==> forall|a: int|
                0 <= a < result@.len() ==> spec_score(
                    #[trigger] result@[a],
                    st.unpaired_edges@,
                    st.paired_edges@,
                    usage_ints,
                    0,
                    count,
                ) >= 0,
            mega_tile_count >= 3 ==> forall|a: int, b: int|
                0 <= a < b < result@.len() ==> spec_score(
                    result@[a],
                    st.unpaired_edges@,
                    st.paired_edges@,
                    usage_ints,
                    0,
                    count,
                ) >= spec_score(
                    result@[b],
                    st.unpaired_edges@,
                    st.paired_edges@,
                    usage_ints,
                    0,
                    count,
                ),
            mega_tile_count >= 3 ==> forall|a: int, k2: int|
                0 <= a < result@.len() && k <= k2 < nk ==> spec_score(
                    #[trigger] result@[a],
                    st.unpaired_edges@,
                    st.paired_edges@,
                    usage_ints,
                    0,
                    count,
                ) >= #[trigger] sorted@[k2].0,
            forall|k2: int|
                0 <= k2 < k && (#[trigger] sorted@[k2]).0 >= 0 ==> result@.contains(
                    sorted@[k2].1,
                ),
        decreases nk - k,
    {
        let e = sorted[k];
        proof {
            assert(sorted@.contains(e)) by {
                assert(sorted@[k as int] == e);
            }
            assert(scored@.contains(e));
            let idx = choose|idx: int| 0 <= idx < scored@.len() && scored@[idx] == e;
            assert(pair_ok(scored@[idx], *st, ts, usage_ints, count, hinted));
            assert(grown_candidate(scored@[idx].1, seeds@, *tile_lookup, mask));
        }
        let ghost pre = result@;
        if e.0 >= 0 {
            result.push(e.1);
            proof {
                assert forall|a: int| 0 <= a < result@.len() implies candidate_ok(
                    #[trigger] result@[a],
                    *st,
                    ts,
                    count,
                    hinted,
                ) && grown_candidate(result@[a], seeds@, *tile_lookup, mask) by {
                    if a < pre.len() {
                        assert(result@[a] == pre[a]);
                    } else {
                        assert(result@[a] == e.1);
                    }
                }
            }
        }
        proof {
            assert forall|k2: int|
                0 <= k2 < k + 1 && (#[trigger] sorted@[k2]).0 >= 0 implies result@.contains(
                sorted@[k2].1,
            ) by {
                if k2 < k {
                    assert(pre.contains(sorted@[k2].1));
                    let a = choose|a: int| 0 <= a < pre.len() && pre[a] == sorted@[k2].1;
                    assert(result@[a] == sorted@[k2].1);
                } else {
                    assert(result@[result@.len() - 1] == e.1);
                }
            }
        }
        k += 1;
    }
    proof {
        assert forall|m2: MegaTile|
            #![trigger grown_candidate(m2, seeds@, *tile_lookup, mask)]
            grown_candidate(m2, seeds@, *tile_lookup, mask) && (mega_tile_count >= 3
                ==> spec_score(
                m2,
                st.unpaired_edges@,
                st.paired_edges@,
                usage_ints,
                0,
                count,
            ) >= 0) implies result@.contains(m2) by {
            assert(scored_has(scored@, m2));
            let a = choose|a: int| 0 <= a < scored@.len() && scored@[a].1 == m2;
            let e = scored@[a];
            assert(pair_ok(e, *st, ts, usage_ints, count, hinted));
            assert(e.0 >= 0);
            assert(scored@.contains(e)) by {
                assert(scored@[a] == e);
            }
            assert(sorted@.contains(e));
            let k2 = choose|k2: int| 0 <= k2 < sorted@.len() && sorted@[k2] == e;
            assert(sorted@[k2].0 >= 0);
            assert(result@.contains(sorted@[k2].1));
        }
    }
    result
}

/// A candidate once scored stays scored as more candidates follow.
proof fn lemma_scored_extend(s1: Seq<(i32, MegaTile)>, s2: Seq<(i32, MegaTile)>)
    requires
        s1.len() <= s2.len(),
        forall|j: int| 0 <= j < s1.len() ==> s2[j] == s1[j],
    ensures
        forall|m: MegaTile| scored_has(s1, m) ==> #[trigger] scored_has(s2, m),
{
    assert forall|m: MegaTile| scored_has(s1, m) implies #[trigger] scored_has(s2, m) by {
        let a = choose|a: int| 0 <= a < s1.len() && s1[a].1 == m;
        assert(s2[a].1 == m);
    }
}

/// A mega tile fit for a committed partition: rotatable interior catalog
/// tiles with concrete sides, internally consistent and pairwise distinct.
pub open spec fn mt_wf(m: MegaTile, ts: Seq<Tile>) -> bool {
    &&& m.rotatable()
    &&& m.sides_in_range()
    &&& m.internally_consistent()
    &&& m.distinct_ids()
    &&& 60 <= m.tile1.tile.id < 256 && m.tile1.tile == ts[m.tile1.tile.id as int]
    &&& 60 <= m.tile2.tile.id < 256 && m.tile2.tile == ts[m.tile2.tile.id as int]
    &&& 60 <= m.tile3.tile.id < 256 && m.tile3.tile == ts[m.tile3.tile.id as int]
    &&& 60 <= m.tile4.tile.id < 256 && m.tile4.tile == ts[m.tile4.tile.id as int]
}

/// Two mega tiles share no tile identity.
pub open spec fn mt_ids_disjoint(m1: MegaTile, m2: MegaTile) -> bool {
    &&& !mt_has_id(m2, m1.tile1.tile.id as int)
    &&& !mt_has_id(m2, m1.tile2.tile.id as int)
    &&& !mt_has_id(m2, m1.tile3.tile.id as int)
    &&& !mt_has_id(m2, m1.tile4.tile.id as int)
}

/// A well-formed partition under construction: every committed mega tile is
/// fit, and no tile identity is used by two of them.
pub open spec fn partition_wf(s: Seq<MegaTile>, ts: Seq<Tile>) -> bool {
    &&& forall|i: int| 0 <= i < s.len() ==> mt_wf(#[trigger] s[i], ts)
    &&& forall|a: int, b: int| 0 <= a < b < s.len() ==> mt_ids_disjoint(s[a], s[b])
}

/// Every identity used by a committed mega tile is marked unavailable.
pub open spec fn used_masked(st: Trackers, s: Seq<MegaTile>) -> bool {
    forall|i: int, j: int|
        0 <= i < s.len() && 0 <= j < 256 && #[trigger] mt_has_id(s[i], j)
            ==> st.available_mask@[j] == false
}

/// Every pinned identity is marked unavailable.
pub open spec fn pinned_out(st: Trackers, hinted: bool) -> bool {
    forall|j: int| 0 <= j < 256 && spec_pinned(j, hinted) ==> st.available_mask@[j] == false
}

/// The starter tile only ever sits in the first committed mega tile, and in
/// hinted mode each forced hint tile only in the one committed at its forced
/// depth.
pub open spec fn hint_free(s: Seq<MegaTile>, hinted: bool) -> bool {
    forall|i: int|
        0 <= i < s.len() ==> ((mt_has_id(#[trigger] s[i], 138) ==> i == 0) && (hinted
            && mt_has_id(s[i], 207) ==> i == 45) && (hinted && mt_has_id(s[i], 254) ==> i == 46)
            && (hinted && mt_has_id(s[i], 180) ==> i == 47) && (hinted && mt_has_id(s[i], 248)
            ==> i == 48))
}

/// The trackers never outgrow what `n` commits can produce: each pair count
/// at most four per commit, at most four distinct pair types per commit, and
/// at most sixteen consumed sides per commit.
pub open spec fn counts_bounded(st: Trackers, n: int) -> bool {
    &&& forall|p: BorderPair| #[trigger] st.mega_tile_edge_count.count_of(p) <= 4 * n
    &&& st.mega_tile_edge_count.items@.len() <= 4 * n
    &&& forall|s2: int| 0 <= s2 < 22 ==> st.edge_usage_count@[s2] <= 16 * n
}

/// The full invariant the search maintains between its trackers and the
/// committed mega tiles.
pub open spec fn builder_inv(st: Trackers, s: Seq<MegaTile>, ts: Seq<Tile>, hinted: bool) -> bool {
    &&& st.wf()
    &&& st.lists_in_sync()
    &&& pinned_out(st, hinted)
    &&& partition_wf(s, ts)
    &&& used_masked(st, s)
    &&& hint_free(s, hinted)
    &&& counts_bounded(st, s.len() as int)
}

/// The recursive backtracking search: commits scored candidates best first,
/// recurses, and rolls every tracker back exactly before trying the next
/// candidate. Success propagates up as soon as `target` mega tiles stand
/// committed; failure leaves the trackers and the committed list exactly as
/// they were.
#[verifier::loop_isolation(false)]
#[verifier::rlimit(100)]
pub fn build_mega_tiles_recursive(
    st: &mut Trackers,
    mega_tiles: &mut Vec<MegaTile>,
    tile_lookup: &TileIndex,
    tile_set: &[Tile],
    wanted_sides_for_hints: &Vec<i32>,
    needed_sides_for_edges: &Vec<i32>,
    total_edge_count: &Vec<i32>,
    target: usize,
    hinted: bool,
) -> (r: bool)
    requires
        catalog_wf(tile_set@),
        tile_lookup.indexes(tile_set@, 60),
        builder_inv(*old(st), old(mega_tiles)@, tile_set@, hinted),
        old(mega_tiles)@.len() <= target <= 49,
        wanted_sides_for_hints@.len() == 22,
        needed_sides_for_edges@.len() == 22,
        total_edge_count@.len() == 22,
        forall|i: int|
            0 <= i < 22 ==> -10000 <= #[trigger] wanted_sides_for_hints@[i] <= 10000,
        forall|i: int|
            0 <= i < 22 ==> -10000 <= #[trigger] needed_sides_for_edges@[i] <= 10000,
        forall|i: int| 0 <= i < 22 ==> -10000 <= #[trigger] total_edge_count@[i] <= 10000,
    ensures
        builder_inv(*final(st), final(mega_tiles)@, tile_set@, hinted),
        final(mega_tiles)@.len() <= target,
        r ==> final(mega_tiles)@.len() == target,
        r ==> final(mega_tiles)@.len() >= old(mega_tiles)@.len() && forall|i: int|
            0 <= i < old(mega_tiles)@.len() ==> final(mega_tiles)@[i] == old(mega_tiles)@[i],
        r ==> spec_healthy(
            *final(st),
            target as int,
            needed_sides_for_edges@,
            total_edge_count@,
        ),
        r && old(mega_tiles)@.len() == 0 && target > 0 ==> final(mega_tiles)@[0].tile1
            == spec_new_ot(tile_set@, 138, 1),
        !r ==> final(mega_tiles)@ == old(mega_tiles)@,
        !r ==> final(st).available_mask@ == old(st).available_mask@,
        !r ==> final(st).edge_usage_count@ == old(st).edge_usage_count@,
        !r ==> forall|p: BorderPair| #[trigger]
            final(st).mega_tile_edge_count.count_of(p)
                == old(st).mega_tile_edge_count.count_of(p),
        !r ==> final(st).mega_tile_edge_count.items@.len()
            == old(st).mega_tile_edge_count.items@.len(),
    decreases target - mega_tiles@.len(),
{
    let ghost ts = tile_set@;
    let ghost t0 = mega_tiles@;
    if !check_healthy_tileset(st, mega_tiles.len(), needed_sides_for_edges, total_edge_count) {
        return false;
    }
    let count = mega_tiles.len();
    if count == target {
        proof {
            assert(spec_healthy(
                *st,
                target as int,
                needed_sides_for_edges@,
                total_edge_count@,
            ));
        }
        return true;
    }
    let edge_type_usage_score = get_edge_type_usage_score(
        wanted_sides_for_hints,
        needed_sides_for_edges,
        &st.edge_usage_count,
        total_edge_count,
    );
    let seeds = get_valid_mega_tile_seeds(st, count, tile_lookup, tile_set, hinted);
    let sorted_by_score_mega_tiles = get_all_possible_megatiles_sorted_by_score(
        &seeds,
        st,
        count,
        tile_lookup,
        tile_set,
        &edge_type_usage_score,
        hinted,
    );
    let ghost st_in: Trackers = *st;
    let nc = sorted_by_score_mega_tiles.len();
    let mut ci: usize = 0;
    while ci < nc
        invariant
            ci <= nc,
            st.wf(),
            st.lists_in_sync(),
            st.available_mask@ == st_in.available_mask@,
            st.edge_usage_count@ == st_in.edge_usage_count@,
            forall|p: BorderPair| #[trigger]
                st.mega_tile_edge_count.count_of(p) == st_in.mega_tile_edge_count.count_of(p),
            st.mega_tile_edge_count.items@.len() == st_in.mega_tile_edge_count.items@.len(),
            mega_tiles@ == t0,
        decreases nc - ci,
    {
        let m = sorted_by_score_mega_tiles[ci];
        proof {
            assert(candidate_ok(m, st_in, ts, count as int, hinted));
        }
        mega_tiles.push(m);
        let ghost pre_add: Trackers = *st;
        st.add_mega_tile_to_trackers(&m);
        st.recalculate_paired_and_unpaired_counts();
        let ghost post_add: Trackers = *st;
        proof {
            let t1 = t0.push(m);
            assert(t1.len() == count + 1);
            assert forall|i: int| 0 <= i < t1.len() implies mt_wf(#[trigger] t1[i], ts) by {
                if i < t0.len() {
                    assert(t1[i] == t0[i]);
                } else {
                    assert(t1[i] == m);
                }
            }
            assert forall|a: int, b: int| 0 <= a < b < t1.len() implies mt_ids_disjoint(
                t1[a],
                t1[b],
            ) by {
                if b < t0.len() {
                    assert(t1[a] == t0[a] && t1[b] == t0[b]);
                } else {
                    assert(t1[b] == m && t1[a] == t0[a]);
                    let ma = t0[a];
                    assert(mt_wf(ma, ts));
                    assert forall|j: int|
                        0 <= j < 256 && mt_has_id(ma, j) implies !mt_has_id(m, j) by {
                        assert(st_in.available_mask@[j] == false);
                        if mt_has_id(m, j) {
                            if j == m.tile2.tile.id || j == m.tile3.tile.id || j
                                == m.tile4.tile.id {
                                assert(st_in.available_mask@[j] == true);
                            } else {
                                assert(j == m.tile1.tile.id);
                                if st_in.available_mask@[j] == true {
                                } else {
                                    if count == 0 && m.tile1.tile.id == 138 {
                                        assert(a < 0);
                                    } else if hinted && count == 45 && m.tile1.tile.id == 207 {
                                        assert(mt_has_id(t0[a], 207) ==> a == 45);
                                        assert(a < 45);
                                    } else if hinted && count == 46 && m.tile1.tile.id == 254 {
                                        assert(mt_has_id(t0[a], 254) ==> a == 46);
                                        assert(a < 46);
                                    } else if hinted && count == 47 && m.tile1.tile.id == 180 {
                                        assert(mt_has_id(t0[a], 180) ==> a == 47);
                                        assert(a < 47);
                                    } else {
                                        assert(hinted && count == 48 && m.tile1.tile.id == 248);
                                        assert(mt_has_id(t0[a], 248) ==> a == 48);
                                        assert(a < 48);
                                    }
                                }
                            }
                        }
                    }
                    assert(mt_ids_disjoint(ma, m)) by {
                        assert(0 <= ma.tile1.tile.id < 256 && mt_has_id(ma, ma.tile1.tile.id as int));
                        assert(0 <= ma.tile2.tile.id < 256 && mt_has_id(ma, ma.tile2.tile.id as int));
                        assert(0 <= ma.tile3.tile.id < 256 && mt_has_id(ma, ma.tile3.tile.id as int));
                        assert(0 <= ma.tile4.tile.id < 256 && mt_has_id(ma, ma.tile4.tile.id as int));
                    }
                }
            }
            assert(partition_wf(t1, ts));
            assert(used_masked(*st, t1)) by {
                assert forall|i: int, j: int|
                    0 <= i < t1.len() && 0 <= j < 256 && #[trigger] mt_has_id(t1[i], j) implies
                    st.available_mask@[j] == false by {
                    if i < t0.len() {
                        assert(t1[i] == t0[i]);
                        assert(st_in.available_mask@[j] == false);
                        assert(st.available_mask@[j] == (if mt_has_id(m, j) {
                            false
                        } else {
                            pre_add.available_mask@[j]
                        }));
                    } else {
                        assert(t1[i] == m);
                    }
                }
            }
            assert(pinned_out(*st, hinted)) by {
                assert forall|j: int|
                    0 <= j < 256 && spec_pinned(j, hinted) implies st.available_mask@[j]
                    == false by {
                    assert(st_in.available_mask@[j] == false);
                    assert(st.available_mask@[j] == (if mt_has_id(m, j) {
                        false
                    } else {
                        pre_add.available_mask@[j]
                    }));
                }
            }
            assert(hint_free(t1, hinted)) by {
                assert forall|i: int| 0 <= i < t1.len() implies ((mt_has_id(
                    #[trigger] t1[i],
                    138,
                ) ==> i == 0) && (hinted && mt_has_id(t1[i], 207) ==> i == 45) && (hinted
                    && mt_has_id(t1[i], 254) ==> i == 46) && (hinted && mt_has_id(t1[i], 180)
                    ==> i == 47) && (hinted && mt_has_id(t1[i], 248) ==> i == 48)) by {
                    if i < t0.len() {
                        assert(t1[i] == t0[i]);
                    } else {
                        assert(t1[i] == m && i == count);
                        if mt_has_id(m, 138) {
                            assert(spec_pinned(138, hinted));
                            assert(st_in.available_mask@[138] == false);
                            assert(m.tile2.tile.id != 138 && m.tile3.tile.id != 138
                                && m.tile4.tile.id != 138);
                            assert(m.tile1.tile.id == 138);
                            assert(count == 0);
                        }
                        if hinted && mt_has_id(m, 207) {
                            assert(spec_pinned(207, hinted));
                            assert(st_in.available_mask@[207] == false);
                            assert(m.tile1.tile.id == 207);
                            assert(count == 45);
                        }
                        if hinted && mt_has_id(m, 254) {
                            assert(spec_pinned(254, hinted));
                            assert(st_in.available_mask@[254] == false);
                            assert(m.tile1.tile.id == 254);
                            assert(count == 46);
                        }
                        if hinted && mt_has_id(m, 180) {
                            assert(spec_pinned(180, hinted));
                            assert(st_in.available_mask@[180] == false);
                            assert(m.tile1.tile.id == 180);
                            assert(count == 47);
                        }
                        if hinted && mt_has_id(m, 248) {
                            assert(spec_pinned(248, hinted));
                            assert(st_in.available_mask@[248] == false);
                            assert(m.tile1.tile.id == 248);
                            assert(count == 48);
                        }
                    }
                }
            }
            assert(counts_bounded(*st, t1.len() as int)) by {
                assert forall|p: BorderPair| #[trigger]
                    st.mega_tile_edge_count.count_of(p) <= 4 * t1.len() by {
                    assert(st_in.mega_tile_edge_count.count_of(p) <= 4 * count);
                    assert(pair_uses(m, p) <= 4);
                }
                assert(st.mega_tile_edge_count.items@.len() <= 4 * count + 4);
            }
            assert(builder_inv(*st, t1, ts, hinted));
            assert(mega_tiles@ == t1);
        }
        let ok = build_mega_tiles_recursive(
            st,
            mega_tiles,
            tile_lookup,
            tile_set,
            wanted_sides_for_hints,
            needed_sides_for_edges,
            total_edge_count,
            target,
            hinted,
        );
        if ok {
            proof {
                assert forall|i: int| 0 <= i < t0.len() implies mega_tiles@[i] == t0[i] by {
                    assert(mega_tiles@[i] == t0.push(m)[i]);
                }
                if t0.len() == 0 && target > 0 {
                    assert(mega_tiles@[0] == t0.push(m)[0]);
                    assert(mega_tiles@[0] == m);
                    assert(grown_candidate(
                        m,
                        seeds@,
                        *tile_lookup,
                        st_in.available_mask@,
                    ));
                    assert(seeds@.contains(m.tile1));
                    let k2 = choose|k2: int| 0 <= k2 < seeds@.len() && seeds@[k2] == m.tile1;
                    assert(seeds@ == seq![spec_new_ot(tile_set@, 138, 1)]);
                    assert(m.tile1 == spec_new_ot(tile_set@, 138, 1));
                }
            }
            return true;
        }
        let ghost pre_remove: Trackers = *st;
        proof {
            assert forall|p: BorderPair|
                pre_remove.mega_tile_edge_count.count_of(p) >= pair_uses(m, p) by {
                crate::trackers::lemma_pair_count_nonneg(st_in.mega_tile_edge_count, p);
            }
        }
        st.remove_mega_tiles_from_trackers(&m, hinted);
        st.recalculate_paired_and_unpaired_counts();
        mega_tiles.pop();
        proof {
            assert(commit_effect(st_in, pre_remove, m)) by {
                assert(pre_remove.available_mask@ == post_add.available_mask@);
                assert(pre_remove.edge_usage_count@ == post_add.edge_usage_count@);
            }
            assert(rollback_effect(pre_remove, *st, m, hinted));
            crate::trackers::lemma_commit_rollback_symmetry(st_in, pre_remove, *st, m, hinted);
            assert(mega_tiles@ =~= t0);
        }
        ci += 1;
    }
    false
}

/// Marks the four identities of one mega tile as used; reports failure if
/// any of them was already marked or occurs twice within the mega tile.
fn mark_tile_ids(used: &mut Vec<bool>, m: &MegaTile) -> (ok: bool)
    requires
        old(used)@.len() == 256,
        m.ids_in_range(),
    ensures
        final(used)@.len() == 256,
        ok ==> m.distinct_ids(),
        ok ==> forall|j: int| 0 <= j < 256 && mt_has_id(*m, j) ==> old(used)@[j] == false,
        ok ==> forall|j: int|
            0 <= j < 256 ==> final(used)@[j] == (old(used)@[j] || mt_has_id(*m, j)),
        !ok ==> !m.distinct_ids() || exists|j: int|
            0 <= j < 256 && mt_has_id(*m, j) && old(used)@[j] == true,
{
    let id1 = m.tile1.id();
    if used[id1] {
        proof {
            assert(mt_has_id(*m, id1 as int) && old(used)@[id1 as int] == true);
        }
        return false;
    }
    used.set(id1, true);
    let id2 = m.tile2.id();
    if used[id2] {
        proof {
            if id2 != id1 {
                assert(mt_has_id(*m, id2 as int) && old(used)@[id2 as int] == true);
            } else {
                assert(!m.distinct_ids());
            }
        }
        return false;
    }
    used.set(id2, true);
    let id3 = m.tile3.id();
    if used[id3] {
        proof {
            if id3 != id1 && id3 != id2 {
                assert(mt_has_id(*m, id3 as int) && old(used)@[id3 as int] == true);
            } else {
                assert(!m.distinct_ids());
            }
        }
        return false;
    }
    used.set(id3, true);
    let id4 = m.tile4.id();
    if used[id4] {
        proof {
            if id4 != id1 && id4 != id2 && id4 != id3 {
                assert(mt_has_id(*m, id4 as int) && old(used)@[id4 as int] == true);
            } else {
                assert(!m.distinct_ids());
            }
        }
        return false;
    }
    used.set(id4, true);
    true
}

/// No tile identity serves two places: each mega tile's four members are
/// distinct and no identity is shared between two mega tiles.
pub open spec fn all_slots_distinct(s: Seq<MegaTile>) -> bool {
    &&& forall|i: int| 0 <= i < s.len() ==> (#[trigger] s[i]).distinct_ids()
    &&& forall|a: int, b: int| 0 <= a < b < s.len() ==> mt_ids_disjoint(s[a], s[b])
}

/// Every member of every mega tile is an interior tile: its identity lies in
/// the interior band of the 256-tile universe.
pub open spec fn all_slots_interior(s: Seq<MegaTile>) -> bool {
    forall|i: int|
        0 <= i < s.len() ==> 60 <= (#[trigger] s[i]).tile1.tile.id < 256 && 60
            <= s[i].tile2.tile.id < 256 && 60 <= s[i].tile3.tile.id < 256 && 60
            <= s[i].tile4.tile.id < 256
}

/// The post-build self-check: confirms that every place of the committed set
/// is occupied by an interior tile identity and that no identity is used by
/// more than one place, so that a list of `T` mega tiles consumes exactly
/// `4 T` distinct interior identities (at the full 49-cluster target that is
/// every interior identity: see
/// `lemma_full_partition_uses_every_interior_id`). A failure here would mean
/// defective tracker bookkeeping, not an ordinary search failure.
#[verifier::loop_isolation(false)]
#[verifier::spinoff_prover]
pub fn verify_mega_tiles(mega_tiles: &Vec<MegaTile>) -> (r: bool)
    ensures
        r == (all_slots_interior(mega_tiles@) && all_slots_distinct(mega_tiles@)),
{
    let mut used: Vec<bool> = Vec::new();
    let mut j: usize = 0;
    while j < 256
        invariant
            j <= 256,
            used@.len() == j,
            forall|j2: int| 0 <= j2 < j ==> used@[j2] == false,
        decreases 256 - j,
    {
        used.push(false);
        j += 1;
    }
    let n = mega_tiles.len();
    let mut i: usize = 0;
    while i < n
        invariant
            i <= n,
            n == mega_tiles@.len(),
            used@.len() == 256,
            forall|j2: int|
                0 <= j2 < 256 ==> (used@[j2] <==> exists|i2: int|
                    0 <= i2 < i && mt_has_id(#[trigger] mega_tiles@[i2], j2)),
            forall|i2: int|
                0 <= i2 < i ==> 60 <= (#[trigger] mega_tiles@[i2]).tile1.tile.id < 256 && 60
                    <= mega_tiles@[i2].tile2.tile.id < 256 && 60 <= mega_tiles@[i2].tile3.tile.id
                    < 256 && 60 <= mega_tiles@[i2].tile4.tile.id < 256,
            forall|i2: int| 0 <= i2 < i ==> (#[trigger] mega_tiles@[i2]).distinct_ids(),
            forall|a: int, b: int|
                0 <= a < b < i ==> mt_ids_disjoint(mega_tiles@[a], mega_tiles@[b]),
        decreases n - i,
    {
        let ghost pre_used = used@;
        let m = mega_tiles[i];
        let id1 = m.tile1.id();
        let id2 = m.tile2.id();
        let id3 = m.tile3.id();
        let id4 = m.tile4.id();
        if id1 < 60 || id1 >= 256 || id2 < 60 || id2 >= 256 || id3 < 60 || id3 >= 256 || id4 < 60
            || id4 >= 256 {
            return false;
        }
        let ok = mark_tile_ids(&mut used, &m);
        if !ok {
            proof {
                if !m.distinct_ids() {
                } else {
                    let j2 = choose|j2: int|
                        0 <= j2 < 256 && mt_has_id(m, j2) && pre_used[j2] == true;
                    let i2 = choose|i2: int| 0 <= i2 < i && mt_has_id(mega_tiles@[i2], j2);
                    assert(!mt_ids_disjoint(mega_tiles@[i2], mega_tiles@[i as int])) by {
                        assert(mt_has_id(mega_tiles@[i as int], j2));
                        if j2 == m.tile1.tile.id {
                        } else if j2 == m.tile2.tile.id {
                        } else if j2 == m.tile3.tile.id {
                        } else {
                            assert(j2 == m.tile4.tile.id);
                        }
                    }
                }
            }
            return false;
        }
        proof {
            assert forall|j2: int|
                0 <= j2 < 256 implies (used@[j2] <==> exists|i2: int|
                0 <= i2 < i + 1 && mt_has_id(#[trigger] mega_tiles@[i2], j2)) by {
                assert(used@[j2] == (pre_used[j2] || mt_has_id(m, j2)));
                if used@[j2] {
                    if pre_used[j2] {
                        let i2 = choose|i2: int| 0 <= i2 < i && mt_has_id(mega_tiles@[i2], j2);
                        assert(mt_has_id(mega_tiles@[i2], j2));
                    } else {
                        assert(mt_has_id(mega_tiles@[i as int], j2));
                    }
                } else {
                    assert forall|i2: int|
                        0 <= i2 < i + 1 implies !mt_has_id(#[trigger] mega_tiles@[i2], j2) by {
                        if i2 < i {
                            assert(pre_used[j2] || !mt_has_id(mega_tiles@[i2], j2));
                        } else {
                            assert(mega_tiles@[i2] == m);
                        }
                    }
                }
            }
            assert forall|a: int, b: int| 0 <= a < b < i + 1 implies mt_ids_disjoint(
                mega_tiles@[a],
                mega_tiles@[b],
            ) by {
                if b == i {
                    let ma = mega_tiles@[a];
                    assert forall|j2: int|
                        0 <= j2 < 256 && mt_has_id(ma, j2) implies !mt_has_id(m, j2) by {
                        assert(pre_used[j2] == true);
                    }
                    assert(mt_has_id(ma, ma.tile1.tile.id as int));
                    assert(mt_has_id(ma, ma.tile2.tile.id as int));
                    assert(mt_has_id(ma, ma.tile3.tile.id as int));
                    assert(mt_has_id(ma, ma.tile4.tile.id as int));
                }
            }
        }
        i += 1;
    }
    true
}

/// The interior identity `j` occupies some place of the partition.
pub open spec fn interior_id_used(s: Seq<MegaTile>, j: int) -> bool {
    exists|n: int| 0 <= n < 4 * s.len() && #[trigger] slot_id(s, n) == j
}

/// At the full 49-cluster target the self-checked partition is not only
/// disjoint but complete: its 196 distinct interior identities are, by
/// counting, every identity in the interior band.
pub proof fn lemma_full_partition_uses_every_interior_id(s: Seq<MegaTile>, ts: Seq<Tile>)
    requires
        partition_wf(s, ts),
        s.len() == 49,
    ensures
        forall|j: int| 60 <= j < 256 ==> #[trigger] interior_id_used(s, j),
{
    broadcast use vstd::seq_lib::seq_to_set_is_finite;
    broadcast use vstd::set::group_set_axioms;

    lemma_partition_completeness(s, ts);
    let q = Seq::new(196, |n: int| slot_id(s, n));
    assert(q.no_duplicates()) by {
        assert forall|a: int, b: int| 0 <= a < b < 196 implies q[a] != q[b] by {
            assert(slot_id(s, a) != slot_id(s, b));
        }
    }
    q.unique_seq_to_set();
    let range = vstd::set_lib::set_int_range(60, 256);
    vstd::set_lib::lemma_int_range(60, 256);
    assert forall|j: int| 60 <= j < 256 implies #[trigger] interior_id_used(s, j) by {
        if !q.to_set().contains(j) {
            assert(q.to_set().subset_of(range.remove(j))) by {
                assert forall|v: int| q.to_set().contains(v) implies range.remove(j).contains(
                    v,
                ) by {
                    let n = choose|n: int| 0 <= n < q.len() && q[n] == v;
                    assert(60 <= slot_id(s, n) < 256);
                }
            }
            assert(range.remove(j).len() == 195);
            vstd::set_lib::lemma_len_subset(q.to_set(), range.remove(j));
            assert(false);
        }
        let n = choose|n: int| 0 <= n < q.len() && q[n] == j;
        assert(slot_id(s, n) == j);
    }
}

/// Sets up a fresh search and runs it: builds the per-label statistics and
/// the interior adjacency index over the catalog, pins the starter and hint
/// tiles, and lets the recursive search commit mega tiles until `target` are
/// standing. The returned list is either a full well-formed partition of the
/// requested size or empty.
pub fn generate_initial_mega_tiles(tile_set: &[Tile], target: usize, hinted: bool) -> (r: Vec<
    MegaTile,
>)
    requires
        catalog_wf(tile_set@),
        crate::counts::catalog_countable(tile_set@),
        target <= 49,
    ensures
        partition_wf(r@, tile_set@),
        r@.len() == 0 || r@.len() == target,
        r@.len() > 0 ==> r@[0].tile1 == spec_new_ot(tile_set@, 138, 1),
{
    let total_edge_count = crate::counts::count_tile_types(tile_set, true, true, true, true);
    let wanted_sides_for_hints = crate::counts::generate_wanted_hint_sides(tile_set);
    let needed_sides_for_edges = crate::counts::count_tile_types(tile_set, true, true, false, true);
    let tile_lookup = crate::index::build_indices(tile_set, 60);
    let mut st = Trackers::new(hinted);
    let mut mega_tiles: Vec<MegaTile> = Vec::new();
    proof {
        assert forall|i: int| 0 <= i < 22 implies -10000 <= #[trigger] total_edge_count@[i]
            <= 10000 by {
            crate::counts::lemma_side_count_bounds(tile_set@, i as i8, true, true, true);
        }
        assert forall|i: int| 0 <= i < 22 implies -10000 <= #[trigger] needed_sides_for_edges@[i]
            <= 10000 by {
            crate::counts::lemma_side_count_bounds(tile_set@, i as i8, true, true, false);
        }
        assert forall|i: int| 0 <= i < 22 implies -10000 <= #[trigger] wanted_sides_for_hints@[i]
            <= 10000 by {}
        assert(builder_inv(st, mega_tiles@, tile_set@, hinted));
    }
    let ok = build_mega_tiles_recursive(
        &mut st,
        &mut mega_tiles,
        &tile_lookup,
        tile_set,
        &wanted_sides_for_hints,
        &needed_sides_for_edges,
        &total_edge_count,
        target,
        hinted,
    );
    proof {
        if !ok {
            assert(mega_tiles@.len() == 0);
        }
    }
    mega_tiles
}

/// Why a build attempt returned no partition.
#[derive(Copy, Clone, PartialEq, Eq, Structural, Debug)]
pub enum BuildError {
    /// The pruned search space was exhausted without reaching the target:
    /// an expected heuristic outcome, not a defect.
    NoSolution,
    /// The post-build self-check found a tile identity used more than once:
    /// defective bookkeeping, never an ordinary search result.
    InvariantViolation,
}

/// Builds a partition of `target` disjoint mega tiles over the catalog's
/// interior tiles and self-checks it. On success exactly `target` mega
/// tiles come back, internally consistent and pairwise disjoint; heuristic
/// exhaustion comes back as the no-solution error.
pub fn create_mega_tiles(tile_set: &[Tile], target: usize, hinted: bool) -> (r: Result<
    Vec<MegaTile>,
    BuildError,
>)
    requires
        catalog_wf(tile_set@),
        crate::counts::catalog_countable(tile_set@),
        target <= 49,
    ensures
        match r {
            Ok(v) => {
                &&& v@.len() == target
                &&& partition_wf(v@, tile_set@)
                &&& target > 0 ==> v@[0].tile1 == spec_new_ot(tile_set@, 138, 1)
            },
            Err(e) => e == BuildError::NoSolution,
        },
{
    let mega_tiles = generate_initial_mega_tiles(tile_set, target, hinted);
    if mega_tiles.len() != target {
        return Err(BuildError::NoSolution);
    }
    proof {
        assert forall|i: int| 0 <= i < mega_tiles@.len() implies 60 <= (
        #[trigger] mega_tiles@[i]).tile1.tile.id < 256 && 60 <= mega_tiles@[i].tile2.tile.id < 256
            && 60 <= mega_tiles@[i].tile3.tile.id < 256 && 60 <= mega_tiles@[i].tile4.tile.id
            < 256 by {
            assert(mt_wf(mega_tiles@[i], tile_set@));
        }
    }
    if !verify_mega_tiles(&mega_tiles) {
        return Err(BuildError::InvariantViolation);
    }
    Ok(mega_tiles)
}

/// Every mega tile of a well-formed partition satisfies the four internal
/// adjacency equalities: the right side of its top-left member meets the
/// left side of its top-right member, and so on around the cluster.
pub proof fn lemma_committed_internally_consistent(s: Seq<MegaTile>, ts: Seq<Tile>, i: int)
    requires
        partition_wf(s, ts),
        0 <= i < s.len(),
    ensures
        s[i].internally_consistent(),
{
}

/// The identity sitting in slot `n` of a partition, the slots being counted
/// four per mega tile.
pub open spec fn slot_id(s: Seq<MegaTile>, n: int) -> int {
    let m = s[n / 4];
    if n % 4 == 0 {
        m.tile1.tile.id as int
    } else if n % 4 == 1 {
        m.tile2.tile.id as int
    } else if n % 4 == 2 {
        m.tile3.tile.id as int
    } else {
        m.tile4.tile.id as int
    }
}

/// Completeness of a successful build with target `T`: the partition uses
/// exactly `4 T` tile identities, all interior ones, and no identity twice.
pub proof fn lemma_partition_completeness(s: Seq<MegaTile>, ts: Seq<Tile>)
    requires
        partition_wf(s, ts),
    ensures
        forall|n: int| 0 <= n < 4 * s.len() ==> 60 <= #[trigger] slot_id(s, n) < 256,
        forall|a: int, b: int|
            0 <= a < b < 4 * s.len() ==> #[trigger] slot_id(s, a) != #[trigger] slot_id(s, b),
{
    assert forall|n: int| 0 <= n < 4 * s.len() implies 60 <= #[trigger] slot_id(s, n) < 256 by {
        assert(0 <= n / 4 < s.len());
        assert(mt_wf(s[n / 4], ts));
    }
    assert forall|a: int, b: int|
        0 <= a < b < 4 * s.len() implies #[trigger] slot_id(s, a) != #[trigger] slot_id(s, b) by {
        let i1 = a / 4;
        let i2 = b / 4;
        assert(0 <= i1 < s.len());
        assert(0 <= i2 < s.len());
        assert(i1 <= i2);
        if i1 == i2 {
            assert(a % 4 != b % 4);
            assert(s[i1].distinct_ids()) by {
                assert(mt_wf(s[i1], ts));
            }
        } else {
            assert(mt_ids_disjoint(s[i1], s[i2]));
            assert(mt_has_id(s[i2], slot_id(s, b)));
            assert(!mt_has_id(s[i2], slot_id(s, a))) by {
                assert(slot_id(s, a) == s[i1].tile1.tile.id || slot_id(s, a)
                    == s[i1].tile2.tile.id || slot_id(s, a) == s[i1].tile3.tile.id || slot_id(s, a)
                    == s[i1].tile4.tile.id);
            }
        }
    }
}

} // verus!
