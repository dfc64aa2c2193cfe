//! The adjacency index: every oriented tile of a catalog, registered under
//! every constraint tuple it satisfies. A constraint tuple names the four
//! wanted sides `(top, right, bottom, left)`, each either a concrete label or
//! the wildcard sentinel; a query returns all oriented tiles whose concrete
//! sides agree with the non-wildcard positions.

use vstd::prelude::*;

use crate::tile::{ot_bottom, ot_left, ot_right, ot_top, OrientedTile, Tile};

verus! {

/// A constraint tuple: wanted top, right, bottom and left sides, `-1` being
/// the wildcard.
pub type SideKey = (i8, i8, i8, i8);

/// One position of a constraint tuple is satisfied: it is the wildcard or it
/// names the side exactly.
pub open spec fn side_matches(key_side: i8, tile_side: i8) -> bool {
    key_side == -1 || key_side == tile_side
}

/// An oriented tile satisfies a constraint tuple on all four sides.
pub open spec fn key_matches(k: SideKey, ot: OrientedTile) -> bool {
    &&& side_matches(k.0, ot_top(ot))
    &&& side_matches(k.1, ot_right(ot))
    &&& side_matches(k.2, ot_bottom(ot))
    &&& side_matches(k.3, ot_left(ot))
}

/// A key/tile registration is present in a sequence of index entries.
pub open spec fn seq_has(s: Seq<(SideKey, OrientedTile)>, k: SideKey, ot: OrientedTile) -> bool {
    exists|j: int| 0 <= j < s.len() && s[j] == (k, ot)
}

/// A registration once present stays present when more entries follow.
proof fn lemma_seq_has_extend(
    s1: Seq<(SideKey, OrientedTile)>,
    s2: Seq<(SideKey, OrientedTile)>,
    k: SideKey,
    ot: OrientedTile,
)
    requires
        seq_has(s1, k, ot),
        s1.len() <= s2.len(),
        forall|j: int| 0 <= j < s1.len() ==> s2[j] == s1[j],
    ensures
        seq_has(s2, k, ot),
{
    let j = choose|j: int| 0 <= j < s1.len() && s1[j] == (k, ot);
    assert(s2[j] == (k, ot));
}

/// One entry is well formed for a catalog: its oriented tile comes from the
/// catalog at or after `skip_n`, carries a valid rotation, and satisfies the
/// constraint tuple it is registered under.
pub open spec fn entry_valid(
    e: (SideKey, OrientedTile),
    ts: Seq<Tile>,
    skip_n: int,
) -> bool {
    exists|i: int|
        skip_n <= i < ts.len() && e.1.tile == ts[i] && e.1.orientation < 4 && key_matches(e.0, e.1)
}

/// The adjacency index over a tile catalog.
pub struct TileIndex {
    pub entries: Vec<(SideKey, OrientedTile)>,
}

impl TileIndex {
    /// The registration `(k, ot)` is present.
    pub open spec fn has(self, k: SideKey, ot: OrientedTile) -> bool {
        seq_has(self.entries@, k, ot)
    }

    /// The index holds exactly the oriented tiles of `ts` from position
    /// `skip_n` on, each under exactly the constraint tuples it satisfies.
    pub open spec fn indexes(self, ts: Seq<Tile>, skip_n: int) -> bool {
        forall|k: SideKey, ot: OrientedTile|
            #[trigger] self.has(k, ot) <==> entry_valid((k, ot), ts, skip_n)
    }

    /// All oriented tiles registered under the constraint tuple `k`.
    ///
    /// An absent tuple simply yields an empty answer: it means "no tile
    /// satisfies this constraint", not an error.
    pub fn get(&self, k: SideKey) -> (r: Vec<OrientedTile>)
        ensures
            forall|ot: OrientedTile| #[trigger] r@.contains(ot) <==> self.has(k, ot),
    {
        let mut r: Vec<OrientedTile> = Vec::new();
        let n = self.entries.len();
        let mut j: usize = 0;
        while j < n
            invariant
                j <= n,
                n == self.entries@.len(),
                forall|ot: OrientedTile| #[trigger] r@.contains(ot) <==> exists|j2: int|
                    0 <= j2 < j && self.entries@[j2] == (k, ot),
            decreases n - j,
        {
            let e = self.entries[j];
            if e.0.0 == k.0 && e.0.1 == k.1 && e.0.2 == k.2 && e.0.3 == k.3 {
                let ghost old_r = r@;
                r.push(e.1);
                proof {
                    assert(self.entries@[j as int] == (k, e.1));
                    assert forall|ot: OrientedTile| #[trigger] r@.contains(ot) implies exists|
                        j2: int,
                    | 0 <= j2 < j + 1 && self.entries@[j2] == (k, ot) by {
                        if ot == e.1 {
                            assert(self.entries@[j as int] == (k, ot));
                        } else {
                            let i2 = choose|i2: int| 0 <= i2 < r@.len() && r@[i2] == ot;
                            assert(old_r[i2] == ot);
                            assert(old_r.contains(ot));
                        }
                    }
                    assert forall|ot: OrientedTile|
                        (exists|j2: int| 0 <= j2 < j + 1 && self.entries@[j2] == (k, ot)) implies #[trigger] r@.contains(ot) by {
                        let j2 = choose|j2: int|
                            0 <= j2 < j + 1 && self.entries@[j2] == (k, ot);
                        if j2 < j {
                            assert(old_r.contains(ot));
                            let i2 = choose|i2: int| 0 <= i2 < old_r.len() && old_r[i2] == ot;
                            assert(r@[i2] == ot);
                        } else {
                            assert(r@[r@.len() - 1] == ot);
                        }
                    }
                }
            } else {
                proof {
                    assert(self.entries@[j as int] != (k, e.1));
                    assert forall|ot: OrientedTile|
                        (exists|j2: int| 0 <= j2 < j + 1 && self.entries@[j2] == (k, ot)) implies #[trigger] r@.contains(ot) by {
                        let j2 = choose|j2: int|
                            0 <= j2 < j + 1 && self.entries@[j2] == (k, ot);
                        assert(j2 < j);
                    }
                }
            }
            j += 1;
        }
        r
    }
}

/// Registers one oriented tile under all sixteen wildcard combinations of its
/// four rotated sides.
fn push_all_masks(entries: &mut Vec<(SideKey, OrientedTile)>, ot: OrientedTile)
    requires
        ot.rotatable(),
    ensures
        final(entries)@.len() == old(entries)@.len() + 16,
        forall|j: int| 0 <= j < old(entries)@.len()
            ==> final(entries)@[j] == old(entries)@[j],
        forall|j: int| old(entries)@.len() <= j < final(entries)@.len()
            ==> (#[trigger] final(entries)@[j]).1 == ot && key_matches(final(entries)@[j].0, ot),
        forall|k: SideKey| key_matches(k, ot) ==> seq_has(final(entries)@, k, ot),
{
    let t = ot.top();
    let r = ot.right();
    let b = ot.bottom();
    let l = ot.left();
    let ghost base = entries@.len() as int;
    entries.push(((t, r, b, l), ot));
    entries.push(((-1, r, b, l), ot));
    entries.push(((t, -1, b, l), ot));
    entries.push(((-1, -1, b, l), ot));
    entries.push(((t, r, -1, l), ot));
    entries.push(((-1, r, -1, l), ot));
    entries.push(((t, -1, -1, l), ot));
    entries.push(((-1, -1, -1, l), ot));
    entries.push(((t, r, b, -1), ot));
    entries.push(((-1, r, b, -1), ot));
    entries.push(((t, -1, b, -1), ot));
    entries.push(((-1, -1, b, -1), ot));
    entries.push(((t, r, -1, -1), ot));
    entries.push(((-1, r, -1, -1), ot));
    entries.push(((t, -1, -1, -1), ot));
    entries.push(((-1, -1, -1, -1), ot));
    proof {
        assert forall|k: SideKey| key_matches(k, ot) implies seq_has(entries@, k, ot) by {
            let off: int = (if k.0 == -1 { 1int } else { 0int }) + (if k.1 == -1 {
                2int
            } else {
                0int
            }) + (if k.2 == -1 { 4int } else { 0int }) + (if k.3 == -1 { 8int } else { 0int });
            assert(entries@[base + off] == (k, ot));
        }
    }
}

/// Builds the adjacency index over a catalog, leaving out its first `skip_n`
/// entries. Every remaining tile is registered in all four rotations under
/// each wildcard combination of its rotated sides, so that a later query by
/// any partially known neighbourhood finds it.
pub fn build_indices(tile_set: &[Tile], skip_n: usize) -> (r: TileIndex)
    ensures
        r.indexes(tile_set@, skip_n as int),
{
    let mut entries: Vec<(SideKey, OrientedTile)> = Vec::new();
    let n = tile_set.len();
    let mut i: usize = skip_n;
    while i < n
        invariant
            skip_n <= i,
            i <= n || i == skip_n,
            n == tile_set@.len(),
            forall|j: int| 0 <= j < entries@.len() ==> entry_valid(
                #[trigger] entries@[j],
                tile_set@,
                skip_n as int,
            ),
            forall|k: SideKey, ot: OrientedTile|
                (exists|i2: int|
                    skip_n <= i2 < i && ot.tile == tile_set@[i2] && ot.orientation < 4
                        && key_matches(k, ot)) ==> #[trigger] seq_has(entries@, k, ot),
        decreases n - i,
    {
        let mut o: u8 = 0;
        while o < 4
            invariant
                o <= 4,
                skip_n <= i < n,
                n == tile_set@.len(),
                forall|j: int| 0 <= j < entries@.len() ==> entry_valid(
                    #[trigger] entries@[j],
                    tile_set@,
                    skip_n as int,
                ),
                forall|k: SideKey, ot: OrientedTile|
                    (exists|i2: int|
                        skip_n <= i2 < i && ot.tile == tile_set@[i2] && ot.orientation < 4
                            && key_matches(k, ot)) ==> #[trigger] seq_has(entries@, k, ot),
                forall|k: SideKey, ot: OrientedTile|
                    (ot.tile == tile_set@[i as int] && ot.orientation < o && key_matches(k, ot))
                        ==> #[trigger] seq_has(entries@, k, ot),
            decreases 4 - o,
        {
            let ot = OrientedTile { tile: tile_set[i], orientation: o };
            let ghost pre = entries@;
            push_all_masks(&mut entries, ot);
            proof {
                assert forall|k: SideKey, ot2: OrientedTile|
                    seq_has(pre, k, ot2) implies #[trigger] seq_has(entries@, k, ot2) by {
                    lemma_seq_has_extend(pre, entries@, k, ot2);
                }
                assert forall|j: int| 0 <= j < entries@.len() implies entry_valid(
                    #[trigger] entries@[j],
                    tile_set@,
                    skip_n as int,
                ) by {
                    if j >= pre.len() {
                        assert(entries@[j].1 == ot && key_matches(entries@[j].0, ot));
                        assert(ot.tile == tile_set@[i as int]);
                    }
                }
                assert forall|k: SideKey, ot2: OrientedTile|
                    (ot2.tile == tile_set@[i as int] && ot2.orientation < o + 1 && key_matches(
                        k,
                        ot2,
                    )) implies #[trigger] seq_has(entries@, k, ot2) by {
                    if ot2.orientation == o {
                        assert(ot2 == ot);
                    } else {
                        assert(seq_has(pre, k, ot2));
                        lemma_seq_has_extend(pre, entries@, k, ot2);
                    }
                }
            }
            o += 1;
        }
        i += 1;
        proof {
            assert forall|k: SideKey, ot: OrientedTile|
                (exists|i2: int|
                    skip_n <= i2 < i && ot.tile == tile_set@[i2] && ot.orientation < 4
                        && key_matches(k, ot)) implies #[trigger] seq_has(entries@, k, ot) by {
                let i2 = choose|i2: int|
                    skip_n <= i2 < i && ot.tile == tile_set@[i2] && ot.orientation < 4
                        && key_matches(k, ot);
                if i2 < i - 1 {
                    assert(seq_has(entries@, k, ot));
                }
            }
        }
    }
    let r = TileIndex { entries };
    proof {
        assert forall|k: SideKey, ot: OrientedTile| #[trigger]
            r.has(k, ot) implies entry_valid((k, ot), tile_set@, skip_n as int) by {
            let j = choose|j: int| 0 <= j < r.entries@.len() && r.entries@[j] == (k, ot);
            assert(entry_valid(r.entries@[j], tile_set@, skip_n as int));
        }
        assert forall|k: SideKey, ot: OrientedTile|
            entry_valid((k, ot), tile_set@, skip_n as int) implies #[trigger] r.has(k, ot) by {
            let i2 = choose|i2: int|
                skip_n <= i2 < tile_set@.len() && ot.tile == tile_set@[i2] && ot.orientation < 4
                    && key_matches(k, ot);
        }
    }
    r
}

/// For any oriented tile taken from the indexed part of the catalog, the
/// query made of its four exact rotated sides finds it.
pub proof fn lemma_index_exact_query(
    idx: TileIndex,
    ts: Seq<Tile>,
    skip_n: int,
    ot: OrientedTile,
    i: int,
)
    requires
        idx.indexes(ts, skip_n),
        skip_n <= i < ts.len(),
        ot.tile == ts[i],
        ot.orientation < 4,
    ensures
        idx.has((ot_top(ot), ot_right(ot), ot_bottom(ot), ot_left(ot)), ot),
{
    let k = (ot_top(ot), ot_right(ot), ot_bottom(ot), ot_left(ot));
    assert(key_matches(k, ot));
    assert(entry_valid((k, ot), ts, skip_n));
}

/// Masking any subset of a query's sides with the wildcard can only widen the
/// answer: whatever the exact query holds, the masked one holds too.
pub proof fn lemma_index_mask_superset(
    idx: TileIndex,
    ts: Seq<Tile>,
    skip_n: int,
    k: SideKey,
    km: SideKey,
)
    requires
        idx.indexes(ts, skip_n),
        km.0 == -1 || km.0 == k.0,
        km.1 == -1 || km.1 == k.1,
        km.2 == -1 || km.2 == k.2,
        km.3 == -1 || km.3 == k.3,
    ensures
        forall|ot: OrientedTile| #[trigger] idx.has(k, ot) ==> idx.has(km, ot),
{
    assert forall|ot: OrientedTile| #[trigger] idx.has(k, ot) implies idx.has(km, ot) by {
        assert(entry_valid((k, ot), ts, skip_n));
        let i = choose|i: int|
            skip_n <= i < ts.len() && ot.tile == ts[i] && ot.orientation < 4 && key_matches(k, ot);
        assert(key_matches(km, ot));
        assert(entry_valid((km, ot), ts, skip_n));
    }
}

} // verus!
