//! The tile model: a tile with four labelled sides, an oriented tile (a tile
//! together with one of four clockwise quarter-turn rotations), and a 2x2
//! cluster of oriented tiles (a mega tile) with its four aggregate borders.

use vstd::prelude::*;

verus! {

/// One puzzle piece: four side labels and an identity that is unique within
/// the catalog it belongs to.
#[derive(Copy, Clone, PartialEq, Eq, Structural, Debug)]
pub struct Tile {
    pub top: i8,
    pub right: i8,
    pub bottom: i8,
    pub left: i8,
    pub id: usize,
}

/// A tile together with a rotation: clockwise, `0` = as printed, `1` = a
/// quarter turn, `2` = a half turn, `3` = three quarter turns.
#[derive(Copy, Clone, PartialEq, Eq, Structural, Debug)]
pub struct OrientedTile {
    pub tile: Tile,
    pub orientation: u8,
}

/// The sides of `t` after `o` clockwise quarter turns: each turn moves the
/// old left side to the top. The identity is kept.
pub open spec fn spec_rotated(t: Tile, o: int) -> Tile {
    if o == 1 {
        Tile { top: t.left, right: t.top, bottom: t.right, left: t.bottom, id: t.id }
    } else if o == 2 {
        Tile { top: t.bottom, right: t.left, bottom: t.top, left: t.right, id: t.id }
    } else if o == 3 {
        Tile { top: t.right, right: t.bottom, bottom: t.left, left: t.top, id: t.id }
    } else {
        t
    }
}

/// The top side of an oriented tile, as a spec-level shorthand.
pub open spec fn ot_top(ot: OrientedTile) -> i8 {
    spec_rotated(ot.tile, ot.orientation as int).top
}

/// The right side of an oriented tile, as a spec-level shorthand.
pub open spec fn ot_right(ot: OrientedTile) -> i8 {
    spec_rotated(ot.tile, ot.orientation as int).right
}

/// The bottom side of an oriented tile, as a spec-level shorthand.
pub open spec fn ot_bottom(ot: OrientedTile) -> i8 {
    spec_rotated(ot.tile, ot.orientation as int).bottom
}

/// The left side of an oriented tile, as a spec-level shorthand.
pub open spec fn ot_left(ot: OrientedTile) -> i8 {
    spec_rotated(ot.tile, ot.orientation as int).left
}

impl OrientedTile {
    /// The rotation is one of the four quarter turns.
    pub open spec fn rotatable(self) -> bool {
        self.orientation < 4
    }

    /// The base tile with its sides permuted according to the rotation.
    pub fn tile_as_rotated(&self) -> (r: Tile)
        requires
            self.rotatable(),
        ensures
            r == spec_rotated(self.tile, self.orientation as int),
    {
        match self.orientation {
            0 => self.tile,
            1 => Tile {
                top: self.tile.left,
                right: self.tile.top,
                bottom: self.tile.right,
                left: self.tile.bottom,
                id: self.tile.id,
            },
            2 => Tile {
                top: self.tile.bottom,
                right: self.tile.left,
                bottom: self.tile.top,
                left: self.tile.right,
                id: self.tile.id,
            },
            _ => Tile {
                top: self.tile.right,
                right: self.tile.bottom,
                bottom: self.tile.left,
                left: self.tile.top,
                id: self.tile.id,
            },
        }
    }

    /// The top side after rotation.
    pub fn top(&self) -> (r: i8)
        requires
            self.rotatable(),
        ensures
            r == ot_top(*self),
    {
        self.tile_as_rotated().top
    }

    /// The right side after rotation.
    pub fn right(&self) -> (r: i8)
        requires
            self.rotatable(),
        ensures
            r == ot_right(*self),
    {
        self.tile_as_rotated().right
    }

    /// The bottom side after rotation.
    pub fn bottom(&self) -> (r: i8)
        requires
            self.rotatable(),
        ensures
            r == ot_bottom(*self),
    {
        self.tile_as_rotated().bottom
    }

    /// The left side after rotation.
    pub fn left(&self) -> (r: i8)
        requires
            self.rotatable(),
        ensures
            r == ot_left(*self),
    {
        self.tile_as_rotated().left
    }

    /// The identity of the underlying tile; rotation never changes it.
    pub fn id(&self) -> (r: usize)
        ensures
            r == self.tile.id,
    {
        self.tile.id
    }

    /// Looks the tile up in a catalog and pairs it with a rotation.
    pub fn new(tile_id: usize, tileset: &[Tile], orientation: u8) -> (r: OrientedTile)
        requires
            tile_id < tileset.len(),
        ensures
            r.tile == tileset@[tile_id as int],
            r.orientation == orientation,
    {
        OrientedTile { tile: tileset[tile_id], orientation }
    }
}

/// All four printed sides of a tile carry a concrete label of the alphabet.
pub open spec fn tile_sides_in_range(t: Tile) -> bool {
    &&& 0 <= t.top < 22
    &&& 0 <= t.right < 22
    &&& 0 <= t.bottom < 22
    &&& 0 <= t.left < 22
}

/// A well-formed full catalog: 256 tiles, each carrying its own position as
/// its identity, and every interior tile (position 60 on; the first 60 are
/// the corner and edge tiles of the rim) free of sentinel sides.
pub open spec fn catalog_wf(ts: Seq<Tile>) -> bool {
    &&& ts.len() == 256
    &&& forall|i: int| 0 <= i < ts.len() ==> (#[trigger] ts[i]).id == i
    &&& forall|i: int| 60 <= i < ts.len() ==> tile_sides_in_range(#[trigger] ts[i])
}

/// All four rotated sides of an oriented tile carry a concrete label of the
/// alphabet: no sentinel anywhere.
pub open spec fn ot_sides_in_range(ot: OrientedTile) -> bool {
    &&& 0 <= ot_top(ot) < 22
    &&& 0 <= ot_right(ot) < 22
    &&& 0 <= ot_bottom(ot) < 22
    &&& 0 <= ot_left(ot) < 22
}

/// Rotating by `r` quarter turns and then by `(4 - r) % 4` more returns every
/// side to its printed place; rotating by zero turns changes nothing.
pub proof fn lemma_rotation_roundtrip(t: Tile, r: u8)
    requires
        r < 4,
    ensures
        spec_rotated(spec_rotated(t, r as int), ((4 - r) % 4) as int) == t,
        spec_rotated(t, 0) == t,
{
}

/// A 2x2 cluster of oriented tiles, laid out as
/// `tile1 tile2` over `tile3 tile4` (top-left, top-right, bottom-left,
/// bottom-right).
#[derive(Copy, Clone, PartialEq, Eq, Structural, Debug)]
pub struct MegaTile {
    pub tile1: OrientedTile,
    pub tile2: OrientedTile,
    pub tile3: OrientedTile,
    pub tile4: OrientedTile,
}

impl MegaTile {
    /// All four members carry a valid rotation.
    pub open spec fn rotatable(self) -> bool {
        self.tile1.rotatable() && self.tile2.rotatable() && self.tile3.rotatable()
            && self.tile4.rotatable()
    }

    /// The four internal adjacencies of the cluster match exactly.
    pub open spec fn internally_consistent(self) -> bool {
        &&& ot_right(self.tile1) == ot_left(self.tile2)
        &&& ot_bottom(self.tile1) == ot_top(self.tile3)
        &&& ot_bottom(self.tile2) == ot_top(self.tile4)
        &&& ot_right(self.tile3) == ot_left(self.tile4)
    }

    /// The four member tiles have pairwise distinct identities.
    pub open spec fn distinct_ids(self) -> bool {
        &&& self.tile1.tile.id != self.tile2.tile.id
        &&& self.tile1.tile.id != self.tile3.tile.id
        &&& self.tile1.tile.id != self.tile4.tile.id
        &&& self.tile2.tile.id != self.tile3.tile.id
        &&& self.tile2.tile.id != self.tile4.tile.id
        &&& self.tile3.tile.id != self.tile4.tile.id
    }

    /// All sixteen rotated sides of the members carry concrete labels.
    pub open spec fn sides_in_range(self) -> bool {
        &&& ot_sides_in_range(self.tile1)
        &&& ot_sides_in_range(self.tile2)
        &&& ot_sides_in_range(self.tile3)
        &&& ot_sides_in_range(self.tile4)
    }

    /// All four member identities fit the fixed universe of 256 tiles.
    pub open spec fn ids_in_range(self) -> bool {
        &&& self.tile1.tile.id < 256
        &&& self.tile2.tile.id < 256
        &&& self.tile3.tile.id < 256
        &&& self.tile4.tile.id < 256
    }

    /// The aggregate top border, read left to right.
    pub open spec fn spec_top(self) -> (i8, i8) {
        (ot_top(self.tile1), ot_top(self.tile2))
    }

    /// The aggregate right border, read top to bottom.
    pub open spec fn spec_right(self) -> (i8, i8) {
        (ot_right(self.tile2), ot_right(self.tile4))
    }

    /// The aggregate bottom border, read left to right.
    pub open spec fn spec_bottom(self) -> (i8, i8) {
        (ot_bottom(self.tile3), ot_bottom(self.tile4))
    }

    /// The aggregate left border, read top to bottom.
    pub open spec fn spec_left(self) -> (i8, i8) {
        (ot_left(self.tile1), ot_left(self.tile3))
    }

    /// The aggregate top border: the top sides of the two upper tiles.
    pub fn top(&self) -> (r: (i8, i8))
        requires
            self.rotatable(),
        ensures
            r == self.spec_top(),
    {
        (self.tile1.top(), self.tile2.top())
    }

    /// The aggregate right border: the right sides of the two right tiles.
    pub fn right(&self) -> (r: (i8, i8))
        requires
            self.rotatable(),
        ensures
            r == self.spec_right(),
    {
        (self.tile2.right(), self.tile4.right())
    }

    /// The aggregate bottom border: the bottom sides of the two lower tiles.
    pub fn bottom(&self) -> (r: (i8, i8))
        requires
            self.rotatable(),
        ensures
            r == self.spec_bottom(),
    {
        (self.tile3.bottom(), self.tile4.bottom())
    }

    /// The aggregate left border: the left sides of the two left tiles.
    pub fn left(&self) -> (r: (i8, i8))
        requires
            self.rotatable(),
        ensures
            r == self.spec_left(),
    {
        (self.tile1.left(), self.tile3.left())
    }
}

} // verus!
