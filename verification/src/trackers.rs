//! The shared search state of the mega-tile builder: the tile availability
//! mask, the running count of each aggregate border pair, the per-label side
//! usage counts, and the derived classification of border pairs into paired
//! and unpaired. Committing a mega tile and rolling it back are exact
//! inverses on these trackers.

use vstd::prelude::*;

use crate::tile::{ot_bottom, ot_left, ot_right, ot_top, MegaTile, OrientedTile};

verus! {

/// An ordered pair of side labels: one aggregate border of a mega tile.
pub type BorderPair = (i8, i8);

/// The conjugate of a border pair: the same two labels read the other way.
pub open spec fn conj(p: BorderPair) -> BorderPair {
    (p.1, p.0)
}

/// An indicator: one when the condition holds, zero otherwise.
pub open spec fn b2i(b: bool) -> int {
    if b {
        1
    } else {
        0
    }
}

/// How many of the four rotated sides of an oriented tile carry the label.
pub open spec fn tile_uses(ot: OrientedTile, s: i8) -> int {
    b2i(ot_top(ot) == s) + b2i(ot_right(ot) == s) + b2i(ot_bottom(ot) == s) + b2i(
        ot_left(ot) == s,
    )
}

/// How many of the sixteen rotated sides of a mega tile carry the label.
pub open spec fn side_uses(m: MegaTile, s: i8) -> int {
    tile_uses(m.tile1, s) + tile_uses(m.tile2, s) + tile_uses(m.tile3, s) + tile_uses(m.tile4, s)
}

/// How many of the four aggregate borders of a mega tile equal the pair.
pub open spec fn pair_uses(m: MegaTile, p: BorderPair) -> int {
    b2i(m.spec_top() == p) + b2i(m.spec_right() == p) + b2i(m.spec_bottom() == p) + b2i(
        m.spec_left() == p,
    )
}

/// The identity `j` belongs to one of the four members of the mega tile.
pub open spec fn mt_has_id(m: MegaTile, j: int) -> bool {
    ||| j == m.tile1.tile.id
    ||| j == m.tile2.tile.id
    ||| j == m.tile3.tile.id
    ||| j == m.tile4.tile.id
}

/// The identity is pinned: the mandatory starter tile, and in hinted mode the
/// four forced hint tiles. A pinned identity is never returned to the
/// available pool.
pub open spec fn spec_pinned(j: int, hinted: bool) -> bool {
    ||| j == 138
    ||| (hinted && (j == 207 || j == 254 || j == 180 || j == 248))
}

/// The count stored for a pair in an association list: the value of its
/// first entry, or zero when the pair has no entry.
pub open spec fn count_in(s: Seq<(BorderPair, usize)>, p: BorderPair) -> int
    decreases s.len(),
{
    if s.len() == 0 {
        0
    } else if s[0].0 == p {
        s[0].1 as int
    } else {
        count_in(s.drop_first(), p)
    }
}

/// The pair has an entry in the association list.
pub open spec fn seq_has_key(s: Seq<(BorderPair, usize)>, p: BorderPair) -> bool {
    exists|j: int| 0 <= j < s.len() && s[j].0 == p
}

/// With the first entry for `p` at position `j`, the stored count is its
/// value.
proof fn lemma_count_first(s: Seq<(BorderPair, usize)>, j: int, p: BorderPair)
    requires
        0 <= j < s.len(),
        s[j].0 == p,
        forall|i: int| 0 <= i < j ==> s[i].0 != p,
    ensures
        count_in(s, p) == s[j].1 as int,
    decreases j,
{
    if j > 0 {
        lemma_count_first(s.drop_first(), j - 1, p);
    }
}

/// A pair without an entry counts zero.
proof fn lemma_count_zero(s: Seq<(BorderPair, usize)>, p: BorderPair)
    requires
        forall|j: int| 0 <= j < s.len() ==> s[j].0 != p,
    ensures
        count_in(s, p) == 0,
    decreases s.len(),
{
    if s.len() > 0 {
        lemma_count_zero(s.drop_first(), p);
    }
}

/// Overwriting the entry at `j`, the first one for `p`, changes only `p`'s
/// count.
proof fn lemma_count_set(s: Seq<(BorderPair, usize)>, j: int, v: usize, p: BorderPair, q: BorderPair)
    requires
        0 <= j < s.len(),
        s[j].0 == p,
        forall|i: int| 0 <= i < j ==> s[i].0 != p,
    ensures
        count_in(s.update(j, (p, v)), q) == if q == p {
            v as int
        } else {
            count_in(s, q)
        },
    decreases j,
{
    let s2 = s.update(j, (p, v));
    if j == 0 {
        assert(s2.drop_first() =~= s.drop_first());
    } else {
        lemma_count_set(s.drop_first(), j - 1, v, p, q);
        assert(s2.drop_first() =~= s.drop_first().update(j - 1, (p, v)));
        assert(s2[0] == s[0]);
    }
}

/// Appending an entry only affects a pair that had no entry before.
proof fn lemma_count_push(s: Seq<(BorderPair, usize)>, e: (BorderPair, usize), q: BorderPair)
    ensures
        count_in(s.push(e), q) == if seq_has_key(s, q) {
            count_in(s, q)
        } else if e.0 == q {
            e.1 as int
        } else {
            0
        },
    decreases s.len(),
{
    if s.len() == 0 {
        assert(s.push(e)[0] == e);
        assert(s.push(e).drop_first() =~= Seq::<(BorderPair, usize)>::empty());
        assert(count_in(s.push(e).drop_first(), q) == 0);
        assert(!seq_has_key(s, q));
        assert(count_in(s.push(e), q) == (if e.0 == q {
            e.1 as int
        } else {
            0int
        }));
    } else {
        lemma_count_push(s.drop_first(), e, q);
        assert(s.push(e).drop_first() =~= s.drop_first().push(e));
        assert(s.push(e)[0] == s[0]);
        if s[0].0 == q {
            assert(seq_has_key(s, q));
        } else {
            assert(seq_has_key(s, q) <==> seq_has_key(s.drop_first(), q)) by {
                if seq_has_key(s, q) {
                    let j = choose|j: int| 0 <= j < s.len() && s[j].0 == q;
                    assert(s.drop_first()[j - 1].0 == q);
                }
                if seq_has_key(s.drop_first(), q) {
                    let j = choose|j: int|
                        0 <= j < s.drop_first().len() && s.drop_first()[j].0 == q;
                    assert(s[j + 1].0 == q);
                }
            }
        }
    }
}

/// Removing the only entry for `p` zeroes its count and changes no other.
proof fn lemma_count_remove(s: Seq<(BorderPair, usize)>, j: int, p: BorderPair, q: BorderPair)
    requires
        0 <= j < s.len(),
        s[j].0 == p,
        forall|i: int| 0 <= i < s.len() && i != j ==> s[i].0 != p,
    ensures
        count_in(s.remove(j), q) == if q == p {
            0int
        } else {
            count_in(s, q)
        },
    decreases j,
{
    let s2 = s.remove(j);
    if j == 0 {
        assert(s2 =~= s.drop_first());
        if q == p {
            assert(forall|i: int| 0 <= i < s2.len() ==> s2[i].0 != p);
            lemma_count_zero(s2, p);
        }
    } else {
        lemma_count_remove(s.drop_first(), j - 1, p, q);
        assert(s2.drop_first() =~= s.drop_first().remove(j - 1));
        assert(s2[0] == s[0]);
    }
}

/// A positive count implies an entry.
proof fn lemma_count_pos_has_key(s: Seq<(BorderPair, usize)>, p: BorderPair)
    requires
        count_in(s, p) != 0,
    ensures
        seq_has_key(s, p),
{
    if !seq_has_key(s, p) {
        assert(forall|j: int| 0 <= j < s.len() ==> s[j].0 != p);
        lemma_count_zero(s, p);
    }
}

/// The running count of each border-pair type, as an association list with
/// at most one entry per pair and no zero entries.
pub struct PairCounts {
    pub items: Vec<(BorderPair, usize)>,
}

impl PairCounts {
    /// Keys occur at most once and stored counts are positive.
    pub open spec fn wf(self) -> bool {
        &&& forall|i: int, j: int|
            0 <= i < j < self.items@.len() ==> (#[trigger] self.items@[i]).0 != (
            #[trigger] self.items@[j]).0
        &&& forall|i: int| 0 <= i < self.items@.len() ==> (#[trigger] self.items@[i]).1 >= 1
    }

    /// The running count of a pair; zero when it was never committed.
    pub open spec fn count_of(self, p: BorderPair) -> int {
        count_in(self.items@, p)
    }

    /// The pair has a positive running count.
    pub open spec fn has_key(self, p: BorderPair) -> bool {
        seq_has_key(self.items@, p)
    }

    /// An empty tracker: every pair counts zero.
    pub fn new() -> (r: PairCounts)
        ensures
            r.wf(),
            forall|p: BorderPair| r.count_of(p) == 0,
            r.items@.len() == 0,
    {
        let r = PairCounts { items: Vec::new() };
        proof {
            assert forall|p: BorderPair| r.count_of(p) == 0 by {
                lemma_count_zero(r.items@, p);
            }
        }
        r
    }

    /// How many distinct pair types have a positive count.
    pub fn distinct_len(&self) -> (r: usize)
        ensures
            r == self.items@.len(),
    {
        self.items.len()
    }

    /// Reads the running count of a pair.
    #[verifier::loop_isolation(false)]
    pub fn get_count(&self, p: BorderPair) -> (r: usize)
        ensures
            r as int == self.count_of(p),
    {
        let n = self.items.len();
        let mut j: usize = 0;
        while j < n
            invariant
                j <= n,
                forall|i: int| 0 <= i < j ==> (#[trigger] self.items@[i]).0 != p,
            decreases n - j,
        {
            let e = self.items[j];
            if e.0.0 == p.0 && e.0.1 == p.1 {
                proof {
                    lemma_count_first(self.items@, j as int, p);
                }
                return e.1;
            }
            j += 1;
        }
        proof {
            lemma_count_zero(self.items@, p);
        }
        0
    }

    /// Raises the count of a pair by one.
    #[verifier::loop_isolation(false)]
    pub fn increment(&mut self, p: BorderPair)
        requires
            old(self).wf(),
            old(self).count_of(p) < usize::MAX,
        ensures
            final(self).wf(),
            final(self).count_of(p) == old(self).count_of(p) + 1,
            forall|q: BorderPair| q != p ==> final(self).count_of(q) == old(self).count_of(q),
            forall|q: BorderPair| #[trigger]
                final(self).has_key(q) <==> old(self).has_key(q) || q == p,
            final(self).items@.len() == old(self).items@.len() + (if old(self).count_of(p) > 0 {
                0int
            } else {
                1int
            }),
    {
        let n = self.items.len();
        let mut j: usize = 0;
        while j < n
            invariant
                j <= n,
                self == old(self),
                forall|i: int| 0 <= i < j ==> (#[trigger] self.items@[i]).0 != p,
            decreases n - j,
        {
            let e = self.items[j];
            if e.0.0 == p.0 && e.0.1 == p.1 {
                proof {
                    lemma_count_first(self.items@, j as int, p);
                    assert forall|q: BorderPair| true implies count_in(
                        self.items@.update(j as int, (p, (e.1 + 1) as usize)),
                        q,
                    ) == if q == p {
                        (e.1 + 1) as int
                    } else {
                        count_in(self.items@, q)
                    } by {
                        lemma_count_set(self.items@, j as int, (e.1 + 1) as usize, p, q);
                    }
                }
                let ghost pre = self.items@;
                self.items.set(j, (p, e.1 + 1));
                proof {
                    assert forall|q: BorderPair| #[trigger]
                        final(self).has_key(q) <==> old(self).has_key(q) || q == p by {
                        if seq_has_key(self.items@, q) {
                            let j2 = choose|j2: int|
                                0 <= j2 < self.items@.len() && self.items@[j2].0 == q;
                            if j2 == j {
                                assert(q == p);
                            } else {
                                assert(pre[j2].0 == q);
                            }
                        }
                        if seq_has_key(pre, q) {
                            let j2 = choose|j2: int| 0 <= j2 < pre.len() && pre[j2].0 == q;
                            if j2 == j {
                                assert(self.items@[j2].0 == p && q == p);
                            } else {
                                assert(self.items@[j2].0 == q);
                            }
                        }
                        if q == p {
                            assert(self.items@[j as int].0 == p);
                        }
                    }
                }
                return ;
            }
            j += 1;
        }
        proof {
            lemma_count_zero(self.items@, p);
            assert forall|q: BorderPair| true implies count_in(self.items@.push((p, 1)), q) == (
            if q == p {
                1int
            } else {
                count_in(self.items@, q)
            }) by {
                lemma_count_push(self.items@, (p, 1), q);
                if q != p && !seq_has_key(self.items@, q) {
                    lemma_count_zero(self.items@, q);
                }
            }
        }
        let ghost pre = self.items@;
        self.items.push((p, 1));
        proof {
            assert(self.items@[self.items@.len() - 1].0 == p);
            assert forall|q: BorderPair| #[trigger]
                final(self).has_key(q) <==> old(self).has_key(q) || q == p by {
                if seq_has_key(self.items@, q) && q != p {
                    let j2 = choose|j2: int| 0 <= j2 < self.items@.len() && self.items@[j2].0 == q;
                    assert(pre[j2].0 == q);
                }
                if seq_has_key(pre, q) {
                    let j2 = choose|j2: int| 0 <= j2 < pre.len() && pre[j2].0 == q;
                    assert(self.items@[j2].0 == q);
                }
            }
        }
    }

    /// Lowers the count of a pair by one, dropping its entry when it reaches
    /// zero.
    #[verifier::loop_isolation(false)]
    pub fn decrement(&mut self, p: BorderPair)
        requires
            old(self).wf(),
            old(self).count_of(p) >= 1,
        ensures
            final(self).wf(),
            final(self).count_of(p) == old(self).count_of(p) - 1,
            forall|q: BorderPair| q != p ==> final(self).count_of(q) == old(self).count_of(q),
            final(self).items@.len() == old(self).items@.len() - (if old(self).count_of(p) == 1 {
                1int
            } else {
                0int
            }),
    {
        proof {
            lemma_count_pos_has_key(self.items@, p);
        }
        let n = self.items.len();
        let mut j: usize = 0;
        while j < n
            invariant
                j <= n,
                self == old(self),
                forall|i: int| 0 <= i < j ==> (#[trigger] self.items@[i]).0 != p,
            decreases n - j,
        {
            let e = self.items[j];
            if e.0.0 == p.0 && e.0.1 == p.1 {
                proof {
                    lemma_count_first(self.items@, j as int, p);
                }
                if e.1 == 1 {
                    proof {
                        assert forall|i: int|
                            0 <= i < self.items@.len() && i != j implies (
                        #[trigger] self.items@[i]).0 != p by {
                            if i < j {
                            } else {
                                assert(self.items@[j as int].0 == self.items@[i].0 ==> false);
                            }
                        }
                        assert forall|q: BorderPair| true implies count_in(
                            self.items@.remove(j as int),
                            q,
                        ) == if q == p {
                            0int
                        } else {
                            count_in(self.items@, q)
                        } by {
                            lemma_count_remove(self.items@, j as int, p, q);
                        }
                    }
                    self.items.remove(j);
                } else {
                    proof {
                        assert forall|q: BorderPair| true implies count_in(
                            self.items@.update(j as int, (p, (e.1 - 1) as usize)),
                            q,
                        ) == if q == p {
                            (e.1 - 1) as int
                        } else {
                            count_in(self.items@, q)
                        } by {
                            lemma_count_set(self.items@, j as int, (e.1 - 1) as usize, p, q);
                        }
                    }
                    self.items.set(j, (p, e.1 - 1));
                }
                return ;
            }
            j += 1;
        }
        proof {
            let j2 = choose|j2: int| 0 <= j2 < self.items@.len() && self.items@[j2].0 == p;
            assert(false);
        }
    }
}

/// The entry is picked for the unpaired list: its stored count is odd for a
/// palindromic pair, and otherwise exceeds its conjugate's running count.
pub open spec fn unp_selected(items: Seq<(BorderPair, usize)>, e: (BorderPair, usize)) -> bool {
    if e.0.0 == e.0.1 {
        e.1 % 2 == 1
    } else {
        e.1 > count_in(items, (e.0.1, e.0.0))
    }
}

/// The entry is picked for the paired list: its stored count is even for a
/// palindromic pair, and otherwise equals its conjugate's running count.
pub open spec fn pp_selected(items: Seq<(BorderPair, usize)>, e: (BorderPair, usize)) -> bool {
    if e.0.0 == e.0.1 {
        e.1 % 2 == 0
    } else {
        e.1 == count_in(items, (e.0.1, e.0.0))
    }
}

/// The unpaired list built from the first `i` count entries, in entry order.
pub open spec fn up_front(items: Seq<(BorderPair, usize)>, i: int) -> Seq<BorderPair>
    decreases i,
{
    if i <= 0 {
        Seq::empty()
    } else {
        let rest = up_front(items, i - 1);
        if unp_selected(items, items[i - 1]) {
            rest.push(items[i - 1].0)
        } else {
            rest
        }
    }
}

/// The paired list built from the first `i` count entries, in entry order.
pub open spec fn pp_front(items: Seq<(BorderPair, usize)>, i: int) -> Seq<BorderPair>
    decreases i,
{
    if i <= 0 {
        Seq::empty()
    } else {
        let rest = pp_front(items, i - 1);
        if pp_selected(items, items[i - 1]) {
            rest.push(items[i - 1].0)
        } else {
            rest
        }
    }
}

/// The whole derived unpaired list: one entry per unpaired pair type, in the
/// order the count list holds them.
pub open spec fn unpaired_list(items: Seq<(BorderPair, usize)>) -> Seq<BorderPair> {
    up_front(items, items.len() as int)
}

/// The whole derived paired list: one entry per paired pair type, in the
/// order the count list holds them.
pub open spec fn paired_list(items: Seq<(BorderPair, usize)>) -> Seq<BorderPair> {
    pp_front(items, items.len() as int)
}

/// A border pair currently classified as unpaired: its running count exceeds
/// its conjugate's (for a palindromic pair, the count is odd).
pub open spec fn spec_unpaired(pc: PairCounts, q: BorderPair) -> bool {
    pc.has_key(q) && (if q.0 == q.1 {
        pc.count_of(q) % 2 == 1
    } else {
        pc.count_of(q) > pc.count_of(conj(q))
    })
}

/// A border pair currently classified as paired: its running count equals
/// its conjugate's (for a palindromic pair, the count is even).
pub open spec fn spec_paired(pc: PairCounts, q: BorderPair) -> bool {
    pc.has_key(q) && (if q.0 == q.1 {
        pc.count_of(q) % 2 == 0
    } else {
        pc.count_of(q) == pc.count_of(conj(q))
    })
}

/// The mutable state threaded through the mega-tile search, restored exactly
/// on every backtrack.
pub struct Trackers {
    /// Free/used flag for each of the 256 tile identities.
    pub available_mask: Vec<bool>,
    /// Running count of each aggregate border pair across committed mega
    /// tiles.
    pub mega_tile_edge_count: PairCounts,
    /// The border-pair types whose counts currently exceed their conjugates'.
    pub unpaired_edges: Vec<BorderPair>,
    /// The border-pair types whose counts currently equal their conjugates'.
    pub paired_edges: Vec<BorderPair>,
    /// Running count of sides consumed per label by committed tiles.
    pub edge_usage_count: Vec<i32>,
}

/// What a commit does to the trackers: the four identities leave the pool,
/// every consumed side label's usage rises, and each aggregate border's
/// running count rises.
pub open spec fn commit_effect(pre: Trackers, post: Trackers, m: MegaTile) -> bool {
    &&& post.available_mask@.len() == 256
    &&& forall|j: int|
        0 <= j < 256 ==> post.available_mask@[j] == (if mt_has_id(m, j) {
            false
        } else {
            pre.available_mask@[j]
        })
    &&& post.edge_usage_count@.len() == 22
    &&& forall|s: int|
        0 <= s < 22 ==> post.edge_usage_count@[s] == pre.edge_usage_count@[s] + side_uses(
            m,
            s as i8,
        )
    &&& forall|p: BorderPair|
        post.mega_tile_edge_count.count_of(p) == pre.mega_tile_edge_count.count_of(p) + pair_uses(
            m,
            p,
        )
    &&& post.mega_tile_edge_count.items@.len() == pre.mega_tile_edge_count.items@.len()
        + commit_new_keys(pre.mega_tile_edge_count, m)
}

/// How many border-pair types of the mega tile were unseen before a commit:
/// the number of distinct aggregate borders whose running count was zero.
pub open spec fn commit_new_keys(pc: PairCounts, m: MegaTile) -> int {
    let t = m.spec_top();
    let r = m.spec_right();
    let b = m.spec_bottom();
    let l = m.spec_left();
    b2i(pc.count_of(t) == 0) + b2i(pc.count_of(r) == 0 && r != t) + b2i(
        pc.count_of(b) == 0 && b != t && b != r,
    ) + b2i(pc.count_of(l) == 0 && l != t && l != r && l != b)
}

/// How many border-pair entries a rollback drops: the number of aggregate
/// borders whose running count reaches zero as they are counted out in
/// order.
pub open spec fn rollback_dropped_keys(pc: PairCounts, m: MegaTile) -> int {
    let t = m.spec_top();
    let r = m.spec_right();
    let b = m.spec_bottom();
    let l = m.spec_left();
    b2i(pc.count_of(t) == 1) + b2i(pc.count_of(r) - b2i(r == t) == 1) + b2i(
        pc.count_of(b) - b2i(b == t) - b2i(b == r) == 1,
    ) + b2i(pc.count_of(l) - b2i(l == t) - b2i(l == r) - b2i(l == b) == 1)
}

/// What a rollback does to the trackers: the exact inverse of a commit,
/// except that pinned identities are never returned to the pool.
pub open spec fn rollback_effect(pre: Trackers, post: Trackers, m: MegaTile, hinted: bool) -> bool {
    &&& post.available_mask@.len() == 256
    &&& forall|j: int|
        0 <= j < 256 ==> post.available_mask@[j] == (if mt_has_id(m, j) && !spec_pinned(
            j,
            hinted,
        ) {
            true
        } else {
            pre.available_mask@[j]
        })
    &&& post.edge_usage_count@.len() == 22
    &&& forall|s: int|
        0 <= s < 22 ==> post.edge_usage_count@[s] == pre.edge_usage_count@[s] - side_uses(
            m,
            s as i8,
        )
    &&& forall|p: BorderPair|
        post.mega_tile_edge_count.count_of(p) == pre.mega_tile_edge_count.count_of(p) - pair_uses(
            m,
            p,
        )
    &&& post.mega_tile_edge_count.items@.len() == pre.mega_tile_edge_count.items@.len()
        - rollback_dropped_keys(pre.mega_tile_edge_count, m)
}

/// Marks the four identities of a mega tile as used.
fn take_ids(mask: &mut Vec<bool>, m: &MegaTile)
    requires
        old(mask)@.len() == 256,
        m.ids_in_range(),
    ensures
        final(mask)@.len() == 256,
        forall|j: int|
            0 <= j < 256 ==> final(mask)@[j] == (if mt_has_id(*m, j) {
                false
            } else {
                old(mask)@[j]
            }),
{
    mask.set(m.tile1.id(), false);
    mask.set(m.tile2.id(), false);
    mask.set(m.tile3.id(), false);
    mask.set(m.tile4.id(), false);
}

/// Returns one identity to the pool unless it is pinned.
fn free_id(mask: &mut Vec<bool>, id: usize, hinted: bool)
    requires
        old(mask)@.len() == 256,
        id < 256,
    ensures
        final(mask)@.len() == 256,
        forall|j: int|
            0 <= j < 256 ==> final(mask)@[j] == (if j == id && !spec_pinned(id as int, hinted) {
                true
            } else {
                old(mask)@[j]
            }),
{
    if !(id == 138 || (hinted && (id == 207 || id == 254 || id == 180 || id == 248))) {
        mask.set(id, true);
    }
}

/// Returns the four identities of a mega tile to the pool, except pinned
/// ones.
fn free_ids(mask: &mut Vec<bool>, m: &MegaTile, hinted: bool)
    requires
        old(mask)@.len() == 256,
        m.ids_in_range(),
    ensures
        final(mask)@.len() == 256,
        forall|j: int|
            0 <= j < 256 ==> final(mask)@[j] == (if mt_has_id(*m, j) && !spec_pinned(j, hinted) {
                true
            } else {
                old(mask)@[j]
            }),
{
    free_id(mask, m.tile1.id(), hinted);
    free_id(mask, m.tile2.id(), hinted);
    free_id(mask, m.tile3.id(), hinted);
    free_id(mask, m.tile4.id(), hinted);
}

/// Marks the four identities of a mega tile as used in an availability
/// mask.
pub fn add_mega_tile_to_available_mask(mega_tile: &MegaTile, available_mask: &mut Vec<bool>)
    requires
        old(available_mask)@.len() == 256,
        mega_tile.ids_in_range(),
    ensures
        final(available_mask)@.len() == 256,
        forall|j: int|
            0 <= j < 256 ==> final(available_mask)@[j] == (if mt_has_id(*mega_tile, j) {
                false
            } else {
                old(available_mask)@[j]
            }),
{
    take_ids(available_mask, mega_tile);
}

/// Raises the usage count of each side label the oriented tile consumes.
#[verifier::loop_isolation(false)]
fn bump_usage(usage: &mut Vec<i32>, ot: OrientedTile)
    requires
        old(usage)@.len() == 22,
        ot.rotatable(),
        crate::tile::ot_sides_in_range(ot),
        forall|s: int| 0 <= s < 22 ==> old(usage)@[s] + 4 <= i32::MAX,
    ensures
        final(usage)@.len() == 22,
        forall|s: int|
            0 <= s < 22 ==> final(usage)@[s] == old(usage)@[s] + tile_uses(ot, s as i8),
{
    let t = ot.top();
    let r = ot.right();
    let b = ot.bottom();
    let l = ot.left();
    let v0 = usage[t as usize];
    usage.set(t as usize, v0 + 1);
    let v1 = usage[r as usize];
    usage.set(r as usize, v1 + 1);
    let v2 = usage[b as usize];
    usage.set(b as usize, v2 + 1);
    let v3 = usage[l as usize];
    usage.set(l as usize, v3 + 1);
}

/// Lowers the usage count of each side label the oriented tile consumes.
#[verifier::loop_isolation(false)]
fn drop_usage(usage: &mut Vec<i32>, ot: OrientedTile)
    requires
        old(usage)@.len() == 22,
        ot.rotatable(),
        crate::tile::ot_sides_in_range(ot),
        forall|s: int| 0 <= s < 22 ==> old(usage)@[s] >= tile_uses(ot, s as i8),
    ensures
        final(usage)@.len() == 22,
        forall|s: int|
            0 <= s < 22 ==> final(usage)@[s] == old(usage)@[s] - tile_uses(ot, s as i8),
{
    let t = ot.top();
    let r = ot.right();
    let b = ot.bottom();
    let l = ot.left();
    let v0 = usage[t as usize];
    usage.set(t as usize, v0 - 1);
    let v1 = usage[r as usize];
    usage.set(r as usize, v1 - 1);
    let v2 = usage[b as usize];
    usage.set(b as usize, v2 - 1);
    let v3 = usage[l as usize];
    usage.set(l as usize, v3 - 1);
}

/// Raises the usage count of every side label the mega tile consumes.
fn bump_usage_mt(usage: &mut Vec<i32>, m: &MegaTile)
    requires
        old(usage)@.len() == 22,
        m.rotatable(),
        m.sides_in_range(),
        forall|s: int| 0 <= s < 22 ==> old(usage)@[s] + 16 <= i32::MAX,
    ensures
        final(usage)@.len() == 22,
        forall|s: int|
            0 <= s < 22 ==> final(usage)@[s] == old(usage)@[s] + side_uses(*m, s as i8),
{
    bump_usage(usage, m.tile1);
    bump_usage(usage, m.tile2);
    bump_usage(usage, m.tile3);
    bump_usage(usage, m.tile4);
}

/// Lowers the usage count of every side label the mega tile consumes.
fn drop_usage_mt(usage: &mut Vec<i32>, m: &MegaTile)
    requires
        old(usage)@.len() == 22,
        m.rotatable(),
        m.sides_in_range(),
        forall|s: int| 0 <= s < 22 ==> old(usage)@[s] >= side_uses(*m, s as i8),
    ensures
        final(usage)@.len() == 22,
        forall|s: int|
            0 <= s < 22 ==> final(usage)@[s] == old(usage)@[s] - side_uses(*m, s as i8),
{
    drop_usage(usage, m.tile1);
    drop_usage(usage, m.tile2);
    drop_usage(usage, m.tile3);
    drop_usage(usage, m.tile4);
}

/// Counts the four aggregate borders of a mega tile in.
fn inc_pairs(pc: &mut PairCounts, m: &MegaTile)
    requires
        old(pc).wf(),
        m.rotatable(),
        forall|p: BorderPair| old(pc).count_of(p) + 4 <= usize::MAX,
    ensures
        final(pc).wf(),
        forall|p: BorderPair| #[trigger]
            final(pc).count_of(p) == old(pc).count_of(p) + pair_uses(*m, p),
        forall|p: BorderPair| #[trigger]
            final(pc).has_key(p) <==> old(pc).has_key(p) || pair_uses(*m, p) > 0,
        final(pc).items@.len() == old(pc).items@.len() + commit_new_keys(*old(pc), *m),
{
    let top = m.top();
    let right = m.right();
    let bottom = m.bottom();
    let left = m.left();
    proof {
        lemma_count_nonneg(pc.items@, top);
        lemma_count_nonneg(pc.items@, right);
        lemma_count_nonneg(pc.items@, bottom);
        lemma_count_nonneg(pc.items@, left);
    }
    pc.increment(top);
    pc.increment(right);
    pc.increment(bottom);
    pc.increment(left);
}

/// Counts the four aggregate borders of a mega tile out.
fn dec_pairs(pc: &mut PairCounts, m: &MegaTile)
    requires
        old(pc).wf(),
        m.rotatable(),
        forall|p: BorderPair| old(pc).count_of(p) >= pair_uses(*m, p),
    ensures
        final(pc).wf(),
        forall|p: BorderPair| #[trigger]
            final(pc).count_of(p) == old(pc).count_of(p) - pair_uses(*m, p),
        final(pc).items@.len() == old(pc).items@.len() - rollback_dropped_keys(*old(pc), *m),
{
    let top = m.top();
    let right = m.right();
    let bottom = m.bottom();
    let left = m.left();
    proof {
        assert(old(pc).count_of(top) >= pair_uses(*m, top));
        assert(old(pc).count_of(right) >= pair_uses(*m, right));
        assert(old(pc).count_of(bottom) >= pair_uses(*m, bottom));
        assert(old(pc).count_of(left) >= pair_uses(*m, left));
    }
    pc.decrement(top);
    pc.decrement(right);
    pc.decrement(bottom);
    pc.decrement(left);
}

impl Trackers {
    /// The trackers are well formed: full-size mask and usage table, no
    /// negative usage, and a well-formed pair-count list.
    pub open spec fn wf(self) -> bool {
        &&& self.available_mask@.len() == 256
        &&& self.edge_usage_count@.len() == 22
        &&& forall|s: int| 0 <= s < 22 ==> self.edge_usage_count@[s] >= 0
        &&& self.mega_tile_edge_count.wf()
    }

    /// The derived paired/unpaired lists agree with the running counts.
    pub open spec fn lists_in_sync(self) -> bool {
        &&& forall|q: BorderPair| #[trigger]
            self.unpaired_edges@.contains(q) <==> spec_unpaired(self.mega_tile_edge_count, q)
        &&& forall|q: BorderPair| #[trigger]
            self.paired_edges@.contains(q) <==> spec_paired(self.mega_tile_edge_count, q)
        &&& self.unpaired_edges@.len() <= self.mega_tile_edge_count.items@.len()
        &&& self.paired_edges@.len() <= self.mega_tile_edge_count.items@.len()
    }

    /// A fresh state: everything is free except the pinned identities, no
    /// border pair has been seen, and no side label has been consumed.
    #[verifier::loop_isolation(false)]
    pub fn new(hinted: bool) -> (r: Trackers)
        ensures
            r.wf(),
            r.lists_in_sync(),
            forall|j: int|
                0 <= j < 256 ==> r.available_mask@[j] == !spec_pinned(j, hinted),
            forall|s: int| 0 <= s < 22 ==> r.edge_usage_count@[s] == 0,
            forall|p: BorderPair| r.mega_tile_edge_count.count_of(p) == 0,
            r.mega_tile_edge_count.items@.len() == 0,
            r.unpaired_edges@.len() == 0,
            r.paired_edges@.len() == 0,
    {
        let mut mask: Vec<bool> = Vec::new();
        let mut j: usize = 0;
        while j < 256
            invariant
                mask@.len() == j,
                j <= 256,
                forall|j2: int| 0 <= j2 < j ==> mask@[j2] == !spec_pinned(j2, hinted),
            decreases 256 - j,
        {
            let pinned = j == 138 || (hinted && (j == 207 || j == 254 || j == 180 || j == 248));
            mask.push(!pinned);
            j += 1;
        }
        let mut usage: Vec<i32> = Vec::new();
        let mut s: usize = 0;
        while s < 22
            invariant
                usage@.len() == s,
                s <= 22,
                forall|s2: int| 0 <= s2 < s ==> usage@[s2] == 0,
            decreases 22 - s,
        {
            usage.push(0);
            s += 1;
        }
        let r = Trackers {
            available_mask: mask,
            mega_tile_edge_count: PairCounts::new(),
            unpaired_edges: Vec::new(),
            paired_edges: Vec::new(),
            edge_usage_count: usage,
        };
        r
    }

    /// Commits a mega tile: marks its four identities used, counts the
    /// sixteen consumed side labels, and counts its four aggregate borders.
    pub fn add_mega_tile_to_trackers(&mut self, mega_tile: &MegaTile)
        requires
            old(self).wf(),
            mega_tile.rotatable(),
            mega_tile.sides_in_range(),
            mega_tile.ids_in_range(),
            forall|p: BorderPair|
                old(self).mega_tile_edge_count.count_of(p) + 4 <= usize::MAX,
            forall|s: int| 0 <= s < 22 ==> old(self).edge_usage_count@[s] + 16 <= i32::MAX,
        ensures
            final(self).wf(),
            commit_effect(*old(self), *final(self), *mega_tile),
            forall|p: BorderPair| #[trigger]
                final(self).mega_tile_edge_count.has_key(p)
                    <==> old(self).mega_tile_edge_count.has_key(p) || pair_uses(*mega_tile, p) > 0,
            final(self).mega_tile_edge_count.items@.len()
                <= old(self).mega_tile_edge_count.items@.len() + 4,
            final(self).unpaired_edges@ == old(self).unpaired_edges@,
            final(self).paired_edges@ == old(self).paired_edges@,
    {
        take_ids(&mut self.available_mask, mega_tile);
        bump_usage_mt(&mut self.edge_usage_count, mega_tile);
        inc_pairs(&mut self.mega_tile_edge_count, mega_tile);
    }

    /// Rolls a committed mega tile back: the exact inverse of the commit,
    /// except that pinned identities stay out of the pool.
    pub fn remove_mega_tiles_from_trackers(&mut self, mega_tile: &MegaTile, hinted: bool)
        requires
            old(self).wf(),
            mega_tile.rotatable(),
            mega_tile.sides_in_range(),
            mega_tile.ids_in_range(),
            forall|s: int|
                0 <= s < 22 ==> old(self).edge_usage_count@[s] >= side_uses(
                    *mega_tile,
                    s as i8,
                ),
            forall|p: BorderPair|
                old(self).mega_tile_edge_count.count_of(p) >= pair_uses(*mega_tile, p),
        ensures
            final(self).wf(),
            rollback_effect(*old(self), *final(self), *mega_tile, hinted),
            final(self).unpaired_edges@ == old(self).unpaired_edges@,
            final(self).paired_edges@ == old(self).paired_edges@,
    {
        free_ids(&mut self.available_mask, mega_tile, hinted);
        drop_usage_mt(&mut self.edge_usage_count, mega_tile);
        dec_pairs(&mut self.mega_tile_edge_count, mega_tile);
    }

    /// Rebuilds the paired and unpaired classifications from the running
    /// border-pair counts.
    #[verifier::loop_isolation(false)]
    pub fn recalculate_paired_and_unpaired_counts(&mut self)
        requires
            old(self).wf(),
        ensures
            final(self).wf(),
            final(self).lists_in_sync(),
            final(self).available_mask@ == old(self).available_mask@,
            final(self).edge_usage_count@ == old(self).edge_usage_count@,
            final(self).mega_tile_edge_count == old(self).mega_tile_edge_count,
            final(self).unpaired_edges@ == unpaired_list(old(self).mega_tile_edge_count.items@),
            final(self).paired_edges@ == paired_list(old(self).mega_tile_edge_count.items@),
    {
        self.unpaired_edges.clear();
        self.paired_edges.clear();
        let n = self.mega_tile_edge_count.items.len();
        let mut i: usize = 0;
        while i < n
            invariant
                i <= n,
                self.mega_tile_edge_count == old(self).mega_tile_edge_count,
                self.available_mask@ == old(self).available_mask@,
                self.edge_usage_count@ == old(self).edge_usage_count@,
                self.unpaired_edges@.len() <= i,
                self.paired_edges@.len() <= i,
                self.unpaired_edges@ == up_front(self.mega_tile_edge_count.items@, i as int),
                self.paired_edges@ == pp_front(self.mega_tile_edge_count.items@, i as int),
                forall|q: BorderPair| #[trigger]
                    self.unpaired_edges@.contains(q) <==> (exists|j: int|
                        0 <= j < i && self.mega_tile_edge_count.items@[j].0 == q) && spec_unpaired(
                        self.mega_tile_edge_count,
                        q,
                    ),
                forall|q: BorderPair| #[trigger]
                    self.paired_edges@.contains(q) <==> (exists|j: int|
                        0 <= j < i && self.mega_tile_edge_count.items@[j].0 == q) && spec_paired(
                        self.mega_tile_edge_count,
                        q,
                    ),
            decreases n - i,
        {
            let e = self.mega_tile_edge_count.items[i];
            let p = e.0;
            let c = e.1;
            proof {
                assert forall|i2: int| 0 <= i2 < i implies (
                #[trigger] self.mega_tile_edge_count.items@[i2]).0 != p by {
                    assert(self.mega_tile_edge_count.items@[i2].0
                        != self.mega_tile_edge_count.items@[i as int].0);
                }
                lemma_count_first(self.mega_tile_edge_count.items@, i as int, p);
                assert(self.mega_tile_edge_count.has_key(p)) by {
                    assert(self.mega_tile_edge_count.items@[i as int].0 == p);
                }
            }
            let ghost pre_unpaired = self.unpaired_edges@;
            let ghost pre_paired = self.paired_edges@;
            if p.0 == p.1 {
                if c % 2 == 0 {
                    self.paired_edges.push(p);
                } else {
                    self.unpaired_edges.push(p);
                }
            } else {
                let c2 = self.mega_tile_edge_count.get_count((p.1, p.0));
                if c > c2 {
                    self.unpaired_edges.push(p);
                } else if c == c2 {
                    self.paired_edges.push(p);
                }
            }
            proof {
                lemma_membership_step(
                    pre_unpaired,
                    self.unpaired_edges@,
                    self.mega_tile_edge_count,
                    i as int,
                    p,
                    true,
                );
                lemma_membership_step(
                    pre_paired,
                    self.paired_edges@,
                    self.mega_tile_edge_count,
                    i as int,
                    p,
                    false,
                );
            }
            i += 1;
        }
    }
}

/// One step of rebuilding a classification list: after handling the entry at
/// position `i`, membership tracks the classification over the first `i + 1`
/// entries.
proof fn lemma_membership_step(
    pre: Seq<BorderPair>,
    post: Seq<BorderPair>,
    pc: PairCounts,
    i: int,
    p: BorderPair,
    unpaired: bool,
)
    requires
        0 <= i < pc.items@.len(),
        pc.items@[i].0 == p,
        forall|q: BorderPair| #[trigger]
            pre.contains(q) <==> (exists|j: int| 0 <= j < i && pc.items@[j].0 == q) && (if unpaired {
                spec_unpaired(pc, q)
            } else {
                spec_paired(pc, q)
            }),
        if (if unpaired {
            spec_unpaired(pc, p)
        } else {
            spec_paired(pc, p)
        }) {
            post == pre.push(p)
        } else {
            post == pre
        },
    ensures
        forall|q: BorderPair| #[trigger]
            post.contains(q) <==> (exists|j: int| 0 <= j < i + 1 && pc.items@[j].0 == q) && (
            if unpaired {
                spec_unpaired(pc, q)
            } else {
                spec_paired(pc, q)
            }),
        post.len() <= pre.len() + 1,
{
    let classified = if unpaired {
        spec_unpaired(pc, p)
    } else {
        spec_paired(pc, p)
    };
    assert forall|q: BorderPair| #[trigger]
        post.contains(q) implies (exists|j: int| 0 <= j < i + 1 && pc.items@[j].0 == q) && (
    if unpaired {
        spec_unpaired(pc, q)
    } else {
        spec_paired(pc, q)
    }) by {
        let idx = choose|idx: int| 0 <= idx < post.len() && post[idx] == q;
        if classified && idx == post.len() - 1 && q == p {
            assert(pc.items@[i].0 == q);
        } else {
            if classified {
                if idx < pre.len() {
                    assert(pre[idx] == q);
                    assert(pre.contains(q));
                } else {
                    assert(q == p);
                    assert(pc.items@[i].0 == q);
                }
            } else {
                assert(pre[idx] == q);
                assert(pre.contains(q));
            }
            if pre.contains(q) {
                let j = choose|j: int| 0 <= j < i && pc.items@[j].0 == q;
                assert(0 <= j < i + 1 && pc.items@[j].0 == q);
            }
        }
    }
    assert forall|q: BorderPair|
        (exists|j: int| 0 <= j < i + 1 && pc.items@[j].0 == q) && (if unpaired {
            spec_unpaired(pc, q)
        } else {
            spec_paired(pc, q)
        }) implies #[trigger] post.contains(q) by {
        let j = choose|j: int| 0 <= j < i + 1 && pc.items@[j].0 == q;
        if j < i {
            assert(pre.contains(q));
            let idx = choose|idx: int| 0 <= idx < pre.len() && pre[idx] == q;
            assert(post[idx] == q);
        } else {
            assert(q == p);
            assert(classified);
            assert(post[post.len() - 1] == p);
        }
    }
}

/// Committing a mega tile and then rolling the same one back returns the
/// availability mask, the border-pair counts and the side-usage counts to
/// their exact pre-commit values, provided the commit was legal: the four
/// identities were free (pinned ones already out of the pool, as they are
/// from the start).
pub proof fn lemma_commit_rollback_symmetry(
    pre: Trackers,
    mid: Trackers,
    post: Trackers,
    m: MegaTile,
    hinted: bool,
)
    requires
        pre.wf(),
        forall|j: int|
            0 <= j < 256 && spec_pinned(j, hinted) ==> pre.available_mask@[j] == false,
        forall|j: int|
            0 <= j < 256 && mt_has_id(m, j) && !spec_pinned(j, hinted)
                ==> pre.available_mask@[j] == true,
        commit_effect(pre, mid, m),
        rollback_effect(mid, post, m, hinted),
    ensures
        post.available_mask@ == pre.available_mask@,
        post.edge_usage_count@ == pre.edge_usage_count@,
        forall|p: BorderPair| #[trigger]
            post.mega_tile_edge_count.count_of(p) == pre.mega_tile_edge_count.count_of(p),
        post.mega_tile_edge_count.items@.len() == pre.mega_tile_edge_count.items@.len(),
{
    assert forall|j: int| 0 <= j < 256 implies post.available_mask@[j]
        == pre.available_mask@[j] by {
        if mt_has_id(m, j) {
            if spec_pinned(j, hinted) {
                assert(post.available_mask@[j] == mid.available_mask@[j]);
            }
        }
    }
    assert(post.available_mask@ =~= pre.available_mask@);
    assert(post.edge_usage_count@ =~= pre.edge_usage_count@);
    assert(rollback_dropped_keys(mid.mega_tile_edge_count, m) == commit_new_keys(
        pre.mega_tile_edge_count,
        m,
    )) by {
        let t = m.spec_top();
        let r = m.spec_right();
        let b = m.spec_bottom();
        let l = m.spec_left();
        assert(mid.mega_tile_edge_count.count_of(t) == pre.mega_tile_edge_count.count_of(t)
            + pair_uses(m, t));
        assert(mid.mega_tile_edge_count.count_of(r) == pre.mega_tile_edge_count.count_of(r)
            + pair_uses(m, r));
        assert(mid.mega_tile_edge_count.count_of(b) == pre.mega_tile_edge_count.count_of(b)
            + pair_uses(m, b));
        assert(mid.mega_tile_edge_count.count_of(l) == pre.mega_tile_edge_count.count_of(l)
            + pair_uses(m, l));
        assert(pre.mega_tile_edge_count.count_of(t) >= 0 && pre.mega_tile_edge_count.count_of(r)
            >= 0 && pre.mega_tile_edge_count.count_of(b) >= 0
            && pre.mega_tile_edge_count.count_of(l) >= 0) by {
            lemma_count_nonneg(pre.mega_tile_edge_count.items@, t);
            lemma_count_nonneg(pre.mega_tile_edge_count.items@, r);
            lemma_count_nonneg(pre.mega_tile_edge_count.items@, b);
            lemma_count_nonneg(pre.mega_tile_edge_count.items@, l);
        }
    }
}

/// A pair's running count is never negative.
pub proof fn lemma_pair_count_nonneg(pc: PairCounts, p: BorderPair)
    ensures
        pc.count_of(p) >= 0,
{
    lemma_count_nonneg(pc.items@, p);
}

/// A stored count is never negative.
proof fn lemma_count_nonneg(s: Seq<(BorderPair, usize)>, p: BorderPair)
    ensures
        count_in(s, p) >= 0,
    decreases s.len(),
{
    if s.len() > 0 && s[0].0 != p {
        lemma_count_nonneg(s.drop_first(), p);
    }
}

} // verus!
