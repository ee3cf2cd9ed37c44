//! The quad tree of sprite rectangles that answers which sprites may lie under a
//! pixel, kept in step with the sprites of the model.
use vstd::prelude::*;
use crate::app_state::SpriteInfo;
use crate::quad_tree::{
    QuadTree, candidates_from, cell_index, lemma_candidate_is_bound_near, lemma_candidates_distinct,
    lemma_rect_element_is_candidate, location_index, region_at, regions_distinct,
    spec_rect_index_and_level,
};

verus! {

/// A rectangle as `(left, top, right, bottom)`.
pub type PixelRect = (u32, u32, u32, u32);

/// The rectangle that a sprite covers.
pub open spec fn rect_of(s: SpriteInfo) -> PixelRect {
    (s.left, s.top, (s.left + s.width) as u32, (s.top + s.height) as u32)
}

/// The cell of the quad tree that a rectangle is bound to, as `(cell, level)`.
pub open spec fn rect_cell(r: PixelRect) -> (u64, nat) {
    spec_rect_index_and_level(r.0, r.1, r.2, r.3)
}

/// Rectangle `m` is bound to the cell `i` of level `l`.
pub open spec fn cell_is(rects: Seq<PixelRect>, m: usize, l: int, i: int) -> bool {
    &&& m < rects.len()
    &&& rect_cell(rects[m as int]).1 == l
    &&& rect_cell(rects[m as int]).0 as usize == i
}

/// The tree holds every rectangle once, in its own cell, and nothing else.
pub open spec fn indexes(qt: Seq<Seq<Seq<usize>>>, rects: Seq<PixelRect>) -> bool {
    &&& regions_distinct(qt)
    &&& forall|l: int, i: int, m: usize|
        #![trigger region_at(qt, l, i).contains(m)]
        #![trigger cell_is(rects, m, l, i)]
        region_at(qt, l, i).contains(m) <==> cell_is(rects, m, l, i)
}

/// As `indexes`, with rectangle `n` held nowhere.
pub open spec fn indexes_but(qt: Seq<Seq<Seq<usize>>>, rects: Seq<PixelRect>, n: usize) -> bool {
    &&& regions_distinct(qt)
    &&& forall|l: int, i: int, m: usize|
        #![trigger region_at(qt, l, i).contains(m)]
        #![trigger cell_is(rects, m, l, i)]
        region_at(qt, l, i).contains(m) <==> (m != n && cell_is(rects, m, l, i))
}

/// The rectangle holds the pixel `(x, y)`, edges included.
pub open spec fn covers(r: PixelRect, x: u32, y: u32) -> bool {
    r.0 <= x <= r.2 && r.1 <= y <= r.3
}

/// The rectangle holds the position `(x + dx, y + dy)`, edges included, where
/// `x` and `y` are whole pixels, `dx` is 0 unless `x_frac` holds and then lies
/// strictly between 0 and 1, and `dy` likewise with `y_frac`.
pub open spec fn covers_position(r: PixelRect, x: u32, x_frac: bool, y: u32, y_frac: bool) -> bool {
    &&& r.0 <= x
    &&& (x < r.2 || (x == r.2 && !x_frac))
    &&& r.1 <= y
    &&& (y < r.3 || (y == r.3 && !y_frac))
}

/// The sprites' rectangles as last seen, and the quad tree that holds them.
pub struct SpriteRectIndex {
    pub qt: QuadTree,
    pub rects: Vec<PixelRect>,
}

proof fn lemma_filter_keeps(s: Seq<usize>, n: usize, m: usize)
    ensures
        s.filter(|x: usize| x != n).contains(m) <==> (m != n && s.contains(m)),
{
    let p = |x: usize| x != n;
    let f = s.filter(p);
    if f.contains(m) {
        s.lemma_filter_contains_rev(p, m);
        let k = choose|k: int| 0 <= k < f.len() && #[trigger] f[k] == m;
        s.lemma_filter_pred(p, k);
    }
    if m != n && s.contains(m) {
        let k = choose|k: int| 0 <= k < s.len() && #[trigger] s[k] == m;
        s.lemma_filter_contains(p, k);
    }
}

impl SpriteRectIndex {
    /// No rectangles and an empty tree.
    pub fn new() -> (r: Self)
        ensures
            r.rects@ == Seq::<PixelRect>::empty(),
            r.qt@ == Seq::<Seq<Seq<usize>>>::empty(),
            indexes(r.qt@, r.rects@),
    {
        let r = SpriteRectIndex { qt: QuadTree::new(), rects: Vec::new() };
        assert forall|l: int, i: int, m: usize| region_at(r.qt@, l, i).contains(m) <==> cell_is(r.rects@, m, l, i) by {
        }
        r
    }

    /// The topmost rectangle (the one with the largest number) among those that the
    /// tree offers for the pixel `(x, y)` and that hold the position in it, or `None`
    /// when none does. The position is the pixel's corner, or a point inside the
    /// pixel to the right of it where `x_frac` holds, and below it where `y_frac` holds.
    pub fn pick(&self, x: u32, x_frac: bool, y: u32, y_frac: bool) -> (r: Option<usize>)
        requires
            indexes(self.qt@, self.rects@),
        ensures
            match r {
                None => forall|m: usize|
                    #[trigger] candidates_from(self.qt@, location_index(x, y), 0).contains(m)
                        ==> !covers_position(self.rects@[m as int], x, x_frac, y, y_frac),
                Some(n) => {
                    &&& candidates_from(self.qt@, location_index(x, y), 0).contains(n)
                    &&& n < self.rects@.len()
                    &&& covers_position(self.rects@[n as int], x, x_frac, y, y_frac)
                    &&& forall|m: usize|
                        #[trigger] candidates_from(self.qt@, location_index(x, y), 0).contains(m)
                            && covers_position(self.rects@[m as int], x, x_frac, y, y_frac) ==> m <= n
                },
            },
    {
        let ghost all = candidates_from(self.qt@, location_index(x, y), 0);
        proof {
            assert forall|k: int| 0 <= k < all.len() implies #[trigger] all[k] < self.rects@.len() by {
                assert(all.contains(all[k]));
                lemma_candidates_are_rects(self.qt@, self.rects@, x, y, all[k]);
            }
        }
        let mut it = self.qt.iter_possible_element_indices(x, y);
        let mut best: Option<usize> = None;
        let ghost mut seen: int = 0;
        assert(it.remaining() =~= all.skip(0));
        loop
            invariant
                all == candidates_from(self.qt@, location_index(x, y), 0),
                0 <= seen <= all.len(),
                it.remaining() == all.skip(seen),
                forall|k: int| 0 <= k < all.len() ==> #[trigger] all[k] < self.rects@.len(),
                match best {
                    None => forall|k: int| 0 <= k < seen ==> !covers_position(self.rects@[#[trigger] all[k] as int], x, x_frac, y, y_frac),
                    Some(n) => {
                        &&& exists|k: int| 0 <= k < seen && #[trigger] all[k] == n
                        &&& n < self.rects@.len()
                        &&& covers_position(self.rects@[n as int], x, x_frac, y, y_frac)
                        &&& forall|k: int| 0 <= k < seen && covers_position(self.rects@[#[trigger] all[k] as int], x, x_frac, y, y_frac) ==> all[k] <= n
                    },
                },
            ensures
                seen == all.len(),
                match best {
                    None => forall|k: int| 0 <= k < seen ==> !covers_position(self.rects@[#[trigger] all[k] as int], x, x_frac, y, y_frac),
                    Some(n) => {
                        &&& exists|k: int| 0 <= k < seen && #[trigger] all[k] == n
                        &&& n < self.rects@.len()
                        &&& covers_position(self.rects@[n as int], x, x_frac, y, y_frac)
                        &&& forall|k: int| 0 <= k < seen && covers_position(self.rects@[#[trigger] all[k] as int], x, x_frac, y, y_frac) ==> all[k] <= n
                    },
                },
            decreases all.len() - seen,
        {
            match it.next() {
                None => {
                    break;
                },
                Some(m) => {
                    assert(all.skip(seen)[0] == all[seen]);
                    assert(all.skip(seen).drop_first() =~= all.skip(seen + 1));
                    let rect = self.rects[m];
                    if rect.0 <= x && (x < rect.2 || (x == rect.2 && !x_frac)) && rect.1 <= y && (y < rect.3 || (
                        y == rect.3 && !y_frac)) {
                        best = match best {
                            None => Some(m),
                            Some(b) => if b < m { Some(m) } else { Some(b) },
                        };
                    }
                    proof {
                        seen = seen + 1;
                    }
                },
            }
        }
        proof {
            match best {
                None => {
                    assert forall|m: usize| #[trigger] all.contains(m) implies !covers_position(self.rects@[m as int], x, x_frac, y, y_frac) by {
                        let k = choose|k: int| 0 <= k < all.len() && all[k] == m;
                    }
                },
                Some(n) => {
                    assert forall|m: usize| #[trigger] all.contains(m) && covers_position(self.rects@[m as int], x, x_frac, y, y_frac) implies m <= n by {
                        let k = choose|k: int| 0 <= k < all.len() && all[k] == m;
                    }
                },
            }
        }
        best
    }

    /// Takes the sprites' rectangles as they are now: rectangles past the end are
    /// dropped, moved ones are rebound where their cell changed, and new ones are bound.
    pub fn sync(&mut self, sprites: &[SpriteInfo])
        requires
            indexes(old(self).qt@, old(self).rects@),
            forall|k: int|
                0 <= k < sprites@.len() ==> #[trigger] sprites@[k].left + sprites@[k].width
                    <= u32::MAX && sprites@[k].top + sprites@[k].height <= u32::MAX,
        ensures
            final(self).rects@ == sprites@.map_values(|s: SpriteInfo| rect_of(s)),
            indexes(final(self).qt@, final(self).rects@),
    {
        // sprites that are gone
        while self.rects.len() > sprites.len()
            invariant
                indexes(self.qt@, self.rects@),
            decreases self.rects.len(),
        {
            let n = self.rects.len() - 1;
            let old_rect = self.rects[n];
            let (index, level) = QuadTree::rect_index_and_level(old_rect.0, old_rect.1, old_rect.2, old_rect.3);
            let ghost before = self.qt@;
            let ghost rects = self.rects@;
            assert(cell_is(rects, n, level as int, index as usize as int));
            assert(region_at(before, level as int, index as usize as int).contains(n));
            self.qt.unbind(level, index as usize, n);
            self.rects.pop();
            proof {
                assert(self.rects@ =~= rects.drop_last());
                assert forall|l: int, i: int, m: usize| region_at(self.qt@, l, i).contains(m) <==> cell_is(self.rects@, m, l, i) by {
                    if l == level && i == index as usize {
                        lemma_filter_keeps(region_at(before, l, i), n, m);
                    }
                    assert(region_at(before, l, i).contains(m) <==> cell_is(rects, m, l, i));
                }
            }
        }
        // sprites that moved
        let common = self.rects.len();
        let mut n: usize = 0;
        while n < common
            invariant
                common == self.rects@.len(),
                common <= sprites@.len(),
                0 <= n <= common,
                indexes(self.qt@, self.rects@),
                forall|k: int| 0 <= k < n ==> #[trigger] self.rects@[k] == rect_of(sprites@[k]),
                forall|k: int|
                    0 <= k < sprites@.len() ==> #[trigger] sprites@[k].left + sprites@[k].width
                        <= u32::MAX && sprites@[k].top + sprites@[k].height <= u32::MAX,
            decreases common - n,
        {
            let old_rect = self.rects[n];
            let s = &sprites[n];
            let new_rect = (s.left, s.top, s.right(), s.bottom());
            assert(new_rect == rect_of(sprites@[n as int]));
            if old_rect.0 != new_rect.0 || old_rect.1 != new_rect.1 || old_rect.2 != new_rect.2
                || old_rect.3 != new_rect.3 {
                let (old_index, old_level) = QuadTree::rect_index_and_level(old_rect.0, old_rect.1, old_rect.2, old_rect.3);
                let (new_index, new_level) = QuadTree::rect_index_and_level(new_rect.0, new_rect.1, new_rect.2, new_rect.3);
                let ghost q0 = self.qt@;
                let ghost r0 = self.rects@;
                self.rects.set(n, new_rect);
                let ghost r1 = self.rects@;
                assert(r1 =~= r0.update(n as int, new_rect));
                if old_level == new_level && old_index == new_index {
                    assert forall|l: int, i: int, m: usize| region_at(self.qt@, l, i).contains(m) <==> cell_is(self.rects@, m, l, i) by {
                        assert(region_at(q0, l, i).contains(m) <==> cell_is(r0, m, l, i));
                    }
                } else {
                    assert(cell_is(r0, n, old_level as int, old_index as usize as int));
                    assert(region_at(q0, old_level as int, old_index as usize as int).contains(n));
                    self.qt.unbind(old_level, old_index as usize, n);
                    let ghost q1 = self.qt@;
                    assert(indexes_but(q1, r1, n)) by {
                        assert forall|l: int, i: int, m: usize| region_at(q1, l, i).contains(m) <==> (m != n && cell_is(r1, m, l, i)) by {
                            if l == old_level && i == old_index as usize {
                                lemma_filter_keeps(region_at(q0, l, i), n, m);
                            }
                            assert(region_at(q0, l, i).contains(m) <==> cell_is(r0, m, l, i));
                        }
                    }
                    self.qt.bind(new_level, new_index, n);
                    proof {
                        lemma_bind_completes(q1, self.qt@, r1, n, new_level as int, new_index as usize as int);
                    }
                }
            }
            n = n + 1;
        }
        // sprites that are new
        while self.rects.len() < sprites.len()
            invariant
                self.rects@.len() <= sprites@.len(),
                indexes(self.qt@, self.rects@),
                forall|k: int| 0 <= k < self.rects@.len() ==> #[trigger] self.rects@[k] == rect_of(sprites@[k]),
                forall|k: int|
                    0 <= k < sprites@.len() ==> #[trigger] sprites@[k].left + sprites@[k].width
                        <= u32::MAX && sprites@[k].top + sprites@[k].height <= u32::MAX,
            decreases sprites.len() - self.rects.len(),
        {
            let n = self.rects.len();
            let s = &sprites[n];
            let new_rect = (s.left, s.top, s.right(), s.bottom());
            let (index, level) = QuadTree::rect_index_and_level(new_rect.0, new_rect.1, new_rect.2, new_rect.3);
            let ghost q0 = self.qt@;
            let ghost r0 = self.rects@;
            self.rects.push(new_rect);
            let ghost r1 = self.rects@;
            assert(indexes_but(q0, r1, n)) by {
                assert forall|l: int, i: int, m: usize| region_at(q0, l, i).contains(m) <==> (m != n && cell_is(r1, m, l, i)) by {
                    assert(region_at(q0, l, i).contains(m) <==> cell_is(r0, m, l, i));
                    if m < n {
                        assert(r1[m as int] == r0[m as int]);
                    }
                }
            }
            self.qt.bind(level, index, n);
            proof {
                lemma_bind_completes(q0, self.qt@, r1, n, level as int, index as usize as int);
            }
        }
        assert(self.rects@ =~= sprites@.map_values(|s: SpriteInfo| rect_of(s)));
    }
}

/// Every element that the tree offers for a pixel is the number of a rectangle.
pub proof fn lemma_candidates_are_rects(
    qt: Seq<Seq<Seq<usize>>>,
    rects: Seq<PixelRect>,
    x: u32,
    y: u32,
    m: usize,
)
    requires
        indexes(qt, rects),
        candidates_from(qt, location_index(x, y), 0).contains(m),
    ensures
        m < rects.len(),
{
    lemma_candidate_is_bound_near(qt, x, y, m);
    let level = choose|level: nat|
        level < 32 && #[trigger] region_at(
            qt,
            level as int,
            cell_index(location_index(x, y), level) as int,
        ).contains(m);
    assert(cell_is(rects, m, level as int, cell_index(location_index(x, y), level) as int));
}

/// Every rectangle that holds a pixel is offered for it, unless it lies inside one
/// 16-pixel cell (level 32), or its cell is past what `usize` can count.
pub proof fn lemma_covering_rect_is_candidate(
    qt: Seq<Seq<Seq<usize>>>,
    rects: Seq<PixelRect>,
    n: usize,
    x: u32,
    y: u32,
)
    requires
        indexes(qt, rects),
        n < rects.len(),
        covers(rects[n as int], x, y),
        rect_cell(rects[n as int]).1 < 32,
        rect_cell(rects[n as int]).0 <= usize::MAX,
    ensures
        candidates_from(qt, location_index(x, y), 0).contains(n),
{
    let r = rects[n as int];
    let (index, level) = rect_cell(r);
    assert(cell_is(rects, n, level as int, index as usize as int));
    assert(index as usize == index);
    lemma_rect_element_is_candidate(qt, r.0, r.1, r.2, r.3, x, y, n);
}

/// The tree offers each rectangle at most once for a pixel: every rectangle is
/// bound to one cell only.
pub proof fn lemma_candidates_distinct_rects(qt: Seq<Seq<Seq<usize>>>, rects: Seq<PixelRect>, x: u32, y: u32)
    requires
        indexes(qt, rects),
    ensures
        candidates_from(qt, location_index(x, y), 0).no_duplicates(),
{
    let loc = location_index(x, y);
    assert forall|n: usize, l1: nat, l2: nat|
        0 <= l1 < l2 < 32 && #[trigger] region_at(qt, l1 as int, cell_index(loc, l1) as int).contains(n)
            implies !#[trigger] region_at(qt, l2 as int, cell_index(loc, l2) as int).contains(n) by {
        assert(cell_is(rects, n, l1 as int, cell_index(loc, l1) as int));
        if region_at(qt, l2 as int, cell_index(loc, l2) as int).contains(n) {
            assert(cell_is(rects, n, l2 as int, cell_index(loc, l2) as int));
        }
    }
    lemma_candidates_distinct(qt, loc, 0);
}

/// Binding the missing rectangle `n` to its own cell completes the index.
proof fn lemma_bind_completes(q1: Seq<Seq<Seq<usize>>>, q2: Seq<Seq<Seq<usize>>>, rects: Seq<PixelRect>, n: usize, level: int, index: int)
    requires
        indexes_but(q1, rects, n),
        cell_is(rects, n, level, index),
        regions_distinct(q1) ==> regions_distinct(q2),
        forall|l: int, i: int| (l != level || i != index) ==> #[trigger] region_at(q2, l, i) == region_at(q1, l, i),
        region_at(q2, level, index) == if region_at(q1, level, index).contains(n) {
            region_at(q1, level, index)
        } else {
            region_at(q1, level, index).push(n)
        },
    ensures
        indexes(q2, rects),
{
    assert forall|l: int, i: int, m: usize| region_at(q2, l, i).contains(m) <==> cell_is(rects, m, l, i) by {
        assert(region_at(q1, l, i).contains(m) <==> (m != n && cell_is(rects, m, l, i)));
        if l == level && i == index {
            let r = region_at(q1, l, i);
            assert(!r.contains(n));
            if r.push(n).contains(m) {
                let k = choose|k: int| 0 <= k < r.push(n).len() && r.push(n)[k] == m;
                if k < r.len() {
                    assert(r.contains(m));
                }
            }
            if cell_is(rects, m, l, i) && m != n {
                let k = choose|k: int| 0 <= k < r.len() && r[k] == m;
                assert(r.push(n)[k] == m);
            }
            assert(r.push(n)[r.len() as int] == n);
        } else {
            if m == n && cell_is(rects, m, l, i) {
                assert(false);
            }
        }
    }
}

} // verus!
