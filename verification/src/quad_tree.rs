//! A region quad tree over the atlas plane, addressed by Morton codes of
//! 16-pixel cells: level `L` splits the plane into `4^L` cells, and the cell of
//! a location at level `L` is the top `2 L` bits of its 64-bit Morton code.
use vstd::prelude::*;
use vstd::std_specs::bits::{u64_leading_zeros, axiom_u64_leading_zeros};

verus! {

/// The number of the bit positions of `x` spread apart: bit `i` of `x` becomes
/// bit `2 i` of the result, and every odd bit of the result is 0.
pub open spec fn spread(x: nat) -> nat
    decreases x,
{
    if x == 0 {
        0
    } else {
        x % 2 + 4 * spread(x / 2)
    }
}

/// The Morton code of the 16-pixel cell that holds the pixel `(x, y)`:
/// the bits of `x / 16` at the even positions, those of `y / 16` at the odd ones.
pub open spec fn location_index(x_pixels: u32, y_pixels: u32) -> u64 {
    (spread((x_pixels / 16) as nat) + 2 * spread((y_pixels / 16) as nat)) as u64
}

/// The cell at `level` (0 to 32) that holds the location `loc`: the top `2 * level` bits.
pub open spec fn cell_index(loc: u64, level: nat) -> u64 {
    if level == 0 {
        0
    } else {
        loc >> ((64 - 2 * level) as u64)
    }
}

/// Whether the locations `a` and `b` lie in one cell at `level`.
pub open spec fn same_cell(a: u64, b: u64, level: nat) -> bool {
    cell_index(a, level) == cell_index(b, level)
}

/// The level and cell of the smallest cell that holds both corners of a rectangle:
/// the deepest level (at most 32) at which both corners share a cell.
pub open spec fn spec_rect_index_and_level(left: u32, top: u32, right: u32, bottom: u32) -> (u64, nat) {
    let lt = location_index(left, top);
    let rb = location_index(right, bottom);
    let level = (u64_leading_zeros(lt ^ rb) / 2) as nat;
    (cell_index(lt, level), level)
}

/// The elements bound to the cell `index` of `level`; empty where that cell was never bound.
pub open spec fn region(regions: Seq<Seq<usize>>, index: int) -> Seq<usize> {
    if 0 <= index < regions.len() {
        regions[index]
    } else {
        Seq::empty()
    }
}

/// The number of cells of `level` that exist.
pub open spec fn level_len(qt: Seq<Seq<Seq<usize>>>, level: int) -> nat {
    if 0 <= level < qt.len() {
        qt[level].len()
    } else {
        0
    }
}

/// The elements bound to the cell `index` of `level`; empty where that level or
/// that cell was never created.
pub open spec fn region_at(qt: Seq<Seq<Seq<usize>>>, level: int, index: int) -> Seq<usize> {
    if 0 <= level < qt.len() {
        region(qt[level], index)
    } else {
        Seq::empty()
    }
}

/// The elements that may cover the location `loc`: those of its cell at each level
/// from `level` up to 31, level by level, in the order in which each cell holds them.
pub open spec fn candidates_from(qt: Seq<Seq<Seq<usize>>>, loc: u64, level: nat) -> Seq<usize>
    decreases 32 - level,
{
    if level >= 32 {
        Seq::empty()
    } else {
        region_at(qt, level as int, cell_index(loc, level) as int) + candidates_from(
            qt,
            loc,
            level + 1,
        )
    }
}

/// The bit trick that `interleave` computes, for the proofs below.
spec fn interleave_bits(bits: u64) -> u64 {
    let bits = bits & 0x0000_0000_ffff_ffffu64;
    let bits = (bits | (bits << 16u64)) & 0x0000_ffff_0000_ffffu64;
    let bits = (bits | (bits << 8u64)) & 0x00ff_00ff_00ff_00ffu64;
    let bits = (bits | (bits << 4u64)) & 0x0f0f_0f0f_0f0f_0f0fu64;
    let bits = (bits | (bits << 2u64)) & 0x3333_3333_3333_3333u64;
    let bits = (bits | (bits << 1u64)) & 0x5555_5555_5555_5555u64;
    bits
}

proof fn lemma_interleave_step(x: u64)
    by (bit_vector)
    requires
        x < 0x1_0000_0000u64,
    ensures
        interleave_bits(x) == (x & 1u64) + 4 * interleave_bits(x >> 1u64),
{
}

proof fn lemma_interleave_is_spread(x: u64)
    requires
        x < 0x1_0000_0000u64,
    ensures
        interleave_bits(x) as nat == spread(x as nat),
    decreases x,
{
    if x == 0 {
        assert(interleave_bits(0) == 0) by (bit_vector);
    } else {
        lemma_interleave_step(x);
        assert((x & 1u64) == x % 2 && (x >> 1u64) == x / 2) by (bit_vector);
        lemma_interleave_is_spread(x >> 1u64);
    }
}

proof fn lemma_interleave_combine(a: u64, b: u64)
    by (bit_vector)
    requires
        a < 0x1_0000_0000u64,
        b < 0x1_0000_0000u64,
    ensures
        interleave_bits(a) | (interleave_bits(b) << 1u64) == interleave_bits(a) + 2
            * interleave_bits(b),
        interleave_bits(a) + 2 * interleave_bits(b) <= 0xffff_ffff_ffff_ffffu64,
{
}

proof fn lemma_interleave_bound(x: u64)
    by (bit_vector)
    requires
        x < 0x1000_0000u64,
    ensures
        interleave_bits(x) <= 0x55_5555_5555_5555u64,
{
}

proof fn lemma_interleave_prefix(x: u64, y: u64, s: u64, t: u64)
    by (bit_vector)
    requires
        x < 0x1_0000_0000u64,
        y < 0x1_0000_0000u64,
        s <= 32,
        t == s + s,
    ensures
        (interleave_bits(x) | (interleave_bits(y) << 1u64)) >> t == interleave_bits(x >> s) | (
        interleave_bits(y >> s) << 1u64),
{
}

proof fn lemma_interleave_injective(a: u64, b: u64, c: u64, d: u64)
    by (bit_vector)
    requires
        a < 0x1_0000_0000u64,
        b < 0x1_0000_0000u64,
        c < 0x1_0000_0000u64,
        d < 0x1_0000_0000u64,
        interleave_bits(a) | (interleave_bits(b) << 1u64) == interleave_bits(c) | (interleave_bits(
            d,
        ) << 1u64),
    ensures
        a == c,
        b == d,
{
}

/// Spreads the bits of a 32-bit value one position apart: bit `i` becomes bit `2 i`.
/// For example `0b11000110` becomes `0b01_01_00_00_00_01_01_00`.
fn interleave(bits: u64) -> (r: u64)
    requires
        bits < 0x1_0000_0000u64,
    ensures
        r == spread(bits as nat),
        r == interleave_bits(bits),
{
    proof {
        lemma_interleave_is_spread(bits);
    }
    let bits = bits & 0x0000_0000_ffff_ffff;
    let bits = (bits | (bits << 16)) & 0x0000_ffff_0000_ffff;
    let bits = (bits | (bits << 8)) & 0x00ff_00ff_00ff_00ff;
    let bits = (bits | (bits << 4)) & 0x0f0f_0f0f_0f0f_0f0f;
    let bits = (bits | (bits << 2)) & 0x3333_3333_3333_3333;
    let bits = (bits | (bits << 1)) & 0x5555_5555_5555_5555;
    bits
}

/// The location as the Morton code of the interleaved cell coordinates.
proof fn lemma_location_index_bits(x_pixels: u32, y_pixels: u32)
    ensures
        ({
            let xv = (x_pixels / 16) as u64;
            let yv = (y_pixels / 16) as u64;
            &&& xv < 0x1000_0000u64
            &&& yv < 0x1000_0000u64
            &&& location_index(x_pixels, y_pixels) == interleave_bits(xv) | (interleave_bits(yv)
                << 1u64)
            &&& location_index(x_pixels, y_pixels) < 0x100_0000_0000_0000u64
        }),
{
    let xv = (x_pixels / 16) as u64;
    let yv = (y_pixels / 16) as u64;
    lemma_interleave_is_spread(xv);
    lemma_interleave_is_spread(yv);
    lemma_interleave_combine(xv, yv);
    lemma_interleave_bound(xv);
    lemma_interleave_bound(yv);
}

/// The region quad tree: `element_index_for_region[level][cell]` holds the
/// elements bound to that cell, each once.
pub struct QuadTree {
    pub element_index_for_region: Vec<Vec<Vec<usize>>>,
}

impl View for QuadTree {
    type V = Seq<Seq<Seq<usize>>>;

    open spec fn view(&self) -> Seq<Seq<Seq<usize>>> {
        Seq::new(
            self.element_index_for_region@.len(),
            |l: int|
                Seq::new(
                    self.element_index_for_region@[l]@.len(),
                    |i: int| self.element_index_for_region@[l]@[i]@,
                ),
        )
    }
}

/// No cell holds an element twice.
pub open spec fn regions_distinct(qt: Seq<Seq<Seq<usize>>>) -> bool {
    forall|l: int, i: int| 0 <= l < qt.len() && 0 <= i < qt[l].len() ==> #[trigger] qt[l][i].no_duplicates()
}

impl QuadTree {
    /// An empty tree.
    pub fn new() -> (qt: Self)
        ensures
            qt@ == Seq::<Seq<Seq<usize>>>::empty(),
    {
        QuadTree { element_index_for_region: Vec::new() }
    }

    /// Takes the element `n` out of the cell `index` of `level`.
    pub fn unbind(&mut self, level: usize, index: usize, n: usize)
        requires
            level < old(self)@.len(),
            index < old(self)@[level as int].len(),
        ensures
            final(self)@.len() == old(self)@.len(),
            forall|l: int| 0 <= l < final(self)@.len() ==> #[trigger] final(self)@[l].len() == old(self)@[l].len(),
            forall|l: int, i: int|
                0 <= l < final(self)@.len() && 0 <= i < final(self)@[l].len() && (l != level || i != index)
                    ==> #[trigger] final(self)@[l][i] == old(self)@[l][i],
            final(self)@[level as int][index as int] == old(self)@[level as int][index as int].filter(
                |m: usize| m != n,
            ),
            forall|l: int, i: int|
                (l != level || i != index) ==> #[trigger] region_at(final(self)@, l, i)
                    == region_at(old(self)@, l, i),
            region_at(final(self)@, level as int, index as int) == region_at(old(self)@, level as int, index as int).filter(
                |m: usize| m != n,
            ),
            regions_distinct(old(self)@) ==> regions_distinct(final(self)@),
    {
        let ghost old_v = self@;
        let ghost old_raw = self.element_index_for_region@;
        let mut row: Vec<Vec<usize>> = Vec::new();
        std::mem::swap(&mut row, &mut self.element_index_for_region[level]);
        let ghost old_row = row@;
        assert(old_row == old_raw[level as int]@);
        assert(old_v[level as int].len() == old_row.len());
        let row_len = row.len();
        assert(index < row_len);
        let cell = filtered(&row[index], n);
        row.set(index, cell);
        self.element_index_for_region.set(level, row);
        proof {
            let new_v = self@;
            assert forall|l: int, i: int|
                0 <= l < new_v.len() && 0 <= i < new_v[l].len() && (l != level || i != index)
                    implies #[trigger] new_v[l][i] == old_v[l][i] by {
                if l == level {
                    assert(row@[i] == old_row[i]);
                    assert(old_row[i] == old_raw[l]@[i]);
                } else {
                    assert(self.element_index_for_region@[l] == old_raw[l]);
                }
                assert(new_v[l][i] =~= old_v[l][i]);
            }
            assert(new_v[level as int][index as int] =~= old_v[level as int][index as int].filter(
                |m: usize| m != n,
            ));
            if regions_distinct(old_v) {
                assert forall|l: int, i: int| 0 <= l < new_v.len() && 0 <= i < new_v[l].len() implies #[trigger] new_v[l][i].no_duplicates() by {
                    assert(old_v[l][i].no_duplicates());
                    if l == level && i == index {
                        lemma_filter_distinct(old_v[l][i], n);
                    }
                }
            }
        }
    }

    /// Binds the element `n` to the cell `index` of `level`, creating empty cells up to it.
    pub fn bind(&mut self, level: usize, index: u64, n: usize)
        ensures
            final(self)@.len() == if old(self)@.len() > level { old(self)@.len() as int } else { level
                + 1 },
            forall|l: int|
                0 <= l < final(self)@.len() && l != level ==> #[trigger] final(self)@[l] == if l
                    < old(self)@.len() {
                    old(self)@[l]
                } else {
                    Seq::<Seq<usize>>::empty()
                },
            final(self)@[level as int].len() == if level_len(old(self)@, level as int) > index
                as usize {
                level_len(old(self)@, level as int) as int
            } else {
                index as usize + 1
            },
            forall|i: int|
                0 <= i < final(self)@[level as int].len() && i != index as usize
                    ==> #[trigger] final(self)@[level as int][i] == region_at(
                    old(self)@,
                    level as int,
                    i,
                ),
            final(self)@[level as int][index as usize as int] == if region_at(
                old(self)@,
                level as int,
                index as usize as int,
            ).contains(n) {
                region_at(old(self)@, level as int, index as usize as int)
            } else {
                region_at(old(self)@, level as int, index as usize as int).push(n)
            },
            regions_distinct(old(self)@) ==> regions_distinct(final(self)@),
            forall|l: int, i: int|
                (l != level || i != index as usize) ==> #[trigger] region_at(final(self)@, l, i)
                    == region_at(old(self)@, l, i),
            region_at(final(self)@, level as int, index as usize as int) == if region_at(
                old(self)@,
                level as int,
                index as usize as int,
            ).contains(n) {
                region_at(old(self)@, level as int, index as usize as int)
            } else {
                region_at(old(self)@, level as int, index as usize as int).push(n)
            },
    {
        let ghost old_raw = self.element_index_for_region@;
        let idx = index as usize;
        while self.element_index_for_region.len() <= level
            invariant
                old_raw.len() <= self.element_index_for_region@.len(),
                self.element_index_for_region@.len() == old_raw.len()
                    || self.element_index_for_region@.len() <= level + 1,
                forall|l: int|
                    0 <= l < old_raw.len() ==> #[trigger] self.element_index_for_region@[l]
                        == old_raw[l],
                forall|l: int|
                    old_raw.len() <= l < self.element_index_for_region@.len()
                        ==> #[trigger] self.element_index_for_region@[l]@.len() == 0,
            decreases level + 1 - self.element_index_for_region.len(),
        {
            self.element_index_for_region.push(Vec::new());
        }
        let ghost mid_raw = self.element_index_for_region@;
        let mut row: Vec<Vec<usize>> = Vec::new();
        std::mem::swap(&mut row, &mut self.element_index_for_region[level]);
        let ghost mid_row = row@;
        while row.len() <= idx
            invariant
                mid_row.len() <= row@.len(),
                row@.len() == mid_row.len() || row@.len() <= idx + 1,
                forall|i: int| 0 <= i < mid_row.len() ==> #[trigger] row@[i] == mid_row[i],
                forall|i: int| mid_row.len() <= i < row@.len() ==> #[trigger] row@[i]@.len() == 0,
            decreases idx + 1 - row.len(),
        {
            row.push(Vec::new());
        }
        let ghost before = row@[idx as int]@;
        if !contains(&row[idx], n) {
            row[idx].push(n);
        }
        self.element_index_for_region.set(level, row);
        proof {
            let old_v = old(self)@;
            let new_v = self@;
            assert forall|l: int|
                0 <= l < new_v.len() && l != level implies #[trigger] new_v[l] == if l
                    < old_v.len() {
                    old_v[l]
                } else {
                    Seq::<Seq<usize>>::empty()
                } by {
                if l < old_v.len() {
                    assert(new_v[l] =~= old_v[l]);
                } else {
                    assert(new_v[l] =~= Seq::<Seq<usize>>::empty());
                }
            }
            assert(before =~= region_at(old_v, level as int, index as usize as int));
            assert forall|i: int|
                0 <= i < new_v[level as int].len() && i != index as usize
                    implies #[trigger] new_v[level as int][i] == region_at(old_v, level as int, i) by {
                assert(new_v[level as int][i] =~= region_at(old_v, level as int, i));
            }
            if regions_distinct(old_v) {
                assert forall|l: int, i: int|
                    0 <= l < new_v.len() && 0 <= i < new_v[l].len() implies #[trigger] new_v[l][i].no_duplicates() by {
                    if l != level {
                        if l < old_v.len() {
                            assert(new_v[l][i] == old_v[l][i]);
                        }
                    } else if i != index as usize {
                        assert(new_v[l][i] == region_at(old_v, level as int, i));
                    } else {
                        let before_r = region_at(old_v, level as int, i);
                        if level < old_v.len() && i < old_v[level as int].len() {
                            assert(old_v[level as int][i].no_duplicates());
                        }
                        if !before_r.contains(n) {
                            assert forall|a: int, b: int|
                                0 <= a < b < before_r.push(n).len() implies before_r.push(n)[a] != before_r.push(n)[b] by {
                                if b == before_r.len() {
                                    assert(before_r[a] != n);
                                }
                            }
                        }
                    }
                }
            }
        }
    }

    /// The Morton code of the 16-pixel cell holding `(x, y)`.
    pub fn compute_location_index(location_x_pixels: u32, location_y_pixels: u32) -> (r: u64)
        ensures
            r == location_index(location_x_pixels, location_y_pixels),
            r < 0x100_0000_0000_0000u64,
    {
        proof {
            lemma_location_index_bits(location_x_pixels, location_y_pixels);
        }
        let (xv, yv) = ((location_x_pixels >> 4) as u64, (location_y_pixels >> 4) as u64);
        assert(xv == location_x_pixels / 16 && yv == location_y_pixels / 16) by (bit_vector)
            requires
                xv == (location_x_pixels >> 4) as u64,
                yv == (location_y_pixels >> 4) as u64,
        ;
        interleave(xv) | (interleave(yv) << 1)
    }

    /// The smallest cell that holds both the top-left and the bottom-right corner of a
    /// rectangle, as `(cell, level)`: the deepest level at which both corners share a
    /// cell (never above 4, at most 32), and that cell.
    pub fn rect_index_and_level(left: u32, top: u32, right: u32, bottom: u32) -> (r: (u64, usize))
        ensures
            (r.0, r.1 as nat) == spec_rect_index_and_level(left, top, right, bottom),
            4 <= r.1 <= 32,
            same_cell(location_index(left, top), location_index(right, bottom), r.1 as nat),
            r.1 < 32 ==> !same_cell(
                location_index(left, top),
                location_index(right, bottom),
                r.1 as nat + 1,
            ),
            r.0 == cell_index(location_index(left, top), r.1 as nat),
    {
        let lt_location = Self::compute_location_index(left, top);
        let rb_location = Self::compute_location_index(right, bottom);
        let xor = lt_location ^ rb_location;
        proof {
            lemma_common_level(lt_location, rb_location);
        }
        let lz = xor.leading_zeros();
        let level = (lz / 2) as usize;
        let index = lt_location >> (64 - level * 2);
        (index, level)
    }

    /// The elements that may cover the pixel `(x, y)`: those bound to the cell that
    /// holds it at each level from 0 up to 31, level by level.
    pub fn iter_possible_element_indices(&self, x_pixels: u32, y_pixels: u32) -> (it:
        QuadTreeElementIndexIter<'_>)
        ensures
            it.remaining() == candidates_from(self@, location_index(x_pixels, y_pixels), 0),
    {
        let it = QuadTreeElementIndexIter {
            qt: self,
            index: Self::compute_location_index(x_pixels, y_pixels),
            current_level: 0,
            position: 0,
        };
        assert(region_at(self@, 0, cell_index(it.index, 0) as int).skip(0) =~= region_at(
            self@,
            0,
            cell_index(it.index, 0) as int,
        ));
        it
    }

}

/// Two locations agree above bit `k` exactly when their difference does not reach it.
proof fn lemma_shift_xor(a: u64, b: u64, k: u64)
    by (bit_vector)
    ensures
        ((a ^ b) >> k == 0) == (a >> k == b >> k),
{
}

proof fn lemma_shift_further(x: u64, k1: u64, k2: u64)
    by (bit_vector)
    requires
        x >> k1 == 0,
        k1 <= k2,
    ensures
        x >> k2 == 0,
{
}

proof fn lemma_set_bit_survives(x: u64, j: u64, k: u64)
    by (bit_vector)
    requires
        (x >> j) & 1u64 != 0u64,
        k <= j,
    ensures
        x >> k != 0,
{
}

proof fn lemma_small_xor(a: u64, b: u64, j: u64)
    by (bit_vector)
    requires
        a < 0x100_0000_0000_0000u64,
        b < 0x100_0000_0000_0000u64,
        56 <= j < 64,
    ensures
        ((a ^ b) >> j) & 1u64 == 0u64,
{
}

proof fn lemma_shift_monotone(a: u64, b: u64, k: u64)
    by (bit_vector)
    requires
        a <= b,
    ensures
        a >> k <= b >> k,
{
}

/// The level that `rect_index_and_level` picks for two locations below `2^56`, and what it means.
proof fn lemma_common_level(lt: u64, rb: u64)
    requires
        lt < 0x100_0000_0000_0000u64,
        rb < 0x100_0000_0000_0000u64,
    ensures
        ({
            let level = (u64_leading_zeros(lt ^ rb) / 2) as nat;
            &&& 4 <= level <= 32
            &&& same_cell(lt, rb, level)
            &&& level < 32 ==> !same_cell(lt, rb, level + 1)
        }),
{
    let x = lt ^ rb;
    axiom_u64_leading_zeros(x);
    let lz = u64_leading_zeros(x);
    let level = (lz / 2) as nat;
    if lz < 64 {
        let j = (63 - lz) as u64;
        if j >= 56 {
            lemma_small_xor(lt, rb, j);
        }
        assert(j < 56);
        let k = (64 - 2 * (level + 1)) as u64;
        lemma_set_bit_survives(x, j, k);
        lemma_shift_xor(lt, rb, k);
    }
    let k0 = (64 - lz) as u64;
    let k = (64 - 2 * level) as u64;
    lemma_shift_further(x, k0, k);
    lemma_shift_xor(lt, rb, k);
}

/// A location in a rectangle shares with both its corners every cell that they share.
proof fn lemma_inside_same_cell(
    x: u32,
    y: u32,
    left: u32,
    top: u32,
    right: u32,
    bottom: u32,
    level: nat,
)
    requires
        left <= x <= right,
        top <= y <= bottom,
        1 <= level <= 32,
        same_cell(location_index(left, top), location_index(right, bottom), level),
    ensures
        same_cell(location_index(x, y), location_index(left, top), level),
{
    lemma_location_index_bits(x, y);
    lemma_location_index_bits(left, top);
    lemma_location_index_bits(right, bottom);
    let s = (32 - level) as u64;
    let t = (64 - 2 * level) as u64;
    let (xl, yl) = ((left / 16) as u64, (top / 16) as u64);
    let (xr, yr) = ((right / 16) as u64, (bottom / 16) as u64);
    let (xp, yp) = ((x / 16) as u64, (y / 16) as u64);
    lemma_interleave_prefix(xl, yl, s, t);
    lemma_interleave_prefix(xr, yr, s, t);
    lemma_interleave_prefix(xp, yp, s, t);
    assert((xl >> s) < 0x1_0000_0000u64 && (yl >> s) < 0x1_0000_0000u64 && (xr >> s)
        < 0x1_0000_0000u64 && (yr >> s) < 0x1_0000_0000u64) by (bit_vector)
        requires
            xl < 0x1000_0000u64,
            yl < 0x1000_0000u64,
            xr < 0x1000_0000u64,
            yr < 0x1000_0000u64,
    ;
    lemma_interleave_injective(xl >> s, yl >> s, xr >> s, yr >> s);
    assert(xl <= xp <= xr && yl <= yp <= yr);
    lemma_shift_monotone(xl, xp, s);
    lemma_shift_monotone(xp, xr, s);
    lemma_shift_monotone(yl, yp, s);
    lemma_shift_monotone(yp, yr, s);
}

/// Every element of a cell that holds `loc`, from `from` up to level 31, is among the candidates.
proof fn lemma_candidates_contain(qt: Seq<Seq<Seq<usize>>>, loc: u64, from: nat, level: nat, n: usize)
    requires
        from <= level < 32,
        region_at(qt, level as int, cell_index(loc, level) as int).contains(n),
    ensures
        candidates_from(qt, loc, from).contains(n),
    decreases level - from,
{
    let here = region_at(qt, from as int, cell_index(loc, from) as int);
    let rest = candidates_from(qt, loc, from + 1);
    if from == level {
        let k = choose|k: int| 0 <= k < here.len() && here[k] == n;
        assert((here + rest)[k] == n);
    } else {
        lemma_candidates_contain(qt, loc, from + 1, level, n);
        let k = choose|k: int| 0 <= k < rest.len() && rest[k] == n;
        assert((here + rest)[here.len() + k] == n);
    }
}

/// Every candidate belongs to the cell of `loc` at some level from `from` up to 31.
proof fn lemma_candidates_sound(qt: Seq<Seq<Seq<usize>>>, loc: u64, from: nat, n: usize)
    requires
        candidates_from(qt, loc, from).contains(n),
    ensures
        exists|level: nat|
            from <= level < 32 && #[trigger] region_at(qt, level as int, cell_index(loc, level) as int).contains(n),
    decreases 32 - from,
{
    let here = region_at(qt, from as int, cell_index(loc, from) as int);
    let rest = candidates_from(qt, loc, from + 1);
    let k = choose|k: int| 0 <= k < (here + rest).len() && (here + rest)[k] == n;
    if k < here.len() {
        assert(here[k] == n);
        assert(region_at(qt, from as int, cell_index(loc, from) as int).contains(n));
    } else {
        assert(rest[k - here.len()] == n);
        lemma_candidates_sound(qt, loc, from + 1, n);
    }
}

/// What the tree is for: an element bound to the cell of a rectangle (at a level
/// below 32) is a candidate of every pixel inside the rectangle.
pub proof fn lemma_rect_element_is_candidate(
    qt: Seq<Seq<Seq<usize>>>,
    left: u32,
    top: u32,
    right: u32,
    bottom: u32,
    x: u32,
    y: u32,
    n: usize,
)
    requires
        left <= x <= right,
        top <= y <= bottom,
        spec_rect_index_and_level(left, top, right, bottom).1 < 32,
        region_at(
            qt,
            spec_rect_index_and_level(left, top, right, bottom).1 as int,
            spec_rect_index_and_level(left, top, right, bottom).0 as int,
        ).contains(n),
    ensures
        candidates_from(qt, location_index(x, y), 0).contains(n),
{
    let (index, level) = spec_rect_index_and_level(left, top, right, bottom);
    let lt = location_index(left, top);
    let rb = location_index(right, bottom);
    lemma_location_index_bits(left, top);
    lemma_location_index_bits(right, bottom);
    lemma_common_level(lt, rb);
    lemma_inside_same_cell(x, y, left, top, right, bottom, level);
    lemma_candidates_contain(qt, location_index(x, y), 0, level, n);
}

/// Every candidate of a pixel is bound to a cell that holds the pixel, at a level below 32.
pub proof fn lemma_candidate_is_bound_near(qt: Seq<Seq<Seq<usize>>>, x: u32, y: u32, n: usize)
    requires
        candidates_from(qt, location_index(x, y), 0).contains(n),
    ensures
        exists|level: nat|
            level < 32 && #[trigger] region_at(
                qt,
                level as int,
                cell_index(location_index(x, y), level) as int,
            ).contains(n),
{
    lemma_candidates_sound(qt, location_index(x, y), 0, n);
}

/// Two pixels get the same Morton code exactly when they lie in the same 16-pixel cell.
pub proof fn lemma_location_index_identifies_cell(x1: u32, y1: u32, x2: u32, y2: u32)
    ensures
        (location_index(x1, y1) == location_index(x2, y2)) <==> (x1 / 16 == x2 / 16 && y1 / 16
            == y2 / 16),
{
    lemma_location_index_bits(x1, y1);
    lemma_location_index_bits(x2, y2);
    if location_index(x1, y1) == location_index(x2, y2) {
        lemma_interleave_injective(
            (x1 / 16) as u64,
            (y1 / 16) as u64,
            (x2 / 16) as u64,
            (y2 / 16) as u64,
        );
    }
}

/// Unbinding an element from the cell it was just bound to leaves that cell as
/// it was before, when the element was not there yet.
pub proof fn lemma_bind_then_unbind(cell: Seq<usize>, n: usize)
    requires
        !cell.contains(n),
    ensures
        cell.push(n).filter(|m: usize| m != n) == cell,
{
    let p = |m: usize| m != n;
    assert forall|k: int| 0 <= k < cell.len() implies p(#[trigger] cell[k]) by {
        assert(cell.contains(cell[k]));
    }
    lemma_filter_keeps_all(cell, p);
    cell.lemma_filter_push(n, p);
}

/// Filtering by a predicate that every element meets keeps the sequence.
pub(crate) proof fn lemma_filter_keeps_all<A>(s: Seq<A>, p: spec_fn(A) -> bool)
    requires
        forall|k: int| 0 <= k < s.len() ==> p(#[trigger] s[k]),
    ensures
        s.filter(p) == s,
    decreases s.len(),
{
    if s.len() > 0 {
        lemma_filter_keeps_all(s.drop_last(), p);
        assert(s.drop_last().push(s.last()) =~= s);
        s.drop_last().lemma_filter_push(s.last(), p);
    } else {
        assert(s.filter(p) =~= s) by {
            reveal(Seq::filter);
        }
    }
}

/// One call of `next` on the elements `rem` still to come: what it returns and
/// what is left to come.
pub open spec fn spec_step(rem: Seq<usize>) -> (Option<usize>, Seq<usize>) {
    if rem.len() == 0 {
        (None, rem)
    } else {
        (Some(rem[0]), rem.drop_first())
    }
}

/// What `k` calls of `next` in a row return, starting with the elements `rem` to come.
pub open spec fn spec_run(rem: Seq<usize>, k: nat) -> Seq<Option<usize>>
    decreases k,
{
    if k == 0 {
        Seq::empty()
    } else {
        seq![spec_step(rem).0] + spec_run(spec_step(rem).1, (k - 1) as nat)
    }
}

/// The number of elements bound to the cells that hold `loc`, from `level` up to 31.
pub open spec fn candidate_count(qt: Seq<Seq<Seq<usize>>>, loc: u64, level: nat) -> nat
    decreases 32 - level,
{
    if level >= 32 {
        0
    } else {
        region_at(qt, level as int, cell_index(loc, level) as int).len() + candidate_count(
            qt,
            loc,
            level + 1,
        )
    }
}

/// Calling `next` again and again yields the elements still to come, in order,
/// and then `None` on every later call.
pub proof fn lemma_run_yields_all_then_none(rem: Seq<usize>, k: nat)
    ensures
        spec_run(rem, k).len() == k,
        forall|i: int|
            0 <= i < k ==> #[trigger] spec_run(rem, k)[i] == if i < rem.len() {
                Some(rem[i])
            } else {
                None
            },
    decreases k,
{
    if k > 0 {
        let (h, t) = spec_step(rem);
        lemma_run_yields_all_then_none(t, (k - 1) as nat);
        let run = spec_run(rem, k);
        assert forall|i: int| 0 <= i < k implies #[trigger] run[i] == if i < rem.len() {
            Some(rem[i])
        } else {
            None
        } by {
            if i > 0 {
                assert(run[i] == spec_run(t, (k - 1) as nat)[i - 1]);
                if rem.len() > 0 && i < rem.len() {
                    assert(t[i - 1] == rem[i]);
                }
            }
        }
    }
}

/// The iteration over the pixel with location `loc` yields as many elements as the
/// cells that hold it have, from `level` up to 31.
pub proof fn lemma_candidate_count(qt: Seq<Seq<Seq<usize>>>, loc: u64, level: nat)
    ensures
        candidates_from(qt, loc, level).len() == candidate_count(qt, loc, level),
    decreases 32 - level,
{
    if level < 32 {
        lemma_candidate_count(qt, loc, level + 1);
    }
}

/// The iteration over the pixel with location `loc` yields no element twice when
/// no cell holds an element twice and no element is bound to two of the cells
/// that hold `loc`.
pub proof fn lemma_candidates_distinct(qt: Seq<Seq<Seq<usize>>>, loc: u64, level: nat)
    requires
        regions_distinct(qt),
        forall|n: usize, l1: nat, l2: nat|
            level <= l1 < l2 < 32 && #[trigger] region_at(qt, l1 as int, cell_index(loc, l1) as int).contains(n)
                ==> !#[trigger] region_at(qt, l2 as int, cell_index(loc, l2) as int).contains(n),
    ensures
        candidates_from(qt, loc, level).no_duplicates(),
    decreases 32 - level,
{
    if level < 32 {
        let here = region_at(qt, level as int, cell_index(loc, level) as int);
        let rest = candidates_from(qt, loc, level + 1);
        lemma_candidates_distinct(qt, loc, level + 1);
        assert(here.no_duplicates()) by {
            if 0 <= level < qt.len() && 0 <= cell_index(loc, level) < qt[level as int].len() {
                assert(qt[level as int][cell_index(loc, level) as int].no_duplicates());
            }
        }
        let all = here + rest;
        assert forall|a: int, b: int| 0 <= a < b < all.len() implies all[a] != all[b] by {
            if b >= here.len() && a < here.len() {
                let n = all[a];
                assert(here.contains(n));
                if rest.contains(all[b]) && all[b] == n {
                    lemma_candidates_sound(qt, loc, level + 1, n);
                    let l2 = choose|l2: nat|
                        level + 1 <= l2 < 32 && #[trigger] region_at(qt, l2 as int, cell_index(loc, l2) as int).contains(n);
                    assert(region_at(qt, level as int, cell_index(loc, level) as int).contains(n));
                }
                assert(rest[b - here.len()] == all[b]);
                assert(rest.contains(all[b]));
            } else if a >= here.len() {
                assert(rest[a - here.len()] == all[a]);
                assert(rest[b - here.len()] == all[b]);
            }
        }
    }
}

/// The iteration of `QuadTree::iter_possible_element_indices`: the cell of level
/// `current_level` that holds `index` is read from `position` on, then the next levels.
pub struct QuadTreeElementIndexIter<'a> {
    qt: &'a QuadTree,
    index: u64,
    current_level: usize,
    position: usize,
}

impl<'a> QuadTreeElementIndexIter<'a> {
    #[verifier::type_invariant]
    spec fn inv(self) -> bool {
        &&& self.current_level <= 32
        &&& self.current_level < 32 ==> self.position <= region_at(
            self.qt@,
            self.current_level as int,
            cell_index(self.index, self.current_level as nat) as int,
        ).len()
    }

    /// The elements that are still to come, in order.
    pub closed spec fn remaining(&self) -> Seq<usize> {
        if self.current_level >= 32 {
            Seq::empty()
        } else {
            region_at(
                self.qt@,
                self.current_level as int,
                cell_index(self.index, self.current_level as nat) as int,
            ).skip(self.position as int) + candidates_from(
                self.qt@,
                self.index,
                self.current_level as nat + 1,
            )
        }
    }

    /// The next element, or `None` once all have come.
    pub fn next(&mut self) -> (r: Option<usize>)
        ensures
            old(self).remaining().len() == 0 ==> r is None && final(self).remaining()
                == old(self).remaining(),
            old(self).remaining().len() > 0 ==> r == Some(old(self).remaining()[0])
                && final(self).remaining() == old(self).remaining().drop_first(),
            (r, final(self).remaining()) == spec_step(old(self).remaining()),
    {
        let ghost start = self.remaining();
        loop
            invariant
                self.remaining() == start,
                start == old(self).remaining(),
                self.qt == old(self).qt,
                self.index == old(self).index,
            decreases 32 - self.current_level,
        {
            proof {
                use_type_invariant(&*self);
            }
            if self.current_level >= 32 {
                assert(start =~= Seq::<usize>::empty());
                return None;
            }
            let level = self.current_level;
            let cell = if level == 0 {
                0
            } else {
                self.index >> (64 - level * 2)
            };
            let ghost here = region_at(self.qt@, level as int, cell as int);
            let regions = &self.qt.element_index_for_region;
            let mut found: Option<usize> = None;
            if level < regions.len() && cell < regions[level].len() as u64 {
                let r = &regions[level][cell as usize];
                assert(r@ == here);
                if self.position < r.len() {
                    found = Some(r[self.position]);
                }
            }
            match found {
                Some(x) => {
                    let ghost rest = candidates_from(self.qt@, self.index, level as nat + 1);
                    assert(start =~= here.skip(self.position as int) + rest);
                    assert(here.skip(self.position as int)[0] == x);
                    assert(start[0] == x);
                    assert(here.skip(self.position as int + 1) =~= here.skip(
                        self.position as int,
                    ).drop_first());
                    self.position = self.position + 1;
                    assert(self.remaining() =~= start.drop_first());
                    return Some(x);
                },
                None => {
                    assert(here.skip(self.position as int) =~= Seq::<usize>::empty());
                    self.position = 0;
                    self.current_level = level + 1;
                    proof {
                        if level + 1 < 32 {
                            let nxt = region_at(
                                self.qt@,
                                level + 1,
                                cell_index(self.index, level as nat + 1) as int,
                            );
                            assert(nxt.skip(0) =~= nxt);
                        }
                        assert(self.remaining() =~= start);
                    }
                },
            }
        }
    }
}

proof fn lemma_filter_distinct(s: Seq<usize>, n: usize)
    requires
        s.no_duplicates(),
    ensures
        s.filter(|m: usize| m != n).no_duplicates(),
    decreases s.len(),
{
    reveal_with_fuel(Seq::filter, 1);
    if s.len() > 0 {
        lemma_filter_distinct(s.drop_last(), n);
        let f = s.drop_last().filter(|m: usize| m != n);
        if s.last() != n {
            assert(!f.contains(s.last())) by {
                if f.contains(s.last()) {
                    s.drop_last().lemma_filter_contains_rev(|m: usize| m != n, s.last());
                    let k = choose|k: int| 0 <= k < s.drop_last().len() && s.drop_last()[k] == s.last();
                    assert(s[k] == s[s.len() - 1]);
                }
            }
            assert forall|a: int, b: int| 0 <= a < b < f.push(s.last()).len() implies f.push(s.last())[a] != f.push(s.last())[b] by {
                if b == f.len() {
                    assert(f[a] == f.push(s.last())[a]);
                }
            }
        }
    }
}

/// The elements of `v` other than `n`, in order.
fn filtered(v: &Vec<usize>, n: usize) -> (r: Vec<usize>)
    ensures
        r@ == v@.filter(|m: usize| m != n),
{
    let mut r: Vec<usize> = Vec::new();
    let mut i: usize = 0;
    assert(v@.take(0).filter(|m: usize| m != n) =~= Seq::<usize>::empty());
    while i < v.len()
        invariant
            0 <= i <= v@.len(),
            r@ == v@.take(i as int).filter(|m: usize| m != n),
        decreases v.len() - i,
    {
        let m = v[i];
        proof {
            reveal_with_fuel(Seq::filter, 1);
            assert(v@.take(i + 1).drop_last() =~= v@.take(i as int));
        }
        if m != n {
            r.push(m);
        }
        i = i + 1;
    }
    assert(v@.take(v@.len() as int) =~= v@);
    r
}

/// Whether `v` holds `n`.
fn contains(v: &Vec<usize>, n: usize) -> (r: bool)
    ensures
        r == v@.contains(n),
{
    let mut i: usize = 0;
    while i < v.len()
        invariant
            0 <= i <= v@.len(),
            forall|j: int| 0 <= j < i ==> v@[j] != n,
        decreases v.len() - i,
    {
        if v[i] == n {
            assert(v@[i as int] == n);
            return true;
        }
        i = i + 1;
    }
    false
}

} // verus!
