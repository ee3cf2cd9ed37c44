//! The editor's model: the sprites placed on the atlas, the atlas size, and
//! whether the menu is shown. Views subscribe to its changes in the program
//! around this library; every change here reports what changed.
use vstd::prelude::*;
use crate::coordinate::{SizePixels, next_power_of_two, spec_npot, is_power_of_two, lemma_npot};

verus! {

/// Calls `uuid::Uuid::new_v4` and returns that UUID as its 128-bit big-endian
/// value (`Uuid::as_u128`). The value is random; what is stated is what every
/// version 4 UUID has: the version nibble (bits 76 to 79) is 4 and the variant
/// bits (62 and 63) are `10`.
#[verifier::external_body]
fn new_v4_id() -> (id: u128)
    ensures
        (id >> 76u128) & 0xfu128 == 4u128,
        (id >> 62u128) & 0x3u128 == 2u128,
{
    uuid::Uuid::new_v4().as_u128()
}

/// A sprite on the atlas: its source image, its size, its place and its nine-slice borders.
#[derive(Debug)]
pub struct SpriteInfo {
    /// The sprite's identity, a version 4 UUID as its 128-bit big-endian value.
    pub id: u128,
    pub name: String,
    pub source_path: String,
    pub width: u32,
    pub height: u32,
    pub left: u32,
    pub top: u32,
    pub left_slice: u32,
    pub right_slice: u32,
    pub top_slice: u32,
    pub bottom_slice: u32,
    pub selected: bool,
}

impl SpriteInfo {
    /// A new, unselected sprite at the origin with no borders and a fresh random id.
    pub fn new(name: String, source_path: String, width: u32, height: u32) -> (s: Self)
        ensures
            s.name == name,
            s.source_path == source_path,
            s.width == width,
            s.height == height,
            s.left == 0,
            s.top == 0,
            s.left_slice == 0,
            s.right_slice == 0,
            s.top_slice == 0,
            s.bottom_slice == 0,
            !s.selected,
            (s.id >> 76u128) & 0xfu128 == 4u128,
            (s.id >> 62u128) & 0x3u128 == 2u128,
    {
        SpriteInfo {
            id: new_v4_id(),
            name,
            source_path,
            width,
            height,
            left: 0,
            top: 0,
            left_slice: 0,
            right_slice: 0,
            top_slice: 0,
            bottom_slice: 0,
            selected: false,
        }
    }

    /// The sprite's identity.
    pub fn id(&self) -> (r: u128)
        ensures
            r == self.id,
    {
        self.id
    }

    /// The right edge, `left + width`.
    pub fn right(&self) -> (r: u32)
        requires
            self.left + self.width <= u32::MAX,
        ensures
            r == self.left + self.width,
    {
        self.left + self.width
    }

    /// The bottom edge, `top + height`.
    pub fn bottom(&self) -> (r: u32)
        requires
            self.top + self.height <= u32::MAX,
        ensures
            r == self.top + self.height,
    {
        self.top + self.height
    }
}

/// The right and bottom edges of a sprite stay within `2^31`, where atlas sizes can
/// still be rounded up to a power of two.
pub open spec fn sprite_in_range(s: SpriteInfo) -> bool {
    s.left + s.width <= 0x8000_0000 && s.top + s.height <= 0x8000_0000
}

/// The sprite `s` lies within an atlas of the given size.
pub open spec fn sprite_fits(s: SpriteInfo, size: SizePixels) -> bool {
    s.left + s.width <= size.width && s.top + s.height <= size.height
}

/// The atlas size after making room for `s`: each side grows to cover the sprite's
/// edge and is rounded up to a power of two.
pub open spec fn grow(size: SizePixels, s: SpriteInfo) -> SizePixels {
    SizePixels {
        width: spec_npot(
            if size.width >= s.left + s.width {
                size.width as nat
            } else {
                (s.left + s.width) as nat
            },
        ) as u32,
        height: spec_npot(
            if size.height >= s.top + s.height {
                size.height as nat
            } else {
                (s.top + s.height) as nat
            },
        ) as u32,
    }
}

/// The atlas size after making room for each of `sprites` in turn.
pub open spec fn grow_all(size: SizePixels, sprites: Seq<SpriteInfo>) -> SizePixels
    decreases sprites.len(),
{
    if sprites.len() == 0 {
        size
    } else {
        grow(grow_all(size, sprites.drop_last()), sprites.last())
    }
}

/// The sprite `s` with its place moved to `(left, top)`.
pub open spec fn moved(s: SpriteInfo, left: u32, top: u32) -> SpriteInfo {
    SpriteInfo { left, top, ..s }
}

/// The sprite `s` with its selection set to `selected`.
pub open spec fn with_selection(s: SpriteInfo, selected: bool) -> SpriteInfo {
    SpriteInfo { selected, ..s }
}

/// Sprite `a` comes before sprite `b` when saving: a smaller id, or an equal id and a smaller index.
pub open spec fn key_lt(sprites: Seq<SpriteInfo>, a: int, b: int) -> bool {
    sprites[a].id < sprites[b].id || (sprites[a].id == sprites[b].id && a < b)
}

/// The model of the editor.
pub struct AppState {
    atlas_size: SizePixels,
    sprites: Vec<SpriteInfo>,
    visible_menu: bool,
}

impl AppState {
    /// The size of the atlas.
    pub closed spec fn atlas(&self) -> SizePixels {
        self.atlas_size
    }

    /// The sprites, back to front.
    pub closed spec fn sprite_list(&self) -> Seq<SpriteInfo> {
        self.sprites@
    }

    /// Whether the menu is shown.
    pub closed spec fn menu_visible(&self) -> bool {
        self.visible_menu
    }

    /// The atlas sides are powers of two from 32 up to `2^31`, and every sprite
    /// lies within the atlas.
    pub closed spec fn wf(&self) -> bool {
        &&& is_power_of_two(self.atlas_size.width as int)
        &&& is_power_of_two(self.atlas_size.height as int)
        &&& 32 <= self.atlas_size.width <= 0x8000_0000
        &&& 32 <= self.atlas_size.height <= 0x8000_0000
        &&& forall|i: int|
            0 <= i < self.sprites@.len() ==> sprite_fits(#[trigger] self.sprites@[i], self.atlas_size)
    }

    /// A 32 by 32 atlas with no sprites and the menu hidden.
    pub fn new() -> (s: Self)
        ensures
            s.wf(),
            s.atlas() == (SizePixels { width: 32, height: 32 }),
            s.sprite_list() == Seq::<SpriteInfo>::empty(),
            !s.menu_visible(),
    {
        proof {
            vstd::arithmetic::power2::lemma2_to64();
            assert(vstd::arithmetic::power2::pow2(5) == 32);
        }
        AppState {
            atlas_size: SizePixels { width: 32, height: 32 },
            sprites: Vec::new(),
            visible_menu: false,
        }
    }

    /// The atlas size.
    pub fn atlas_size(&self) -> (r: SizePixels)
        ensures
            r == self.atlas(),
    {
        self.atlas_size
    }

    /// The sprites, in the order in which they were added.
    pub fn sprites(&self) -> (r: &[SpriteInfo])
        ensures
            r@ == self.sprite_list(),
    {
        self.sprites.as_slice()
    }

    /// Whether the menu is shown.
    pub fn is_visible_menu(&self) -> (r: bool)
        ensures
            r == self.menu_visible(),
    {
        self.visible_menu
    }

    /// Shows a hidden menu, hides a shown one.
    pub fn toggle_menu(&mut self)
        requires
            old(self).wf(),
        ensures
            final(self).wf(),
            final(self).menu_visible() == !old(self).menu_visible(),
            final(self).atlas() == old(self).atlas(),
            final(self).sprite_list() == old(self).sprite_list(),
    {
        self.visible_menu = !self.visible_menu;
    }

    /// Adds the sprites at the end, growing the atlas to cover each of them in turn
    /// (every side rounded up to a power of two). Returns whether the atlas size changed.
    pub fn add_sprites(&mut self, sprites: Vec<SpriteInfo>) -> (atlas_size_changed: bool)
        requires
            old(self).wf(),
            forall|i: int| 0 <= i < sprites@.len() ==> sprite_in_range(#[trigger] sprites@[i]),
        ensures
            final(self).wf(),
            final(self).sprite_list() == old(self).sprite_list() + sprites@,
            final(self).atlas() == grow_all(old(self).atlas(), sprites@),
            atlas_size_changed == (final(self).atlas() != old(self).atlas()),
            final(self).atlas().width == old(self).atlas().width || exists|k: int|
                0 <= k < sprites@.len() && final(self).atlas().width / 2 < #[trigger] sprites@[k].left
                    + sprites@[k].width,
            final(self).atlas().height == old(self).atlas().height || exists|k: int|
                0 <= k < sprites@.len() && final(self).atlas().height / 2 < #[trigger] sprites@[k].top
                    + sprites@[k].height,
            final(self).menu_visible() == old(self).menu_visible(),
    {
        let mut sprites = sprites;
        let mut max_required_size = self.atlas_size;
        let mut i: usize = 0;
        assert(sprites@.take(0) =~= Seq::<SpriteInfo>::empty());
        while i < sprites.len()
            invariant
                self.wf(),
                0 <= i <= sprites@.len(),
                forall|k: int| 0 <= k < sprites@.len() ==> sprite_in_range(#[trigger] sprites@[k]),
                max_required_size == grow_all(self.atlas_size, sprites@.take(i as int)),
                is_power_of_two(max_required_size.width as int),
                is_power_of_two(max_required_size.height as int),
                self.atlas_size.width <= max_required_size.width <= 0x8000_0000,
                self.atlas_size.height <= max_required_size.height <= 0x8000_0000,
                forall|k: int| 0 <= k < i ==> sprite_fits(#[trigger] sprites@[k], max_required_size),
            decreases sprites.len() - i,
        {
            let n = &sprites[i];
            assert(sprite_in_range(sprites@[i as int]));
            let right = n.right();
            let bottom = n.bottom();
            let w = if max_required_size.width >= right { max_required_size.width } else { right };
            let h = if max_required_size.height >= bottom { max_required_size.height } else { bottom };
            max_required_size.width = next_power_of_two(w);
            max_required_size.height = next_power_of_two(h);
            assert(sprites@.take(i + 1).drop_last() =~= sprites@.take(i as int));
            i = i + 1;
        }
        assert(sprites@.take(sprites@.len() as int) =~= sprites@);
        let ghost old_sprites = self.sprites@;
        let ghost added = sprites@;
        self.sprites.append(&mut sprites);
        let changed = max_required_size != self.atlas_size;
        self.atlas_size = max_required_size;
        assert forall|k: int| 0 <= k < self.sprites@.len() implies sprite_fits(#[trigger] self.sprites@[k], self.atlas_size) by {
            if k >= old_sprites.len() {
                assert(self.sprites@[k] == added[k - old_sprites.len()]);
            } else {
                assert(self.sprites@[k] == old_sprites[k]);
                assert(sprite_fits(old_sprites[k], old(self).atlas_size));
            }
        }
        proof {
            lemma_grow_all(old(self).atlas_size, added);
        }
        changed
    }

    /// Moves the sprite `index` to `(left_pixels, top_pixels)` and grows the atlas to
    /// cover it. Returns whether the atlas size changed.
    pub fn set_sprite_offset(&mut self, index: usize, left_pixels: u32, top_pixels: u32) -> (atlas_size_changed: bool)
        requires
            old(self).wf(),
            index < old(self).sprite_list().len(),
            sprite_in_range(moved(old(self).sprite_list()[index as int], left_pixels, top_pixels)),
        ensures
            final(self).wf(),
            final(self).sprite_list() == old(self).sprite_list().update(
                index as int,
                moved(old(self).sprite_list()[index as int], left_pixels, top_pixels),
            ),
            final(self).atlas() == grow(
                old(self).atlas(),
                moved(old(self).sprite_list()[index as int], left_pixels, top_pixels),
            ),
            atlas_size_changed == (final(self).atlas() != old(self).atlas()),
            final(self).atlas().width == old(self).atlas().width || final(self).atlas().width / 2
                < left_pixels + old(self).sprite_list()[index as int].width,
            final(self).atlas().height == old(self).atlas().height || final(self).atlas().height / 2
                < top_pixels + old(self).sprite_list()[index as int].height,
            final(self).menu_visible() == old(self).menu_visible(),
    {
        let ghost before = self.sprites@;
        let mut target_sprite = self.sprites.remove(index);
        target_sprite.left = left_pixels;
        target_sprite.top = top_pixels;
        let right = target_sprite.right();
        let bottom = target_sprite.bottom();
        self.sprites.insert(index, target_sprite);
        assert(self.sprites@ =~= before.update(index as int, moved(before[index as int], left_pixels, top_pixels)));
        let mut max_required_size = self.atlas_size;
        let w = if max_required_size.width >= right { max_required_size.width } else { right };
        let h = if max_required_size.height >= bottom { max_required_size.height } else { bottom };
        max_required_size.width = next_power_of_two(w);
        max_required_size.height = next_power_of_two(h);
        let changed = max_required_size != self.atlas_size;
        self.atlas_size = max_required_size;
        assert forall|k: int| 0 <= k < self.sprites@.len() implies sprite_fits(#[trigger] self.sprites@[k], self.atlas_size) by {
            if k != index {
                assert(self.sprites@[k] == before[k]);
                assert(sprite_fits(before[k], old(self).atlas_size));
            }
        }
        proof {
            lemma_grow(old(self).atlas_size, moved(before[index as int], left_pixels, top_pixels));
        }
        changed
    }

    /// Selects the sprite `index` alone (none when `index` is past the end).
    pub fn select_sprite(&mut self, index: usize)
        requires
            old(self).wf(),
        ensures
            final(self).wf(),
            final(self).sprite_list() == Seq::new(
                old(self).sprite_list().len(),
                |n: int| with_selection(old(self).sprite_list()[n], n == index),
            ),
            final(self).atlas() == old(self).atlas(),
            final(self).menu_visible() == old(self).menu_visible(),
    {
        self.set_selection(index, true);
    }

    /// Deselects every sprite.
    pub fn deselect_sprite(&mut self)
        requires
            old(self).wf(),
        ensures
            final(self).wf(),
            final(self).sprite_list() == Seq::new(
                old(self).sprite_list().len(),
                |n: int| with_selection(old(self).sprite_list()[n], false),
            ),
            final(self).atlas() == old(self).atlas(),
            final(self).menu_visible() == old(self).menu_visible(),
    {
        self.set_selection(0, false);
    }

    /// Sets `selected` to whether `has_target` holds and the sprite is `index`.
    fn set_selection(&mut self, index: usize, has_target: bool)
        requires
            old(self).wf(),
        ensures
            final(self).wf(),
            final(self).sprite_list() == Seq::new(
                old(self).sprite_list().len(),
                |n: int| with_selection(old(self).sprite_list()[n], has_target && n == index),
            ),
            final(self).atlas() == old(self).atlas(),
            final(self).menu_visible() == old(self).menu_visible(),
    {
        let ghost before = self.sprites@;
        let mut n: usize = 0;
        while n < self.sprites.len()
            invariant
                self.sprites@.len() == before.len(),
                self.atlas_size == old(self).atlas_size,
                self.visible_menu == old(self).visible_menu,
                old(self).wf(),
                before == old(self).sprites@,
                forall|k: int| 0 <= k < n ==> #[trigger] self.sprites@[k] == with_selection(before[k], has_target && k == index),
                forall|k: int| n <= k < before.len() ==> #[trigger] self.sprites@[k] == before[k],
            decreases self.sprites.len() - n,
        {
            let x = &mut self.sprites[n];
            x.selected = has_target && n == index;
            n = n + 1;
        }
        assert(self.sprites@ =~= Seq::new(
            before.len(),
            |k: int| with_selection(before[k], has_target && k == index),
        ));
        assert forall|k: int| 0 <= k < self.sprites@.len() implies sprite_fits(#[trigger] self.sprites@[k], self.atlas_size) by {
            assert(sprite_fits(before[k], old(self).atlas_size));
        }
    }

    /// The selected sprites with their indices, in index order.
    pub fn selected_sprites_with_index(&self) -> (r: Vec<(usize, &SpriteInfo)>)
        ensures
            forall|k: int|
                0 <= k < r@.len() ==> {
                    &&& (#[trigger] r@[k]).0 < self.sprite_list().len()
                    &&& self.sprite_list()[r@[k].0 as int].selected
                    &&& *r@[k].1 == self.sprite_list()[r@[k].0 as int]
                },
            forall|a: int, b: int| 0 <= a < b < r@.len() ==> r@[a].0 < r@[b].0,
            forall|i: int|
                0 <= i < self.sprite_list().len() && #[trigger] self.sprite_list()[i].selected
                    ==> exists|k: int| 0 <= k < r@.len() && r@[k].0 == i,
    {
        let mut r: Vec<(usize, &SpriteInfo)> = Vec::new();
        let mut n: usize = 0;
        while n < self.sprites.len()
            invariant
                0 <= n <= self.sprites@.len(),
                forall|k: int|
                    0 <= k < r@.len() ==> {
                        &&& (#[trigger] r@[k]).0 < n
                        &&& self.sprites@[r@[k].0 as int].selected
                        &&& *r@[k].1 == self.sprites@[r@[k].0 as int]
                    },
                forall|a: int, b: int| 0 <= a < b < r@.len() ==> r@[a].0 < r@[b].0,
                forall|i: int|
                    0 <= i < n && #[trigger] self.sprites@[i].selected
                        ==> exists|k: int| 0 <= k < r@.len() && r@[k].0 == i,
            decreases self.sprites.len() - n,
        {
            let x = &self.sprites[n];
            let ghost old_r = r@;
            if x.selected {
                r.push((n, x));
                assert(r@[r@.len() - 1].0 == n);
            }
            assert forall|i: int|
                0 <= i < n + 1 && #[trigger] self.sprites@[i].selected
                    implies exists|k: int| 0 <= k < r@.len() && r@[k].0 == i by {
                if i == n {
                    assert(r@[r@.len() - 1].0 == n);
                } else {
                    let k = choose|k: int| 0 <= k < old_r.len() && old_r[k].0 == i;
                    assert(r@[k] == old_r[k]);
                }
            }
            n = n + 1;
        }
        r
    }

    /// The order in which the sprites are saved: their indices sorted by id, sprites
    /// with equal ids in index order.
    pub fn save_order(&self) -> (r: Vec<usize>)
        ensures
            r@.len() == self.sprite_list().len(),
            forall|k: int| 0 <= k < r@.len() ==> (#[trigger] r@[k]) < self.sprite_list().len(),
            forall|a: int, b: int|
                0 <= a < b < r@.len() ==> key_lt(self.sprite_list(), r@[a] as int, r@[b] as int),
            forall|i: usize| i < self.sprite_list().len() ==> #[trigger] r@.contains(i),
    {
        let mut out: Vec<usize> = Vec::new();
        let mut i: usize = 0;
        while i < self.sprites.len()
            invariant
                0 <= i <= self.sprites@.len(),
                out@.len() == i,
                forall|k: int| 0 <= k < out@.len() ==> (#[trigger] out@[k]) < i,
                forall|a: int, b: int|
                    0 <= a < b < out@.len() ==> key_lt(self.sprites@, out@[a] as int, out@[b] as int),
                forall|j: usize| j < i ==> #[trigger] out@.contains(j),
            decreases self.sprites.len() - i,
        {
            let id = self.sprites[i].id;
            let mut p: usize = 0;
            while p < out.len() && self.sprites[out[p]].id <= id
                invariant
                    0 <= p <= out@.len(),
                    i < self.sprites@.len(),
                    id == self.sprites@[i as int].id,
                    forall|k: int| 0 <= k < out@.len() ==> (#[trigger] out@[k]) < i,
                    forall|k: int| 0 <= k < p ==> self.sprites@[(#[trigger] out@[k]) as int].id <= id,
                decreases out.len() - p,
            {
                p = p + 1;
            }
            let ghost before = out@;
            out.insert(p, i);
            proof {
                assert forall|a: int, b: int|
                    0 <= a < b < out@.len() implies key_lt(self.sprites@, out@[a] as int, out@[b] as int) by {
                    if b < p {
                        assert(out@[a] == before[a] && out@[b] == before[b]);
                    } else if b == p {
                        assert(out@[a] == before[a]);
                        assert(self.sprites@[before[a] as int].id <= id);
                    } else if a == p {
                        assert(out@[b] == before[b - 1]);
                        if p < before.len() {
                            assert(self.sprites@[before[p as int] as int].id > id);
                            if b - 1 > p {
                                assert(key_lt(self.sprites@, before[p as int] as int, before[b - 1] as int));
                            }
                        }
                    } else if a < p {
                        assert(out@[a] == before[a] && out@[b] == before[b - 1]);
                    } else {
                        assert(out@[a] == before[a - 1] && out@[b] == before[b - 1]);
                    }
                }
                assert forall|j: usize| j < i + 1 implies #[trigger] out@.contains(j) by {
                    if j == i {
                        assert(out@[p as int] == i);
                    } else {
                        assert(before.contains(j));
                        let k = choose|k: int| 0 <= k < before.len() && before[k] == j;
                        if k < p {
                            assert(out@[k] == j);
                        } else {
                            assert(out@[k + 1] == j);
                        }
                    }
                }
            }
            i = i + 1;
        }
        out
    }
}

/// What every state of the model keeps: both sides of the atlas are powers of two
/// from 32 to `2^31`, and every sprite lies inside the atlas.
pub proof fn lemma_state_invariant(st: &AppState)
    requires
        st.wf(),
    ensures
        is_power_of_two(st.atlas().width as int),
        is_power_of_two(st.atlas().height as int),
        32 <= st.atlas().width <= 0x8000_0000,
        32 <= st.atlas().height <= 0x8000_0000,
        forall|i: int|
            0 <= i < st.sprite_list().len() ==> sprite_fits(#[trigger] st.sprite_list()[i], st.atlas()),
{
}

/// Growing the atlas for a sprite never shrinks it, makes the sprite fit, keeps
/// both sides powers of two, and changes nothing when the sprite already fits.
pub proof fn lemma_grow(size: SizePixels, s: SpriteInfo)
    requires
        is_power_of_two(size.width as int),
        is_power_of_two(size.height as int),
        size.width <= 0x8000_0000,
        size.height <= 0x8000_0000,
        sprite_in_range(s),
    ensures
        size.width <= grow(size, s).width <= 0x8000_0000,
        size.height <= grow(size, s).height <= 0x8000_0000,
        is_power_of_two(grow(size, s).width as int),
        is_power_of_two(grow(size, s).height as int),
        sprite_fits(s, grow(size, s)),
        sprite_fits(s, size) ==> grow(size, s) == size,
        grow(size, s).width == size.width || grow(size, s).width / 2 < s.left + s.width,
        grow(size, s).height == size.height || grow(size, s).height / 2 < s.top + s.height,
{
    let w: nat = if size.width >= s.left + s.width {
        size.width as nat
    } else {
        (s.left + s.width) as nat
    };
    let h: nat = if size.height >= s.top + s.height {
        size.height as nat
    } else {
        (s.top + s.height) as nat
    };
    lemma_npot(w);
    lemma_npot(h);
}

/// Growing the atlas for a list of sprites gives each side the smallest power of
/// two that is at least the old side and every sprite's edge: it covers them all,
/// and a side that grew is more than twice as large as none of them would need,
/// since half of it is below the right (bottom) edge of some sprite.
pub proof fn lemma_grow_all(size: SizePixels, sprites: Seq<SpriteInfo>)
    requires
        is_power_of_two(size.width as int),
        is_power_of_two(size.height as int),
        size.width <= 0x8000_0000,
        size.height <= 0x8000_0000,
        forall|k: int| 0 <= k < sprites.len() ==> sprite_in_range(#[trigger] sprites[k]),
    ensures
        is_power_of_two(grow_all(size, sprites).width as int),
        is_power_of_two(grow_all(size, sprites).height as int),
        size.width <= grow_all(size, sprites).width <= 0x8000_0000,
        size.height <= grow_all(size, sprites).height <= 0x8000_0000,
        forall|k: int| 0 <= k < sprites.len() ==> sprite_fits(#[trigger] sprites[k], grow_all(size, sprites)),
        grow_all(size, sprites).width == size.width || exists|k: int|
            0 <= k < sprites.len() && grow_all(size, sprites).width / 2 < #[trigger] sprites[k].left
                + sprites[k].width,
        grow_all(size, sprites).height == size.height || exists|k: int|
            0 <= k < sprites.len() && grow_all(size, sprites).height / 2 < #[trigger] sprites[k].top
                + sprites[k].height,
    decreases sprites.len(),
{
    if sprites.len() > 0 {
        let rest = sprites.drop_last();
        let s = sprites.last();
        assert forall|k: int| 0 <= k < rest.len() implies sprite_in_range(#[trigger] rest[k]) by {
            assert(rest[k] == sprites[k]);
        }
        lemma_grow_all(size, rest);
        let prev = grow_all(size, rest);
        assert(sprite_in_range(sprites[sprites.len() - 1]));
        lemma_grow(prev, s);
        let g = grow_all(size, sprites);
        assert(g == grow(prev, s));
        assert forall|k: int| 0 <= k < sprites.len() implies sprite_fits(#[trigger] sprites[k], g) by {
            if k < rest.len() {
                assert(rest[k] == sprites[k]);
                assert(sprite_fits(rest[k], prev));
            }
        }
        if g.width != size.width {
            if g.width == prev.width {
                let k = choose|k: int| 0 <= k < rest.len() && prev.width / 2 < #[trigger] rest[k].left + rest[k].width;
                assert(rest[k] == sprites[k]);
            } else {
                assert(g.width / 2 < sprites[sprites.len() - 1].left + sprites[sprites.len() - 1].width);
            }
        }
        if g.height != size.height {
            if g.height == prev.height {
                let k = choose|k: int| 0 <= k < rest.len() && prev.height / 2 < #[trigger] rest[k].top + rest[k].height;
                assert(rest[k] == sprites[k]);
            } else {
                assert(g.height / 2 < sprites[sprites.len() - 1].top + sprites[sprites.len() - 1].height);
            }
        }
    }
}

} // verus!
