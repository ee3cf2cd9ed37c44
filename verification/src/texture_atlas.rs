//! The preview texture that holds the sprites' source images: a 4096 by 4096
//! texture filled shelf by shelf, and the placement of each source image in it.
use vstd::prelude::*;
use crate::app_state::SpriteInfo;

verus! {

/// The side of the preview texture, in pixels.
pub const ATLAS_TEXTURE_SIZE: u32 = 4096;

/// The shelf allocator of the preview texture: images are placed left to right on
/// the current shelf, whose top is `current_top` and whose height is the tallest
/// image on it, `max_height`; a new shelf starts below when an image does not fit.
#[derive(Debug, Clone, Copy, PartialEq, Eq, Structural)]
pub struct SimpleTextureAtlas {
    pub current_top: u32,
    pub current_left: u32,
    pub max_height: u32,
}

/// The allocation of an image of `width` by `height`: the place it is given (if any)
/// and the allocator afterwards.
pub open spec fn spec_alloc(a: SimpleTextureAtlas, width: u32, height: u32) -> (Option<(u32, u32)>, SimpleTextureAtlas) {
    if ATLAS_TEXTURE_SIZE - a.current_top < height {
        (None, a)
    } else if width <= ATLAS_TEXTURE_SIZE - a.current_left {
        (
            Some((a.current_left, a.current_top)),
            SimpleTextureAtlas {
                current_left: (a.current_left + width) as u32,
                max_height: if a.max_height >= height { a.max_height } else { height },
                ..a
            },
        )
    } else if ATLAS_TEXTURE_SIZE - a.current_top - a.max_height < height {
        (None, a)
    } else {
        (
            Some((a.current_left, a.current_top)),
            SimpleTextureAtlas {
                current_top: (a.current_top + a.max_height) as u32,
                current_left: 0,
                max_height: height,
            },
        )
    }
}

impl SimpleTextureAtlas {
    /// The current shelf lies within the texture.
    pub open spec fn wf(&self) -> bool {
        &&& self.current_left <= ATLAS_TEXTURE_SIZE
        &&& self.current_top + self.max_height <= ATLAS_TEXTURE_SIZE
    }

    /// An empty texture.
    pub fn new() -> (a: Self)
        ensures
            a.wf(),
            a == (SimpleTextureAtlas { current_top: 0, current_left: 0, max_height: 0 }),
    {
        SimpleTextureAtlas { current_top: 0, current_left: 0, max_height: 0 }
    }

    /// Places an image of `width` by `height` and returns its top-left corner, or `None`
    /// when the texture has no room for it. An image that does not fit on the current
    /// shelf starts a new shelf; it is then given the place where the old shelf ended.
    pub fn allocate(&mut self, width: u32, height: u32) -> (r: Option<(u32, u32)>)
        requires
            old(self).wf(),
        ensures
            final(self).wf(),
            (r, *final(self)) == spec_alloc(*old(self), width, height),
            r is Some && width <= ATLAS_TEXTURE_SIZE - old(self).current_left ==> {
                &&& r == Some((old(self).current_left, old(self).current_top))
                &&& final(self).current_top == old(self).current_top
                &&& final(self).current_left == old(self).current_left + width
                &&& final(self).max_height >= height
                &&& final(self).max_height >= old(self).max_height
            },
            r is Some && width > ATLAS_TEXTURE_SIZE - old(self).current_left ==> {
                &&& r == Some((old(self).current_left, old(self).current_top))
                &&& final(self).current_top == old(self).current_top + old(self).max_height
                &&& final(self).current_left == 0
                &&& final(self).max_height == height
            },
    {
        if (ATLAS_TEXTURE_SIZE - self.current_top) < height {
            return None;
        }
        if width <= (ATLAS_TEXTURE_SIZE - self.current_left) {
            let o = (self.current_left, self.current_top);
            self.current_left = self.current_left + width;
            self.max_height = if self.max_height >= height { self.max_height } else { height };
            Some(o)
        } else {
            if (ATLAS_TEXTURE_SIZE - self.current_top - self.max_height) < height {
                return None;
            }
            let o = (self.current_left, self.current_top);
            self.current_top = self.current_top + self.max_height;
            self.current_left = 0;
            self.max_height = height;
            Some(o)
        }
    }
}

/// An image that fits on the current shelf is placed inside the texture, and the
/// next image on that shelf starts right of it, so the two do not overlap.
pub proof fn lemma_shelf_placement(a: SimpleTextureAtlas, width: u32, height: u32)
    requires
        a.wf(),
        height <= ATLAS_TEXTURE_SIZE - a.current_top,
        width <= ATLAS_TEXTURE_SIZE - a.current_left,
    ensures
        spec_alloc(a, width, height).0 == Some((a.current_left, a.current_top)),
        a.current_left + width <= ATLAS_TEXTURE_SIZE,
        a.current_top + height <= ATLAS_TEXTURE_SIZE,
        spec_alloc(a, width, height).1.current_top == a.current_top,
        spec_alloc(a, width, height).1.current_left == a.current_left + width,
        spec_alloc(a, width, height).1.wf(),
        spec_alloc(a, width, height).1.max_height >= height,
        spec_alloc(a, width, height).1.max_height >= a.max_height,
        spec_alloc(a, width, height).1.max_height == height || spec_alloc(a, width, height).1.max_height
            == a.max_height,
{
}

/// An image that does not fit on the rest of the current shelf starts a new shelf
/// right below it, as high as that image: the new shelf's top is the old shelf's
/// top plus the tallest image on it.
pub proof fn lemma_new_shelf_placement(a: SimpleTextureAtlas, width: u32, height: u32)
    requires
        a.wf(),
        height <= ATLAS_TEXTURE_SIZE - a.current_top - a.max_height,
        width > ATLAS_TEXTURE_SIZE - a.current_left,
    ensures
        spec_alloc(a, width, height).0 == Some((a.current_left, a.current_top)),
        spec_alloc(a, width, height).1.current_top == a.current_top + a.max_height,
        spec_alloc(a, width, height).1.current_left == 0,
        spec_alloc(a, width, height).1.max_height == height,
        spec_alloc(a, width, height).1.wf(),
{
}

/// Two images placed one after the other on the same shelf do not overlap, and the
/// shelf that a third image, too wide for the rest of that shelf, then starts lies
/// below both of them.
pub proof fn lemma_shelf_images_apart(
    a: SimpleTextureAtlas,
    w1: u32,
    h1: u32,
    w2: u32,
    h2: u32,
    w3: u32,
    h3: u32,
)
    requires
        a.wf(),
        w1 <= ATLAS_TEXTURE_SIZE - a.current_left,
        spec_alloc(a, w1, h1).0 is Some,
        w2 <= ATLAS_TEXTURE_SIZE - spec_alloc(a, w1, h1).1.current_left,
        spec_alloc(spec_alloc(a, w1, h1).1, w2, h2).0 is Some,
        w3 > ATLAS_TEXTURE_SIZE - spec_alloc(spec_alloc(a, w1, h1).1, w2, h2).1.current_left,
        spec_alloc(spec_alloc(spec_alloc(a, w1, h1).1, w2, h2).1, w3, h3).0 is Some,
    ensures
        ({
            let (r1, a1) = spec_alloc(a, w1, h1);
            let (r2, a2) = spec_alloc(a1, w2, h2);
            let (r3, a3) = spec_alloc(a2, w3, h3);
            let (x1, y1) = r1->0;
            let (x2, y2) = r2->0;
            &&& y2 == y1
            &&& x1 + w1 <= x2
            &&& a3.current_top >= y1 + h1
            &&& a3.current_top >= y2 + h2
        }),
{
}

/// Where the source image of a sprite is in the preview texture.
#[derive(Debug, Clone, Copy, PartialEq, Eq, Structural)]
pub enum SourcePlacement {
    /// The image was placed before, at this corner.
    Known(u32, u32),
    /// The image was given this corner now, and is still to be loaded there.
    New(u32, u32),
    /// The texture has no room for the image.
    NoRoom,
}

/// The placed source images as `(path, left, top)`.
pub open spec fn offsets_view(offsets: Seq<(String, u32, u32)>) -> Seq<(Seq<char>, u32, u32)> {
    offsets.map_values(|e: (String, u32, u32)| (e.0@, e.1, e.2))
}

/// The corner of the first placed image with this path.
pub open spec fn lookup(offsets: Seq<(Seq<char>, u32, u32)>, path: Seq<char>) -> Option<(u32, u32)>
    decreases offsets.len(),
{
    if offsets.len() == 0 {
        None
    } else if offsets[0].0 == path {
        Some((offsets[0].1, offsets[0].2))
    } else {
        lookup(offsets.drop_first(), path)
    }
}

/// What placing one image of `width` by `height` from `path` gives: its placement, the
/// placed images and the allocator afterwards.
pub open spec fn place_one(
    offsets: Seq<(Seq<char>, u32, u32)>,
    atlas: SimpleTextureAtlas,
    path: Seq<char>,
    width: u32,
    height: u32,
) -> (SourcePlacement, Seq<(Seq<char>, u32, u32)>, SimpleTextureAtlas) {
    match lookup(offsets, path) {
        Some((x, y)) => (SourcePlacement::Known(x, y), offsets, atlas),
        None => match spec_alloc(atlas, width, height) {
            (Some((x, y)), a) => (SourcePlacement::New(x, y), offsets.push((path, x, y)), a),
            (None, a) => (SourcePlacement::NoRoom, offsets, a),
        },
    }
}

/// Placing the source images of `sprites` in turn.
pub open spec fn place_all(
    offsets: Seq<(Seq<char>, u32, u32)>,
    atlas: SimpleTextureAtlas,
    sprites: Seq<SpriteInfo>,
) -> (Seq<SourcePlacement>, Seq<(Seq<char>, u32, u32)>, SimpleTextureAtlas)
    decreases sprites.len(),
{
    if sprites.len() == 0 {
        (Seq::empty(), offsets, atlas)
    } else {
        let (ps, o, a) = place_all(offsets, atlas, sprites.drop_last());
        let s = sprites.last();
        let (p, o2, a2) = place_one(o, a, s.source_path@, s.width, s.height);
        (ps.push(p), o2, a2)
    }
}

/// Looking up a path after appending an entry: an earlier entry for the path
/// stays the answer; otherwise the new entry answers for its own path.
proof fn lemma_lookup_push(offsets: Seq<(Seq<char>, u32, u32)>, e: (Seq<char>, u32, u32), path: Seq<char>)
    ensures
        lookup(offsets.push(e), path) == match lookup(offsets, path) {
            Some(v) => Some(v),
            None => if e.0 == path {
                Some((e.1, e.2))
            } else {
                None
            },
        },
    decreases offsets.len(),
{
    if offsets.len() == 0 {
        assert(offsets.push(e).drop_first() =~= Seq::<(Seq<char>, u32, u32)>::empty());
    } else {
        assert(offsets.push(e)[0] == offsets[0]);
        assert(offsets.push(e).drop_first() =~= offsets.drop_first().push(e));
        lemma_lookup_push(offsets.drop_first(), e, path);
    }
}

/// Every sprite that got a corner in the texture shares it with every other
/// sprite of the same source image: its corner is the one recorded for its path,
/// however many sprites were placed after it.
pub proof fn lemma_placements_agree(
    offsets: Seq<(Seq<char>, u32, u32)>,
    atlas: SimpleTextureAtlas,
    sprites: Seq<SpriteInfo>,
    k: int,
)
    requires
        0 <= k < sprites.len(),
    ensures
        place_all(offsets, atlas, sprites).0.len() == sprites.len(),
        match place_all(offsets, atlas, sprites).0[k] {
            SourcePlacement::Known(x, y) => lookup(place_all(offsets, atlas, sprites).1, sprites[k].source_path@)
                == Some((x, y)),
            SourcePlacement::New(x, y) => lookup(place_all(offsets, atlas, sprites).1, sprites[k].source_path@)
                == Some((x, y)),
            SourcePlacement::NoRoom => true,
        },
    decreases sprites.len(),
{
    let rest = sprites.drop_last();
    let (ps, o, a) = place_all(offsets, atlas, rest);
    let s = sprites.last();
    lemma_placements_len(offsets, atlas, rest);
    match spec_alloc(a, s.width, s.height) {
        (Some((x, y)), _) => {
            lemma_lookup_push(o, (s.source_path@, x, y), sprites[k].source_path@);
        },
        _ => {},
    }
    if k < sprites.len() - 1 {
        lemma_placements_agree(offsets, atlas, rest, k);
        assert(rest[k] == sprites[k]);
    }
}

/// The corner recorded for the path.
pub open spec fn recorded_corner(offsets: Seq<(Seq<char>, u32, u32)>, path: Seq<char>) -> (u32, u32) {
    lookup(offsets, path)->0
}

/// Sprites whose source images are all placed already take no room: each gets the
/// recorded corner, and neither the allocator nor the record changes.
pub proof fn lemma_recorded_sources_take_no_room(
    offsets: Seq<(Seq<char>, u32, u32)>,
    atlas: SimpleTextureAtlas,
    sprites: Seq<SpriteInfo>,
)
    requires
        forall|k: int| 0 <= k < sprites.len() ==> #[trigger] lookup(offsets, sprites[k].source_path@) is Some,
    ensures
        place_all(offsets, atlas, sprites).1 == offsets,
        place_all(offsets, atlas, sprites).2 == atlas,
        place_all(offsets, atlas, sprites).0.len() == sprites.len(),
        forall|k: int|
            0 <= k < sprites.len() ==> #[trigger] place_all(offsets, atlas, sprites).0[k]
                == SourcePlacement::Known(
                recorded_corner(offsets, sprites[k].source_path@).0,
                recorded_corner(offsets, sprites[k].source_path@).1,
            ),
    decreases sprites.len(),
{
    if sprites.len() > 0 {
        let rest = sprites.drop_last();
        assert forall|k: int| 0 <= k < rest.len() implies #[trigger] lookup(offsets, rest[k].source_path@) is Some by {
            assert(rest[k] == sprites[k]);
            assert(lookup(offsets, sprites[k].source_path@) is Some);
        }
        lemma_recorded_sources_take_no_room(offsets, atlas, rest);
        assert(lookup(offsets, sprites[sprites.len() - 1].source_path@) is Some);
        let ps = place_all(offsets, atlas, sprites).0;
        assert forall|k: int| 0 <= k < sprites.len() implies #[trigger] ps[k] == SourcePlacement::Known(
            recorded_corner(offsets, sprites[k].source_path@).0,
            recorded_corner(offsets, sprites[k].source_path@).1,
        ) by {
            if k < rest.len() {
                assert(rest[k] == sprites[k]);
                assert(ps[k] == place_all(offsets, atlas, rest).0[k]);
            }
        }
    }
}

/// Placing the same sprites a second time changes nothing when the first time gave
/// every one of them a corner: each is found where it was placed, and the allocator
/// and the record stay as the first time left them.
pub proof fn lemma_placing_again_changes_nothing(
    offsets: Seq<(Seq<char>, u32, u32)>,
    atlas: SimpleTextureAtlas,
    sprites: Seq<SpriteInfo>,
)
    requires
        forall|k: int|
            0 <= k < sprites.len() ==> !(#[trigger] place_all(offsets, atlas, sprites).0[k] is NoRoom),
    ensures
        ({
            let (ps, o, a) = place_all(offsets, atlas, sprites);
            let (ps2, o2, a2) = place_all(o, a, sprites);
            &&& o2 == o
            &&& a2 == a
            &&& ps2.len() == ps.len()
            &&& forall|k: int|
                0 <= k < sprites.len() ==> match #[trigger] ps[k] {
                    SourcePlacement::New(x, y) => ps2[k] == SourcePlacement::Known(x, y),
                    SourcePlacement::Known(x, y) => ps2[k] == SourcePlacement::Known(x, y),
                    SourcePlacement::NoRoom => false,
                }
        }),
{
    let (ps, o, a) = place_all(offsets, atlas, sprites);
    lemma_placements_len(offsets, atlas, sprites);
    assert forall|k: int| 0 <= k < sprites.len() implies #[trigger] lookup(o, sprites[k].source_path@) is Some by {
        lemma_placements_agree(offsets, atlas, sprites, k);
        assert(!(place_all(offsets, atlas, sprites).0[k] is NoRoom));
    }
    lemma_recorded_sources_take_no_room(o, a, sprites);
    let ps2 = place_all(o, a, sprites).0;
    assert forall|k: int| 0 <= k < sprites.len() implies match #[trigger] ps[k] {
        SourcePlacement::New(x, y) => ps2[k] == SourcePlacement::Known(x, y),
        SourcePlacement::Known(x, y) => ps2[k] == SourcePlacement::Known(x, y),
        SourcePlacement::NoRoom => false,
    } by {
        lemma_placements_agree(offsets, atlas, sprites, k);
        assert(!(place_all(offsets, atlas, sprites).0[k] is NoRoom));
        assert(ps2[k] == SourcePlacement::Known(
            recorded_corner(o, sprites[k].source_path@).0,
            recorded_corner(o, sprites[k].source_path@).1,
        ));
    }
}

proof fn lemma_placements_len(offsets: Seq<(Seq<char>, u32, u32)>, atlas: SimpleTextureAtlas, sprites: Seq<SpriteInfo>)
    ensures
        place_all(offsets, atlas, sprites).0.len() == sprites.len(),
    decreases sprites.len(),
{
    if sprites.len() > 0 {
        lemma_placements_len(offsets, atlas, sprites.drop_last());
    }
}

/// The source images in the preview texture: the allocator and, for each image
/// placed so far, its path and corner.
pub struct SpriteSourceLayout {
    pub atlas: SimpleTextureAtlas,
    pub offsets: Vec<(String, u32, u32)>,
}

impl SpriteSourceLayout {
    /// An empty texture with no images.
    pub fn new() -> (l: Self)
        ensures
            l.atlas.wf(),
            l.atlas == SimpleTextureAtlas::spec_new(),
            l.offsets@ == Seq::<(String, u32, u32)>::empty(),
    {
        SpriteSourceLayout { atlas: SimpleTextureAtlas::new(), offsets: Vec::new() }
    }

    /// Finds the corner of the source image of every sprite, in order: an image placed
    /// before keeps its corner, an image met for the first time is given one (and is to
    /// be loaded), and an image without room is left out.
    pub fn place_sprite_sources(&mut self, sprites: &[SpriteInfo]) -> (r: Vec<SourcePlacement>)
        requires
            old(self).atlas.wf(),
        ensures
            final(self).atlas.wf(),
            (r@, offsets_view(final(self).offsets@), final(self).atlas) == place_all(
                offsets_view(old(self).offsets@),
                old(self).atlas,
                sprites@,
            ),
            (forall|k: int|
                0 <= k < sprites@.len() ==> #[trigger] lookup(
                    offsets_view(old(self).offsets@),
                    sprites@[k].source_path@,
                ) is Some) ==> final(self).atlas == old(self).atlas && offsets_view(final(self).offsets@)
                == offsets_view(old(self).offsets@),
    {
        let mut r: Vec<SourcePlacement> = Vec::new();
        let mut n: usize = 0;
        assert(sprites@.take(0) =~= Seq::<SpriteInfo>::empty());
        while n < sprites.len()
            invariant
                0 <= n <= sprites@.len(),
                self.atlas.wf(),
                (r@, offsets_view(self.offsets@), self.atlas) == place_all(
                    offsets_view(old(self).offsets@),
                    old(self).atlas,
                    sprites@.take(n as int),
                ),
            decreases sprites.len() - n,
        {
            let x = &sprites[n];
            let ghost before = offsets_view(self.offsets@);
            let found = find_offset(&self.offsets, &x.source_path);
            let p = match found {
                Some((ox, oy)) => SourcePlacement::Known(ox, oy),
                None => match self.atlas.allocate(x.width, x.height) {
                    Some((ox, oy)) => {
                        self.offsets.push((x.source_path.clone(), ox, oy));
                        assert(offsets_view(self.offsets@) =~= before.push((x.source_path@, ox, oy)));
                        SourcePlacement::New(ox, oy)
                    },
                    None => SourcePlacement::NoRoom,
                },
            };
            r.push(p);
            assert(sprites@.take(n + 1).drop_last() =~= sprites@.take(n as int));
            n = n + 1;
        }
        assert(sprites@.take(sprites@.len() as int) =~= sprites@);
        proof {
            if forall|k: int|
                0 <= k < sprites@.len() ==> #[trigger] lookup(
                    offsets_view(old(self).offsets@),
                    sprites@[k].source_path@,
                ) is Some {
                lemma_recorded_sources_take_no_room(offsets_view(old(self).offsets@), old(self).atlas, sprites@);
            }
        }
        r
    }
}

impl SimpleTextureAtlas {
    /// The allocator of an empty texture.
    pub open spec fn spec_new() -> Self {
        SimpleTextureAtlas { current_top: 0, current_left: 0, max_height: 0 }
    }
}

/// The corner of the first placed image with this path.
fn find_offset(offsets: &Vec<(String, u32, u32)>, path: &String) -> (r: Option<(u32, u32)>)
    ensures
        r == lookup(offsets_view(offsets@), path@),
{
    let ghost all = offsets_view(offsets@);
    let mut i: usize = 0;
    assert(all.skip(0) =~= all);
    while i < offsets.len()
        invariant
            0 <= i <= offsets@.len(),
            all == offsets_view(offsets@),
            lookup(all, path@) == lookup(all.skip(i as int), path@),
        decreases offsets.len() - i,
    {
        let e = &offsets[i];
        assert(all.skip(i as int)[0] == (e.0@, e.1, e.2));
        if e.0 == *path {
            return Some((e.1, e.2));
        }
        assert(all.skip(i as int).drop_first() =~= all.skip(i + 1));
        i = i + 1;
    }
    None
}

} // verus!
