//! Placement of rasterized glyphs in the glyph atlas texture: glyphs are
//! packed left to right on shelves, and a new shelf starts under the
//! tallest glyph of the current one. Each glyph is placed once and cached.

use vstd::prelude::*;
use std::collections::HashMap;

verus! {

broadcast use vstd::std_specs::hash::group_hash_axioms;

pub const ATLAS_W: u32 = 1024;

pub const ATLAS_H: u32 = 1024;

/// Where a glyph lies in the atlas and how it sits on the text baseline.
#[derive(Clone, Copy, PartialEq, Eq, Debug, Structural)]
pub struct GlyphEntry {
    /// Atlas coords in pixels (top-left).
    pub atlas_x: u32,
    pub atlas_y: u32,
    /// Bitmap dimensions.
    pub width: u32,
    pub height: u32,
    /// Offset from cell origin (baseline-relative).
    pub bearing_x: i32,
    pub bearing_y: i32,
}

/// The glyph lies inside the atlas.
pub open spec fn within_atlas(e: GlyphEntry) -> bool {
    e.atlas_x + e.width <= ATLAS_W && e.atlas_y + e.height <= ATLAS_H
}

/// The two glyphs share no pixel.
pub open spec fn disjoint(e: GlyphEntry, f: GlyphEntry) -> bool {
    ||| e.atlas_x + e.width <= f.atlas_x
    ||| f.atlas_x + f.width <= e.atlas_x
    ||| e.atlas_y + e.height <= f.atlas_y
    ||| f.atlas_y + f.height <= e.atlas_y
}

/// The packing state: the next free spot on the current shelf and the
/// height of the tallest glyph on it.
#[derive(Clone, Copy, PartialEq, Eq, Debug, Structural)]
pub struct Shelf {
    pub x: u32,
    pub y: u32,
    pub row_height: u32,
}

/// Where a `w` by `h` glyph goes from shelf state `s`, and the state after.
/// Glyphs wider or taller than the atlas are refused; a glyph that does not
/// fit on the current shelf starts a new one; a glyph that no longer fits
/// below the last shelf is refused (the new shelf stays started).
pub open spec fn spec_place(s: Shelf, w: u32, h: u32) -> (Option<(u32, u32)>, Shelf) {
    if w > ATLAS_W || h > ATLAS_H {
        (None, s)
    } else {
        let s1 = if s.x + w > ATLAS_W {
            Shelf { x: 0, y: (s.y + s.row_height) as u32, row_height: 0 }
        } else {
            s
        };
        if s1.y + h > ATLAS_H {
            (None, s1)
        } else {
            (
                Some((s1.x, s1.y)),
                Shelf {
                    x: (s1.x + w) as u32,
                    y: s1.y,
                    row_height: if s1.row_height < h {
                        h
                    } else {
                        s1.row_height
                    },
                },
            )
        }
    }
}

/// The entry of a rasterized glyph of `width` by `height` pixels whose
/// bitmap starts `xmin` right of and `ymin` above the pen position.
pub open spec fn spec_add_glyph(s: Shelf, width: usize, height: usize, xmin: i32, ymin: i32) -> (
    Option<GlyphEntry>,
    Shelf,
) {
    if width == 0 || height == 0 {
        (None, s)
    } else {
        let (spot, s2) = spec_place(s, width as u32, height as u32);
        match spot {
            Some((x, y)) => (
                Some(
                    GlyphEntry {
                        atlas_x: x,
                        atlas_y: y,
                        width: width as u32,
                        height: height as u32,
                        bearing_x: xmin,
                        bearing_y: (ymin + (height as i32)) as i32,
                    },
                ),
                s2,
            ),
            None => (None, s2),
        }
    }
}

/// A glyph of `width` by `height` pixels gets a place from shelf state `s`.
pub open spec fn would_place(s: Shelf, width: usize, height: usize) -> bool {
    width != 0 && height != 0 && spec_place(s, width as u32, height as u32).0 is Some
}

/// The bearing of a glyph, `ymin + height`, fits in an `i32`.
pub open spec fn bearing_fits(height: usize, ymin: i32) -> bool {
    i32::MIN <= ymin + (height as i32) <= i32::MAX
}

/// The size and offsets of a rasterized glyph: `width` by `height` pixels,
/// the bitmap starting `xmin` right of and `ymin` above the pen position.
#[derive(Clone, Copy, PartialEq, Eq, Debug, Structural)]
pub struct GlyphSize {
    pub width: usize,
    pub height: usize,
    pub xmin: i32,
    pub ymin: i32,
}

/// What placing and caching the glyph `c` of size `m` did to the atlas.
pub open spec fn glyph_added(
    before: GlyphAtlas,
    after: GlyphAtlas,
    c: char,
    m: GlyphSize,
    r: Option<GlyphEntry>,
) -> bool {
    &&& (r, after.shelf_spec()) == spec_add_glyph(
        before.shelf_spec(),
        m.width,
        m.height,
        m.xmin,
        m.ymin,
    )
    &&& after.cache() == before.cache().insert(c as u32, r)
    &&& r matches Some(e) ==> after.placed() == before.placed().push(e)
    &&& r is None ==> after.placed() == before.placed()
    &&& r matches Some(e) ==> within_atlas(e) && forall|i: int|
        0 <= i < before.placed().len() ==> disjoint(#[trigger] before.placed()[i], e)
}

pub struct GlyphAtlas {
    shelf: Shelf,
    glyphs: HashMap<u32, Option<GlyphEntry>>,
    placed: Ghost<Seq<GlyphEntry>>,
}

impl GlyphAtlas {
    #[verifier::type_invariant]
    spec fn inv(self) -> bool {
        &&& self.shelf.x <= ATLAS_W
        &&& self.shelf.y + self.shelf.row_height <= ATLAS_H
        &&& forall|i: int| 0 <= i < self.placed@.len() ==> within_atlas(#[trigger] self.placed@[i])
        &&& forall|i: int|
            0 <= i < self.placed@.len() ==> {
                let e = #[trigger] self.placed@[i];
                ||| e.atlas_y + e.height <= self.shelf.y
                ||| (e.atlas_y == self.shelf.y && e.atlas_x + e.width <= self.shelf.x && e.height
                    <= self.shelf.row_height)
            }
        &&& forall|i: int, j: int|
            0 <= i < j < self.placed@.len() ==> disjoint(
                #[trigger] self.placed@[i],
                #[trigger] self.placed@[j],
            )
    }

    pub closed spec fn shelf_spec(&self) -> Shelf {
        self.shelf
    }

    /// The cached glyphs, by character code (`None`: the glyph has no pixels
    /// or found no room).
    pub closed spec fn cache(&self) -> Map<u32, Option<GlyphEntry>> {
        self.glyphs@
    }

    /// Every glyph placed so far, in order.
    pub closed spec fn placed(&self) -> Seq<GlyphEntry> {
        self.placed@
    }

    pub fn new() -> (a: Self)
        ensures
            a.shelf_spec() == (Shelf { x: 0, y: 0, row_height: 0 }),
            a.cache() == Map::<u32, Option<GlyphEntry>>::empty(),
            a.placed() == Seq::<GlyphEntry>::empty(),
    {
        GlyphAtlas {
            shelf: Shelf { x: 0, y: 0, row_height: 0 },
            glyphs: HashMap::new(),
            placed: Ghost(Seq::empty()),
        }
    }

    /// The cached entry for `c`, if `c` was seen before.
    pub fn lookup(&self, c: char) -> (r: Option<Option<GlyphEntry>>)
        ensures
            r == (if self.cache().contains_key(c as u32) {
                Some(self.cache()[c as u32])
            } else {
                None::<Option<GlyphEntry>>
            }),
    {
        let key = c as u32;
        match self.glyphs.get(&key) {
            Some(e) => Some(*e),
            None => None,
        }
    }

    /// Place and cache the glyph of `c`, rasterized to `width` by `height`
    /// pixels with bitmap offsets `xmin`, `ymin`. A glyph is placed clear of
    /// every glyph placed before and inside the atlas.
    pub fn add_glyph(&mut self, c: char, width: usize, height: usize, xmin: i32, ymin: i32) -> (r:
        Option<GlyphEntry>)
        requires
            would_place(old(self).shelf_spec(), width, height) ==> bearing_fits(height, ymin),
        ensures
            (r, final(self).shelf_spec()) == spec_add_glyph(
                old(self).shelf_spec(),
                width,
                height,
                xmin,
                ymin,
            ),
            final(self).cache() == old(self).cache().insert(c as u32, r),
            r matches Some(e) ==> final(self).placed() == old(self).placed().push(e),
            r is None ==> final(self).placed() == old(self).placed(),
            r matches Some(e) ==> within_atlas(e) && forall|i: int|
                0 <= i < old(self).placed().len() ==> disjoint(#[trigger] old(self).placed()[i], e),
    {
        proof {
            use_type_invariant(&*self);
        }
        let entry = if width == 0 || height == 0 {
            None
        } else {
            self.allocate(width, height, xmin, ymin)
        };
        let mut glyphs: HashMap<u32, Option<GlyphEntry>> = HashMap::new();
        std::mem::swap(&mut glyphs, &mut self.glyphs);
        glyphs.insert(c as u32, entry);
        self.glyphs = glyphs;
        entry
    }

    fn allocate(&mut self, width: usize, height: usize, xmin: i32, ymin: i32) -> (r: Option<
        GlyphEntry,
    >)
        requires
            width != 0 && height != 0,
            would_place(old(self).shelf_spec(), width, height) ==> bearing_fits(height, ymin),
        ensures
            (r, final(self).shelf_spec()) == spec_add_glyph(
                old(self).shelf_spec(),
                width,
                height,
                xmin,
                ymin,
            ),
            final(self).cache() == old(self).cache(),
            r matches Some(e) ==> final(self).placed() == old(self).placed().push(e),
            r is None ==> final(self).placed() == old(self).placed(),
            r matches Some(e) ==> within_atlas(e) && forall|i: int|
                0 <= i < old(self).placed().len() ==> disjoint(#[trigger] old(self).placed()[i], e),
    {
        proof {
            use_type_invariant(&*self);
        }
        let w = width as u32;
        let h = height as u32;
        if w > ATLAS_W || h > ATLAS_H {
            return None;
        }
        let ghost placed = self.placed@;
        let old_shelf = self.shelf;
        let s1 = if old_shelf.x + w > ATLAS_W {
            Shelf { x: 0, y: old_shelf.y + old_shelf.row_height, row_height: 0 }
        } else {
            old_shelf
        };
        proof {
            assert forall|i: int| 0 <= i < placed.len() implies {
                let e = #[trigger] placed[i];
                ||| e.atlas_y + e.height <= s1.y
                ||| (e.atlas_y == s1.y && e.atlas_x + e.width <= s1.x && e.height <= s1.row_height)
            } by {
                let e = placed[i];
            }
        }
        self.shelf = s1;
        if s1.y + h > ATLAS_H {
            return None;
        }
        let e = GlyphEntry {
            atlas_x: s1.x,
            atlas_y: s1.y,
            width: w,
            height: h,
            bearing_x: xmin,
            bearing_y: ymin + height as i32,
        };
        let s2 = Shelf {
            x: s1.x + w,
            y: s1.y,
            row_height: if s1.row_height < h {
                h
            } else {
                s1.row_height
            },
        };
        proof {
            assert forall|i: int| 0 <= i < placed.len() implies disjoint(#[trigger] placed[i], e) by {
                let f = placed[i];
            }
            let np = placed.push(e);
            assert forall|i: int| 0 <= i < np.len() implies within_atlas(#[trigger] np[i]) by {
                if i < placed.len() {
                    assert(np[i] == placed[i]);
                }
            }
            assert forall|i: int| 0 <= i < np.len() implies {
                let f = #[trigger] np[i];
                ||| f.atlas_y + f.height <= s2.y
                ||| (f.atlas_y == s2.y && f.atlas_x + f.width <= s2.x && f.height <= s2.row_height)
            } by {
                if i < placed.len() {
                    assert(np[i] == placed[i]);
                }
            }
            assert forall|i: int, j: int| 0 <= i < j < np.len() implies disjoint(
                #[trigger] np[i],
                #[trigger] np[j],
            ) by {
                if j < placed.len() {
                    assert(np[i] == placed[i] && np[j] == placed[j]);
                } else {
                    assert(np[i] == placed[i]);
                    assert(np[j] == e);
                }
            }
        }
        self.shelf = s2;
        self.placed = Ghost(self.placed@.push(e));
        Some(e)
    }

    /// The glyph of `c`: from the cache when `c` was asked for before;
    /// otherwise rasterized once by `raster`, placed and cached. The flag
    /// tells whether `raster` ran, that is whether the glyph is new.
    pub fn ensure_glyph<F: FnOnce(char) -> GlyphSize>(&mut self, c: char, raster: F) -> (r: (
        Option<GlyphEntry>,
        bool,
    ))
        requires
            call_requires(raster, (c,)),
            forall|m: GlyphSize| #[trigger]
                call_ensures(raster, (c,), m) ==> bearing_fits(m.height, m.ymin),
        ensures
            old(self).cache().contains_key(c as u32) ==> {
                &&& r == (old(self).cache()[c as u32], false)
                &&& *final(self) == *old(self)
            },
            !old(self).cache().contains_key(c as u32) ==> {
                &&& r.1
                &&& exists|m: GlyphSize| #[trigger]
                    call_ensures(raster, (c,), m) && glyph_added(*old(self), *final(self), c, m, r.0)
            },
    {
        if let Some(slot) = self.lookup(c) {
            return (slot, false);
        }
        let m = raster(c);
        let ghost before = *self;
        let r = self.add_glyph(c, m.width, m.height, m.xmin, m.ymin);
        assert(glyph_added(before, *self, c, m, r));
        (r, true)
    }
}

/// Each glyph is rasterized and placed at most once: once `ensure_glyph` has
/// handed out `r` for `c`, the cache holds `r` for `c`, so every later call
/// for `c` gives `r` back without running the rasterizer or changing the
/// atlas.
pub proof fn law_glyph_placed_once(before: GlyphAtlas, after: GlyphAtlas, c: char, m: GlyphSize, r: Option<GlyphEntry>)
    requires
        glyph_added(before, after, c, m, r),
    ensures
        after.cache().contains_key(c as u32),
        after.cache()[c as u32] == r,
{
}

} // verus!
