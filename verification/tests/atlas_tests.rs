use dracoshell::atlas::{GlyphAtlas, GlyphEntry, GlyphSize, ATLAS_H, ATLAS_W};

#[test]
fn empty_glyphs_are_cached_as_none() {
    let mut a = GlyphAtlas::new();
    assert_eq!(a.lookup(' '), None);
    assert_eq!(a.add_glyph(' ', 0, 0, 0, 0), None);
    assert_eq!(a.lookup(' '), Some(None));
    assert_eq!(a.add_glyph('-', 7, 0, 0, 5), None);
}

#[test]
fn glyphs_are_packed_left_to_right() {
    let mut a = GlyphAtlas::new();
    let p = a.add_glyph('P', 8, 12, 1, 0).unwrap();
    assert_eq!(p, GlyphEntry { atlas_x: 0, atlas_y: 0, width: 8, height: 12, bearing_x: 1, bearing_y: 12 });
    let g = a.add_glyph('g', 7, 15, 0, -4).unwrap();
    assert_eq!(g, GlyphEntry { atlas_x: 8, atlas_y: 0, width: 7, height: 15, bearing_x: 0, bearing_y: 11 });
    assert_eq!(a.lookup('P'), Some(Some(p)));
    assert_eq!(a.lookup('g'), Some(Some(g)));
}

#[test]
fn a_full_shelf_starts_a_new_one_below_the_tallest_glyph() {
    let mut a = GlyphAtlas::new();
    let first = a.add_glyph('a', 1000, 20, 0, 0).unwrap();
    let second = a.add_glyph('b', 20, 30, 0, 0).unwrap();
    assert_eq!((first.atlas_x, first.atlas_y), (0, 0));
    assert_eq!((second.atlas_x, second.atlas_y), (1000, 0));
    let third = a.add_glyph('c', 10, 5, 0, 0).unwrap();
    assert_eq!((third.atlas_x, third.atlas_y), (0, 30));
}

#[test]
fn oversized_glyphs_and_a_full_atlas_are_refused() {
    let mut a = GlyphAtlas::new();
    assert_eq!(a.add_glyph('W', (ATLAS_W + 1) as usize, 10, 0, 0), None);
    assert_eq!(a.add_glyph('H', 10, (ATLAS_H + 1) as usize, 0, 0), None);
    let big = a.add_glyph('1', ATLAS_W as usize, 1000, 0, 0).unwrap();
    assert_eq!((big.atlas_x, big.atlas_y), (0, 0));
    assert_eq!(a.add_glyph('2', 10, 30, 0, 0), None);
    assert_eq!(a.lookup('2'), Some(None));
    let small = a.add_glyph('3', 10, 24, 0, 0).unwrap();
    assert_eq!((small.atlas_x, small.atlas_y), (0, 1000));
}

#[test]
fn placed_glyphs_never_overlap() {
    let mut a = GlyphAtlas::new();
    let mut placed: Vec<GlyphEntry> = Vec::new();
    for i in 0..400u32 {
        let c = char::from_u32(0x4e00 + i).unwrap();
        let w = (i * 37 % 61 + 1) as usize;
        let h = (i * 53 % 47 + 1) as usize;
        if let Some(e) = a.add_glyph(c, w, h, 0, 0) {
            assert!(e.atlas_x + e.width <= ATLAS_W && e.atlas_y + e.height <= ATLAS_H);
            for f in &placed {
                let apart = e.atlas_x + e.width <= f.atlas_x
                    || f.atlas_x + f.width <= e.atlas_x
                    || e.atlas_y + e.height <= f.atlas_y
                    || f.atlas_y + f.height <= e.atlas_y;
                assert!(apart);
            }
            placed.push(e);
        }
    }
    assert!(placed.len() > 100);
}

#[test]
fn ensure_glyph_rasterizes_each_glyph_once() {
    let mut atlas = GlyphAtlas::new();
    let mut calls = 0;
    let (first, fresh) = atlas.ensure_glyph('a', |_| {
        calls += 1;
        GlyphSize { width: 8, height: 12, xmin: 1, ymin: -3 }
    });
    assert!(fresh);
    let e = first.unwrap();
    assert_eq!((e.atlas_x, e.atlas_y, e.width, e.height), (0, 0, 8, 12));
    assert_eq!((e.bearing_x, e.bearing_y), (1, 9));
    let (again, fresh_again) = atlas.ensure_glyph('a', |_| {
        calls += 1;
        GlyphSize { width: 99, height: 99, xmin: 0, ymin: 0 }
    });
    assert!(!fresh_again);
    assert_eq!(again, Some(e));
    assert_eq!(calls, 1);
    let (b, _) = atlas.ensure_glyph('b', |_| GlyphSize { width: 5, height: 5, xmin: 0, ymin: 0 });
    assert_eq!(b.unwrap().atlas_x, 8);
}

#[test]
fn empty_glyph_is_cached_as_none() {
    let mut atlas = GlyphAtlas::new();
    let (r, fresh) = atlas.ensure_glyph(' ', |_| GlyphSize { width: 0, height: 0, xmin: 0, ymin: 0 });
    assert_eq!((r, fresh), (None, true));
    let (r2, fresh2) = atlas.ensure_glyph(' ', |_| GlyphSize { width: 3, height: 3, xmin: 0, ymin: 0 });
    assert_eq!((r2, fresh2), (None, false));
}

#[test]
fn refused_glyph_needs_no_bearing() {
    let mut atlas = GlyphAtlas::new();
    assert_eq!(atlas.add_glyph('x', 2000, 5, 0, i32::MAX), None);
    assert_eq!(atlas.lookup('x'), Some(None));
}
