//! Maps terminal cell colors to the renderer's RGBA color type, through the
//! palette of the active theme.

use vstd::prelude::*;

verus! {

/// 8-bit RGBA color.
#[derive(Clone, Copy, PartialEq, Eq, Hash, Debug, Structural)]
pub struct Color {
    pub r: u8,
    pub g: u8,
    pub b: u8,
    pub a: u8,
}

impl Color {
    pub open spec fn spec_rgb(r: u8, g: u8, b: u8) -> Color {
        Color { r, g, b, a: 0xff }
    }

    /// An opaque color.
    pub fn rgb(r: u8, g: u8, b: u8) -> (c: Self)
        ensures
            c == Color::spec_rgb(r, g, b),
    {
        Color { r, g, b, a: 0xff }
    }
}

/// Cursor color stays fixed (Draco red) regardless of theme.
pub open spec fn spec_cursor_red() -> Color {
    Color::spec_rgb(0xff, 0x2a, 0x2a)
}

/// Cursor color stays fixed (Draco red) regardless of theme.
pub fn cursor_red() -> (c: Color)
    ensures
        c == spec_cursor_red(),
{
    Color::rgb(0xff, 0x2a, 0x2a)
}

/// The palette of a color theme: the 16 ANSI colors and the default
/// foreground and background.
#[derive(Clone, Copy, Debug)]
pub struct Theme {
    pub ansi: [Color; 16],
    pub foreground: Color,
    pub background: Color,
}

/// An RGB triple given directly by the terminal.
#[derive(Clone, Copy, PartialEq, Eq, Debug, Structural)]
pub struct Rgb {
    pub r: u8,
    pub g: u8,
    pub b: u8,
}

/// The named colors of a terminal (the ANSI colors and their bright and dim
/// forms, and the default foreground, background and cursor).
#[derive(Clone, Copy, PartialEq, Eq, Debug, Structural)]
pub enum NamedColor {
    Black,
    Red,
    Green,
    Yellow,
    Blue,
    Magenta,
    Cyan,
    White,
    BrightBlack,
    BrightRed,
    BrightGreen,
    BrightYellow,
    BrightBlue,
    BrightMagenta,
    BrightCyan,
    BrightWhite,
    Foreground,
    Background,
    Cursor,
    DimBlack,
    DimRed,
    DimGreen,
    DimYellow,
    DimBlue,
    DimMagenta,
    DimCyan,
    DimWhite,
    BrightForeground,
    DimForeground,
}

/// The color of a terminal cell: a direct RGB value, an index into the 256
/// color palette, or a named color.
#[derive(Clone, Copy, PartialEq, Eq, Debug, Structural)]
pub enum TermColor {
    Spec(Rgb),
    Indexed(u8),
    Named(NamedColor),
}

pub open spec fn spec_cube(v: u8) -> u8 {
    if v == 0 {
        0
    } else {
        (55 + v * 40) as u8
    }
}

/// Palette index `idx` (0..256): the 16 theme colors, then a 6x6x6 color
/// cube, then a 24-step gray ramp.
pub open spec fn spec_indexed(theme: Theme, idx: u8) -> Color {
    if idx < 16 {
        theme.ansi[idx as int]
    } else if idx < 232 {
        let i = (idx - 16) as u8;
        Color::spec_rgb(spec_cube(((i / 36) % 6) as u8), spec_cube(((i / 6) % 6) as u8), spec_cube((i % 6) as u8))
    } else {
        let lvl = 8 + (idx - 232) * 10;
        let l: u8 = if lvl < 255 { lvl as u8 } else { 255 };
        Color::spec_rgb(l, l, l)
    }
}

pub open spec fn spec_named_color(theme: Theme, n: NamedColor) -> Color {
    match n {
        NamedColor::Foreground | NamedColor::BrightForeground => theme.foreground,
        NamedColor::DimForeground => Color::spec_rgb(0xa0, 0xa0, 0xa0),
        NamedColor::Background => theme.background,
        NamedColor::Cursor => spec_cursor_red(),
        NamedColor::Black | NamedColor::DimBlack => theme.ansi[0],
        NamedColor::Red | NamedColor::DimRed => theme.ansi[1],
        NamedColor::Green | NamedColor::DimGreen => theme.ansi[2],
        NamedColor::Yellow | NamedColor::DimYellow => theme.ansi[3],
        NamedColor::Blue | NamedColor::DimBlue => theme.ansi[4],
        NamedColor::Magenta | NamedColor::DimMagenta => theme.ansi[5],
        NamedColor::Cyan | NamedColor::DimCyan => theme.ansi[6],
        NamedColor::White | NamedColor::DimWhite => theme.ansi[7],
        NamedColor::BrightBlack => theme.ansi[8],
        NamedColor::BrightRed => theme.ansi[9],
        NamedColor::BrightGreen => theme.ansi[10],
        NamedColor::BrightYellow => theme.ansi[11],
        NamedColor::BrightBlue => theme.ansi[12],
        NamedColor::BrightMagenta => theme.ansi[13],
        NamedColor::BrightCyan => theme.ansi[14],
        NamedColor::BrightWhite => theme.ansi[15],
    }
}

pub open spec fn spec_term_color(theme: Theme, c: TermColor) -> Color {
    match c {
        TermColor::Spec(rgb) => Color { r: rgb.r, g: rgb.g, b: rgb.b, a: 0xff },
        TermColor::Indexed(idx) => spec_indexed(theme, idx),
        TermColor::Named(n) => spec_named_color(theme, n),
    }
}

fn ansi(theme: &Theme, idx: usize) -> (c: Color)
    requires
        idx < 16,
    ensures
        c == theme.ansi[idx as int],
{
    theme.ansi[idx]
}

/// The theme's default foreground.
pub fn fg_default(theme: &Theme) -> (c: Color)
    ensures
        c == theme.foreground,
{
    theme.foreground
}

/// The theme's default background.
pub fn bg_default(theme: &Theme) -> (c: Color)
    ensures
        c == theme.background,
{
    theme.background
}

/// The color of a terminal cell under `theme`.
pub fn term_color(theme: &Theme, c: TermColor) -> (out: Color)
    ensures
        out == spec_term_color(*theme, c),
{
    match c {
        TermColor::Spec(rgb) => Color { r: rgb.r, g: rgb.g, b: rgb.b, a: 0xff },
        TermColor::Indexed(idx) => indexed(theme, idx),
        TermColor::Named(named) => named_color(theme, named),
    }
}

fn indexed(theme: &Theme, idx: u8) -> (c: Color)
    ensures
        c == spec_indexed(*theme, idx),
{
    if (idx as usize) < 16 {
        ansi(theme, idx as usize)
    } else if idx < 232 {
        let i = idx - 16;
        let r = (i / 36) % 6;
        let g = (i / 6) % 6;
        let b = i % 6;
        Color::rgb(cube(r), cube(g), cube(b))
    } else {
        let lvl: u16 = 8 + (idx - 232) as u16 * 10;
        let l: u8 = if lvl < 255 { lvl as u8 } else { 255 };
        Color::rgb(l, l, l)
    }
}

/// One axis of the 6x6x6 color cube.
fn cube(v: u8) -> (c: u8)
    requires
        v < 6,
    ensures
        c == spec_cube(v),
{
    if v == 0 {
        0
    } else {
        55 + v * 40
    }
}

fn named_color(theme: &Theme, n: NamedColor) -> (c: Color)
    ensures
        c == spec_named_color(*theme, n),
{
    match n {
        NamedColor::Foreground | NamedColor::BrightForeground => fg_default(theme),
        NamedColor::DimForeground => Color::rgb(0xa0, 0xa0, 0xa0),
        NamedColor::Background => bg_default(theme),
        NamedColor::Cursor => cursor_red(),
        NamedColor::Black => ansi(theme, 0),
        NamedColor::Red => ansi(theme, 1),
        NamedColor::Green => ansi(theme, 2),
        NamedColor::Yellow => ansi(theme, 3),
        NamedColor::Blue => ansi(theme, 4),
        NamedColor::Magenta => ansi(theme, 5),
        NamedColor::Cyan => ansi(theme, 6),
        NamedColor::White => ansi(theme, 7),
        NamedColor::BrightBlack => ansi(theme, 8),
        NamedColor::BrightRed => ansi(theme, 9),
        NamedColor::BrightGreen => ansi(theme, 10),
        NamedColor::BrightYellow => ansi(theme, 11),
        NamedColor::BrightBlue => ansi(theme, 12),
        NamedColor::BrightMagenta => ansi(theme, 13),
        NamedColor::BrightCyan => ansi(theme, 14),
        NamedColor::BrightWhite => ansi(theme, 15),
        NamedColor::DimBlack => ansi(theme, 0),
        NamedColor::DimRed => ansi(theme, 1),
        NamedColor::DimGreen => ansi(theme, 2),
        NamedColor::DimYellow => ansi(theme, 3),
        NamedColor::DimBlue => ansi(theme, 4),
        NamedColor::DimMagenta => ansi(theme, 5),
        NamedColor::DimCyan => ansi(theme, 6),
        NamedColor::DimWhite => ansi(theme, 7),
    }
}

/// The 216 palette entries after the sixteen theme colors form a 6x6x6
/// color cube: entry `16 + 36 r + 6 g + b` has red level `r`, green level
/// `g` and blue level `b`, each level 0 mapping to 0 and the others rising
/// by 40 from 95 up to 255.
pub proof fn law_palette_cube(theme: Theme, r: u8, g: u8, b: u8)
    requires
        r < 6,
        g < 6,
        b < 6,
    ensures
        spec_indexed(theme, (16 + 36 * r + 6 * g + b) as u8) == Color::spec_rgb(
            spec_cube(r),
            spec_cube(g),
            spec_cube(b),
        ),
        spec_cube(0) == 0,
        spec_cube(1) == 95,
        spec_cube(5) == 255,
        r >= 1 && r < 5 ==> spec_cube((r + 1) as u8) == spec_cube(r) + 40,
{
    let i: int = 36 * r + 6 * g + b;
    assert(i / 36 == r && (i / 6) % 6 == g && i % 6 == b) by (nonlinear_arith)
        requires
            i == 36 * r + 6 * g + b,
            0 <= r < 6,
            0 <= g < 6,
            0 <= b < 6,
    ;
    assert(i % 36 / 6 == g) by (nonlinear_arith)
        requires
            i == 36 * r + 6 * g + b,
            0 <= r < 6,
            0 <= g < 6,
            0 <= b < 6,
    ;
    assert((i / 36) % 6 == r) by (nonlinear_arith)
        requires
            i / 36 == r,
            0 <= r < 6,
    ;
}

/// Every palette index above the 16 theme colors names an opaque color; the
/// color cube spans 0 to 255 on each axis and the gray ramp runs from 8 to
/// 238 in steps of ten.
pub proof fn law_palette_above_theme_is_opaque(theme: Theme, idx: u8)
    requires
        idx >= 16,
    ensures
        spec_indexed(theme, idx).a == 0xff,
        idx >= 232 ==> spec_indexed(theme, idx).r == 8 + (idx - 232) * 10,
        idx >= 232 ==> spec_indexed(theme, idx).r == spec_indexed(theme, idx).g
            == spec_indexed(theme, idx).b,
        spec_indexed(theme, 16) == Color::spec_rgb(0, 0, 0),
        spec_indexed(theme, 231) == Color::spec_rgb(255, 255, 255),
{
}

/// The ANSI number of one of the eight base colors, in SGR order (black 0,
/// red 1, green 2, yellow 3, blue 4, magenta 5, cyan 6, white 7).
pub open spec fn ansi_number(n: NamedColor) -> Option<u8> {
    match n {
        NamedColor::Black => Some(0u8),
        NamedColor::Red => Some(1u8),
        NamedColor::Green => Some(2u8),
        NamedColor::Yellow => Some(3u8),
        NamedColor::Blue => Some(4u8),
        NamedColor::Magenta => Some(5u8),
        NamedColor::Cyan => Some(6u8),
        NamedColor::White => Some(7u8),
        _ => None,
    }
}

/// The bright form of a base color.
pub open spec fn bright_of(n: NamedColor) -> NamedColor {
    match n {
        NamedColor::Black => NamedColor::BrightBlack,
        NamedColor::Red => NamedColor::BrightRed,
        NamedColor::Green => NamedColor::BrightGreen,
        NamedColor::Yellow => NamedColor::BrightYellow,
        NamedColor::Blue => NamedColor::BrightBlue,
        NamedColor::Magenta => NamedColor::BrightMagenta,
        NamedColor::Cyan => NamedColor::BrightCyan,
        _ => NamedColor::BrightWhite,
    }
}

/// The dim form of a base color.
pub open spec fn dim_of(n: NamedColor) -> NamedColor {
    match n {
        NamedColor::Black => NamedColor::DimBlack,
        NamedColor::Red => NamedColor::DimRed,
        NamedColor::Green => NamedColor::DimGreen,
        NamedColor::Yellow => NamedColor::DimYellow,
        NamedColor::Blue => NamedColor::DimBlue,
        NamedColor::Magenta => NamedColor::DimMagenta,
        NamedColor::Cyan => NamedColor::DimCyan,
        _ => NamedColor::DimWhite,
    }
}

/// Named colors agree with the 256-color palette: a base color with ANSI
/// number `i` is the palette entry `i`, its bright form the entry `i + 8`
/// (the bright half of the theme's sixteen colors), and its dim form the
/// same entry as the base color.
pub proof fn law_named_colors_follow_palette(theme: Theme, n: NamedColor)
    requires
        ansi_number(n) is Some,
    ensures
        spec_term_color(theme, TermColor::Named(n)) == spec_term_color(
            theme,
            TermColor::Indexed(ansi_number(n)->Some_0),
        ),
        spec_term_color(theme, TermColor::Named(bright_of(n))) == spec_term_color(
            theme,
            TermColor::Indexed((ansi_number(n)->Some_0 + 8) as u8),
        ),
        spec_term_color(theme, TermColor::Named(dim_of(n))) == spec_term_color(
            theme,
            TermColor::Named(n),
        ),
        spec_term_color(theme, TermColor::Named(n)) == theme.ansi[ansi_number(n)->Some_0 as int],
        spec_term_color(theme, TermColor::Named(bright_of(n))) == theme.ansi[ansi_number(n)->Some_0
            + 8],
{
}

} // verus!
