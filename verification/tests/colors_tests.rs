use dracoshell::colors::{
    bg_default, cursor_red, fg_default, term_color, Color, NamedColor, Rgb, TermColor, Theme,
};

fn theme() -> Theme {
    let mut ansi = [Color::rgb(0, 0, 0); 16];
    for (i, c) in ansi.iter_mut().enumerate() {
        *c = Color::rgb(i as u8, 100 + i as u8, 200);
    }
    Theme { ansi, foreground: Color::rgb(0xdc, 0xdf, 0xe4), background: Color::rgb(0x1e, 0x21, 0x27) }
}

#[test]
fn rgb_is_opaque() {
    assert_eq!(Color::rgb(1, 2, 3), Color { r: 1, g: 2, b: 3, a: 0xff });
    assert_eq!(cursor_red(), Color { r: 0xff, g: 0x2a, b: 0x2a, a: 0xff });
}

#[test]
fn defaults_come_from_theme() {
    let t = theme();
    assert_eq!(fg_default(&t), Color::rgb(0xdc, 0xdf, 0xe4));
    assert_eq!(bg_default(&t), Color::rgb(0x1e, 0x21, 0x27));
}

#[test]
fn spec_colors_pass_through() {
    let t = theme();
    assert_eq!(term_color(&t, TermColor::Spec(Rgb { r: 9, g: 8, b: 7 })), Color::rgb(9, 8, 7));
}

#[test]
fn first_sixteen_indices_are_theme_colors() {
    let t = theme();
    for i in 0..16u8 {
        assert_eq!(term_color(&t, TermColor::Indexed(i)), t.ansi[i as usize]);
    }
}

#[test]
fn color_cube() {
    let t = theme();
    assert_eq!(term_color(&t, TermColor::Indexed(16)), Color::rgb(0, 0, 0));
    assert_eq!(term_color(&t, TermColor::Indexed(196)), Color::rgb(255, 0, 0));
    assert_eq!(term_color(&t, TermColor::Indexed(17)), Color::rgb(0, 0, 95));
    assert_eq!(term_color(&t, TermColor::Indexed(59)), Color::rgb(95, 95, 95));
    assert_eq!(term_color(&t, TermColor::Indexed(231)), Color::rgb(255, 255, 255));
}

#[test]
fn gray_ramp() {
    let t = theme();
    assert_eq!(term_color(&t, TermColor::Indexed(232)), Color::rgb(8, 8, 8));
    assert_eq!(term_color(&t, TermColor::Indexed(244)), Color::rgb(128, 128, 128));
    assert_eq!(term_color(&t, TermColor::Indexed(255)), Color::rgb(238, 238, 238));
}

#[test]
fn named_colors() {
    let t = theme();
    assert_eq!(term_color(&t, TermColor::Named(NamedColor::Foreground)), t.foreground);
    assert_eq!(term_color(&t, TermColor::Named(NamedColor::BrightForeground)), t.foreground);
    assert_eq!(term_color(&t, TermColor::Named(NamedColor::Background)), t.background);
    assert_eq!(term_color(&t, TermColor::Named(NamedColor::DimForeground)), Color::rgb(0xa0, 0xa0, 0xa0));
    assert_eq!(term_color(&t, TermColor::Named(NamedColor::Cursor)), cursor_red());
    assert_eq!(term_color(&t, TermColor::Named(NamedColor::Red)), t.ansi[1]);
    assert_eq!(term_color(&t, TermColor::Named(NamedColor::DimRed)), t.ansi[1]);
    assert_eq!(term_color(&t, TermColor::Named(NamedColor::BrightRed)), t.ansi[9]);
    assert_eq!(term_color(&t, TermColor::Named(NamedColor::BrightWhite)), t.ansi[15]);
    assert_eq!(term_color(&t, TermColor::Named(NamedColor::DimWhite)), t.ansi[7]);
}
