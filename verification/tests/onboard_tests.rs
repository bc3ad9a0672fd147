use dracoshell::input::{KeyEvent, LogicalKey, Modifiers, NamedKey, PhysicalKey};
use dracoshell::onboard::{parse_rgb, OnboardAction, OnboardState, OnboardStep};

fn none() -> Modifiers {
    Modifiers { control: false, shift: false, alt: false, super_key: false }
}

fn ctrl() -> Modifiers {
    Modifiers { control: true, shift: false, alt: false, super_key: false }
}

fn named(k: NamedKey) -> KeyEvent {
    KeyEvent { pressed: true, logical: LogicalKey::Named(k), physical: PhysicalKey::Other, text: None }
}

fn ch(s: &str) -> KeyEvent {
    KeyEvent {
        pressed: true,
        logical: LogicalKey::Character(s.chars().collect()),
        physical: PhysicalKey::Other,
        text: Some(s.as_bytes().to_vec()),
    }
}

fn type_str(o: &mut OnboardState, s: &str) {
    for c in s.chars() {
        o.handle_key(&ch(&c.to_string()), none());
    }
}

#[test]
fn starts_with_font_size_step() {
    let o = OnboardState::new();
    assert_eq!(o.step(), OnboardStep::FontSize);
    assert_eq!(o.font_size(), 14);
    assert_eq!(o.accent_rgb(), Some((0xff, 0x2a, 0x2a)));
    assert!(o.accent_buf().is_empty());
}

#[test]
fn arrows_change_font_size_within_bounds() {
    let mut o = OnboardState::new();
    assert_eq!(o.handle_key(&named(NamedKey::ArrowUp), none()), OnboardAction::SetFontSize(15));
    for _ in 0..60 {
        o.handle_key(&named(NamedKey::ArrowUp), none());
    }
    assert_eq!(o.font_size(), 48);
    assert_eq!(o.handle_key(&named(NamedKey::ArrowUp), none()), OnboardAction::SetFontSize(48));
    for _ in 0..60 {
        o.handle_key(&named(NamedKey::ArrowDown), none());
    }
    assert_eq!(o.font_size(), 6);
    assert_eq!(o.handle_key(&named(NamedKey::ArrowDown), none()), OnboardAction::SetFontSize(6));
}

#[test]
fn enter_moves_to_accent_then_finishes() {
    let mut o = OnboardState::new();
    assert_eq!(o.handle_key(&named(NamedKey::Enter), none()), OnboardAction::Redraw);
    assert_eq!(o.step(), OnboardStep::AccentColor);
    assert_eq!(o.handle_key(&named(NamedKey::Enter), none()), OnboardAction::Finish);
}

#[test]
fn escape_and_ctrl_c_leave() {
    let mut o = OnboardState::new();
    assert_eq!(o.handle_key(&named(NamedKey::Escape), none()), OnboardAction::Exit);
    assert_eq!(o.handle_key(&ch("c"), ctrl()), OnboardAction::Exit);
    assert_eq!(o.handle_key(&ch("c"), none()), OnboardAction::Nothing);
    o.handle_key(&named(NamedKey::Enter), none());
    assert_eq!(o.handle_key(&ch("c"), ctrl()), OnboardAction::Exit);
    assert!(o.accent_buf().is_empty());
    assert_eq!(o.handle_key(&named(NamedKey::Escape), none()), OnboardAction::Exit);
}

#[test]
fn typing_a_hex_color() {
    let mut o = OnboardState::new();
    o.handle_key(&named(NamedKey::Enter), none());
    type_str(&mut o, "#ff88");
    assert_eq!(o.accent_rgb(), None);
    type_str(&mut o, "0z0");
    assert_eq!(o.accent_buf(), &b"#ff8800".to_vec());
    assert_eq!(o.accent_rgb(), Some((0xff, 0x88, 0x00)));
    assert_eq!(o.effective_accent(), b"#FF8800".to_vec());
    assert_eq!(o.handle_key(&named(NamedKey::Backspace), none()), OnboardAction::Redraw);
    assert_eq!(o.accent_rgb(), None);
    for _ in 0..7 {
        o.handle_key(&named(NamedKey::Backspace), none());
    }
    assert!(o.accent_buf().is_empty());
    assert_eq!(o.accent_rgb(), Some((0xff, 0x2a, 0x2a)));
    assert_eq!(o.effective_accent(), b"#FF2A2A".to_vec());
}

#[test]
fn keys_of_the_other_step_are_ignored() {
    let mut o = OnboardState::new();
    assert_eq!(o.handle_key(&ch("a"), none()), OnboardAction::Nothing);
    assert!(o.accent_buf().is_empty());
    o.handle_key(&named(NamedKey::Enter), none());
    assert_eq!(o.handle_key(&named(NamedKey::ArrowUp), none()), OnboardAction::Nothing);
    assert_eq!(o.font_size(), 14);
    assert_eq!(o.handle_key(&ch("g"), none()), OnboardAction::Nothing);
}

#[test]
fn effective_accent_drops_leading_hashes_and_uppercases() {
    let mut o = OnboardState::new();
    o.handle_key(&named(NamedKey::Enter), none());
    type_str(&mut o, "##abc");
    assert_eq!(o.effective_accent(), b"#ABC".to_vec());
}

#[test]
fn parse_rgb_cases() {
    assert_eq!(parse_rgb(&b"#1e2127".to_vec()), Some((0x1e, 0x21, 0x27)));
    assert_eq!(parse_rgb(&b"DCDFE4".to_vec()), Some((0xdc, 0xdf, 0xe4)));
    assert_eq!(parse_rgb(&b"###000000".to_vec()), Some((0, 0, 0)));
    assert_eq!(parse_rgb(&b"#abc".to_vec()), None);
    assert_eq!(parse_rgb(&b"#abcdefa".to_vec()), None);
    assert_eq!(parse_rgb(&b"#gg0000".to_vec()), None);
    assert_eq!(parse_rgb(&b"".to_vec()), None);
    // a base-16 field may carry a plus sign, as u8::from_str_radix allows
    assert_eq!(parse_rgb(&b"+F+F+F".to_vec()), Some((15, 15, 15)));
    assert_eq!(parse_rgb(&b"-F0000".to_vec()), None);
}

#[test]
fn parse_rgb_stops_at_first_bad_field_before_a_split_character() {
    // "zzabé": the first field fails, so the cut inside "é" is never reached.
    let text = "zzab\u{e9}".as_bytes().to_vec();
    assert_eq!(text.len(), 6);
    assert_eq!(parse_rgb(&text), None);
}
