use dracoshell::input::{
    encode_key, route_key, try_shortcut, KeyRoute, KeyEvent, LogicalKey, Modifiers, NamedKey, PhysicalKey, Shortcut,
};
use dracoshell::layout::{Direction, Split};

fn mods(control: bool, shift: bool, alt: bool, super_key: bool) -> Modifiers {
    Modifiers { control, shift, alt, super_key }
}

fn none() -> Modifiers {
    mods(false, false, false, false)
}

fn chars(s: &str, physical: PhysicalKey) -> KeyEvent {
    KeyEvent {
        pressed: true,
        logical: LogicalKey::Character(s.chars().collect()),
        physical,
        text: Some(s.as_bytes().to_vec()),
    }
}

fn named(k: NamedKey) -> KeyEvent {
    KeyEvent { pressed: true, logical: LogicalKey::Named(k), physical: PhysicalKey::Other, text: None }
}

#[test]
fn plain_text_is_sent_as_is() {
    assert_eq!(encode_key(&chars("a", PhysicalKey::Other), none()), Some(b"a".to_vec()));
    assert_eq!(encode_key(&chars("é", PhysicalKey::Other), none()), Some("é".as_bytes().to_vec()));
}

#[test]
fn alt_prefixes_escape() {
    assert_eq!(
        encode_key(&chars("x", PhysicalKey::Other), mods(false, false, true, false)),
        Some(b"\x1bx".to_vec())
    );
}

#[test]
fn control_letters_and_symbols() {
    let ctrl = mods(true, false, false, false);
    assert_eq!(encode_key(&chars("a", PhysicalKey::Other), ctrl), Some(vec![1]));
    assert_eq!(encode_key(&chars("C", PhysicalKey::KeyC), ctrl), Some(vec![3]));
    assert_eq!(encode_key(&chars("z", PhysicalKey::Other), ctrl), Some(vec![26]));
    assert_eq!(encode_key(&chars("@", PhysicalKey::Other), ctrl), Some(vec![0]));
    assert_eq!(encode_key(&chars(" ", PhysicalKey::Other), ctrl), Some(vec![0]));
    assert_eq!(encode_key(&chars("[", PhysicalKey::Other), ctrl), Some(vec![0x1b]));
    assert_eq!(encode_key(&chars("\\", PhysicalKey::Other), ctrl), Some(vec![0x1c]));
    assert_eq!(encode_key(&chars("]", PhysicalKey::Other), ctrl), Some(vec![0x1d]));
    assert_eq!(encode_key(&chars("^", PhysicalKey::Other), ctrl), Some(vec![0x1e]));
    assert_eq!(encode_key(&chars("_", PhysicalKey::Other), ctrl), Some(vec![0x1f]));
    assert_eq!(encode_key(&chars("?", PhysicalKey::Other), ctrl), Some(vec![0x1f]));
    // no control byte: the text goes through
    assert_eq!(encode_key(&chars("1", PhysicalKey::Other), ctrl), Some(b"1".to_vec()));
    // with Alt held Ctrl does not make control bytes
    assert_eq!(
        encode_key(&chars("a", PhysicalKey::Other), mods(true, false, true, false)),
        Some(b"\x1ba".to_vec())
    );
}

#[test]
fn special_keys_send_escape_sequences() {
    assert_eq!(encode_key(&named(NamedKey::Enter), none()), Some(b"\r".to_vec()));
    assert_eq!(encode_key(&named(NamedKey::Backspace), none()), Some(b"\x7f".to_vec()));
    assert_eq!(encode_key(&named(NamedKey::Tab), none()), Some(b"\t".to_vec()));
    assert_eq!(encode_key(&named(NamedKey::Escape), none()), Some(b"\x1b".to_vec()));
    assert_eq!(encode_key(&named(NamedKey::ArrowUp), none()), Some(b"\x1b[A".to_vec()));
    assert_eq!(encode_key(&named(NamedKey::ArrowDown), none()), Some(b"\x1b[B".to_vec()));
    assert_eq!(encode_key(&named(NamedKey::ArrowRight), none()), Some(b"\x1b[C".to_vec()));
    assert_eq!(encode_key(&named(NamedKey::ArrowLeft), none()), Some(b"\x1b[D".to_vec()));
    assert_eq!(encode_key(&named(NamedKey::Home), none()), Some(b"\x1b[H".to_vec()));
    assert_eq!(encode_key(&named(NamedKey::End), none()), Some(b"\x1b[F".to_vec()));
    assert_eq!(encode_key(&named(NamedKey::Delete), none()), Some(b"\x1b[3~".to_vec()));
    assert_eq!(encode_key(&named(NamedKey::PageUp), none()), Some(b"\x1b[5~".to_vec()));
    assert_eq!(encode_key(&named(NamedKey::PageDown), none()), Some(b"\x1b[6~".to_vec()));
    // Alt does not prefix special keys
    assert_eq!(encode_key(&named(NamedKey::Enter), mods(false, false, true, false)), Some(b"\r".to_vec()));
}

#[test]
fn releases_and_textless_keys_send_nothing() {
    let mut up = chars("a", PhysicalKey::Other);
    up.pressed = false;
    assert_eq!(encode_key(&up, none()), None);
    assert_eq!(encode_key(&named(NamedKey::Other), none()), None);
    let space = KeyEvent {
        pressed: true,
        logical: LogicalKey::Named(NamedKey::Other),
        physical: PhysicalKey::Other,
        text: Some(b" ".to_vec()),
    };
    assert_eq!(encode_key(&space, none()), Some(b" ".to_vec()));
}

#[test]
fn clipboard_shortcuts() {
    let cs = mods(true, true, false, false);
    assert_eq!(try_shortcut(&chars("V", PhysicalKey::KeyV), cs, false), Shortcut::Paste);
    assert_eq!(try_shortcut(&chars("C", PhysicalKey::KeyC), cs, false), Shortcut::Copy);
    let cmd = mods(false, false, false, true);
    assert_eq!(try_shortcut(&chars("v", PhysicalKey::KeyV), cmd, true), Shortcut::Paste);
    assert_eq!(try_shortcut(&chars("c", PhysicalKey::KeyC), cmd, true), Shortcut::Copy);
    assert_eq!(try_shortcut(&chars("c", PhysicalKey::KeyC), cmd, false), Shortcut::NotShortcut);
}

#[test]
fn scrollback_shortcuts() {
    let shift = mods(false, true, false, false);
    assert_eq!(try_shortcut(&named(NamedKey::PageUp), shift, false), Shortcut::ScrollPageUp);
    assert_eq!(try_shortcut(&named(NamedKey::PageDown), shift, false), Shortcut::ScrollPageDown);
    assert_eq!(try_shortcut(&named(NamedKey::PageUp), none(), false), Shortcut::NotShortcut);
}

#[test]
fn tab_shortcuts() {
    let cs = mods(true, true, false, false);
    assert_eq!(try_shortcut(&chars("T", PhysicalKey::Other), cs, false), Shortcut::NewTab);
    assert_eq!(try_shortcut(&chars("t", PhysicalKey::Other), cs, true), Shortcut::NewTab);
    assert_eq!(try_shortcut(&chars("3", PhysicalKey::Other), cs, false), Shortcut::SwitchTab(2));
    assert_eq!(try_shortcut(&chars("1", PhysicalKey::Other), cs, false), Shortcut::SwitchTab(0));
    assert_eq!(try_shortcut(&chars("0", PhysicalKey::Other), cs, false), Shortcut::Consumed);
    assert_eq!(try_shortcut(&named(NamedKey::Tab), cs, false), Shortcut::CycleTab);
    assert_eq!(try_shortcut(&chars("x", PhysicalKey::Other), cs, false), Shortcut::NotShortcut);
    let mut released = chars("t", PhysicalKey::Other);
    released.pressed = false;
    assert_eq!(try_shortcut(&released, cs, false), Shortcut::Consumed);
}

#[test]
fn pane_shortcuts_by_logical_key() {
    let ca = mods(true, false, true, false);
    assert_eq!(try_shortcut(&chars("h", PhysicalKey::KeyH), ca, false), Shortcut::SplitPane(Split::Horizontal));
    assert_eq!(try_shortcut(&chars("V", PhysicalKey::KeyV), ca, false), Shortcut::SplitPane(Split::Vertical));
    assert_eq!(try_shortcut(&chars("w", PhysicalKey::KeyW), ca, false), Shortcut::ClosePane);
    assert_eq!(try_shortcut(&chars("q", PhysicalKey::KeyQ), ca, false), Shortcut::Quit);
    assert_eq!(try_shortcut(&named(NamedKey::ArrowLeft), ca, false), Shortcut::FocusPane(Direction::Left));
    assert_eq!(try_shortcut(&named(NamedKey::ArrowUp), ca, false), Shortcut::FocusPane(Direction::Up));
    assert_eq!(try_shortcut(&chars("k", PhysicalKey::Other), ca, false), Shortcut::NotShortcut);
    let mut released = chars("h", PhysicalKey::KeyH);
    released.pressed = false;
    assert_eq!(try_shortcut(&released, ca, false), Shortcut::Consumed);
    assert_eq!(try_shortcut(&chars("h", PhysicalKey::KeyH), none(), false), Shortcut::NotShortcut);
}

#[test]
fn pane_shortcuts_by_physical_key_on_mac() {
    let ca = mods(true, false, true, false);
    // Option+H composes another character on macOS; the physical key counts
    assert_eq!(try_shortcut(&chars("ˇ", PhysicalKey::KeyH), ca, true), Shortcut::SplitPane(Split::Horizontal));
    assert_eq!(try_shortcut(&chars("√", PhysicalKey::KeyV), ca, true), Shortcut::SplitPane(Split::Vertical));
    assert_eq!(try_shortcut(&chars("∑", PhysicalKey::KeyW), ca, true), Shortcut::ClosePane);
    assert_eq!(try_shortcut(&chars("œ", PhysicalKey::KeyQ), ca, true), Shortcut::Quit);
    let right = KeyEvent { pressed: true, logical: LogicalKey::Named(NamedKey::ArrowRight), physical: PhysicalKey::ArrowRight, text: None };
    assert_eq!(try_shortcut(&right, ca, true), Shortcut::FocusPane(Direction::Right));
    assert_eq!(try_shortcut(&chars("h", PhysicalKey::Other), ca, true), Shortcut::NotShortcut);
}

#[test]
fn wizard_takes_every_key_press() {
    let q = chars("q", PhysicalKey::KeyQ);
    assert!(matches!(route_key(true, &q, mods(true, false, true, false), false), KeyRoute::Wizard));
    assert!(matches!(route_key(true, &chars("a", PhysicalKey::Other), none(), false), KeyRoute::Wizard));
    let mut up = chars("a", PhysicalKey::Other);
    up.pressed = false;
    assert!(matches!(route_key(true, &up, none(), false), KeyRoute::Swallowed));
}

#[test]
fn shortcuts_come_before_the_shell() {
    let q = chars("q", PhysicalKey::KeyQ);
    assert!(matches!(
        route_key(false, &q, mods(true, false, true, false), false),
        KeyRoute::Shortcut(Shortcut::Quit)
    ));
}

#[test]
fn text_goes_to_the_shell() {
    match route_key(false, &chars("a", PhysicalKey::Other), none(), false) {
        KeyRoute::Send(b) => assert_eq!(b, b"a".to_vec()),
        other => panic!("unexpected route {:?}", other),
    }
    let mut up = chars("a", PhysicalKey::Other);
    up.pressed = false;
    assert!(matches!(route_key(false, &up, none(), false), KeyRoute::Nothing));
}
