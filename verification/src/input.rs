//! Keyboard input: the bytes a key press sends to the shell, and the
//! application shortcuts (clipboard, scrollback, tabs, panes).

use vstd::prelude::*;
use crate::layout::{Direction, Split};

verus! {

/// The named keys that the terminal treats specially; every other named key
/// is `Other`.
#[derive(Clone, Copy, PartialEq, Eq, Debug, Structural)]
pub enum NamedKey {
    Enter,
    Backspace,
    Tab,
    Escape,
    ArrowUp,
    ArrowDown,
    ArrowRight,
    ArrowLeft,
    Home,
    End,
    Delete,
    PageUp,
    PageDown,
    Other,
}

/// The logical key of a key event: a named key, or the characters that the
/// key produces under the current keyboard layout.
#[derive(Debug)]
pub enum LogicalKey {
    Named(NamedKey),
    Character(Vec<char>),
    Unidentified,
}

/// The physical key codes that shortcuts look at; every other code is `Other`.
#[derive(Clone, Copy, PartialEq, Eq, Debug, Structural)]
pub enum PhysicalKey {
    KeyC,
    KeyH,
    KeyQ,
    KeyV,
    KeyW,
    ArrowLeft,
    ArrowRight,
    ArrowUp,
    ArrowDown,
    Other,
}

#[derive(Clone, Copy, PartialEq, Eq, Debug, Structural)]
pub struct Modifiers {
    pub control: bool,
    pub shift: bool,
    pub alt: bool,
    pub super_key: bool,
}

/// A keyboard event: whether the key went down, its logical and physical
/// key, and the UTF-8 text it produced, if any.
#[derive(Debug)]
pub struct KeyEvent {
    pub pressed: bool,
    pub logical: LogicalKey,
    pub physical: PhysicalKey,
    pub text: Option<Vec<u8>>,
}

/// What a key event asks of the application, when it is a shortcut.
#[derive(Clone, Copy, PartialEq, Eq, Debug, Structural)]
pub enum Shortcut {
    /// Not a shortcut: the key goes on to the shell.
    NotShortcut,
    /// A shortcut chord that does nothing (a release, or an unused key).
    Consumed,
    Paste,
    Copy,
    ScrollPageUp,
    ScrollPageDown,
    NewTab,
    /// Switch to the tab with this 0-based index.
    SwitchTab(usize),
    CycleTab,
    SplitPane(Split),
    ClosePane,
    Quit,
    FocusPane(Direction),
}

pub open spec fn spec_ascii_lower(c: u32) -> u32 {
    if 65 <= c <= 90 {
        (c + 32) as u32
    } else {
        c
    }
}

/// The control byte that Ctrl plus the character `c` sends, if any.
pub open spec fn spec_control_byte(c: char) -> Option<u8> {
    let l = spec_ascii_lower(c as u32);
    if 97 <= l <= 122 {
        Some((l - 96) as u8)
    } else if l == 32 || l == 64 {
        Some(0)
    } else if l == 91 {
        Some(0x1b)
    } else if l == 92 {
        Some(0x1c)
    } else if l == 93 {
        Some(0x1d)
    } else if l == 94 {
        Some(0x1e)
    } else if l == 95 || l == 63 {
        Some(0x1f)
    } else {
        None
    }
}

/// The escape sequence of a named key, if it has one.
pub open spec fn spec_named_bytes(k: NamedKey) -> Option<Seq<u8>> {
    match k {
        NamedKey::Enter => Some(seq![13u8]),
        NamedKey::Backspace => Some(seq![0x7fu8]),
        NamedKey::Tab => Some(seq![9u8]),
        NamedKey::Escape => Some(seq![0x1bu8]),
        NamedKey::ArrowUp => Some(seq![0x1bu8, 91, 65]),
        NamedKey::ArrowDown => Some(seq![0x1bu8, 91, 66]),
        NamedKey::ArrowRight => Some(seq![0x1bu8, 91, 67]),
        NamedKey::ArrowLeft => Some(seq![0x1bu8, 91, 68]),
        NamedKey::Home => Some(seq![0x1bu8, 91, 72]),
        NamedKey::End => Some(seq![0x1bu8, 91, 70]),
        NamedKey::Delete => Some(seq![0x1bu8, 91, 51, 126]),
        NamedKey::PageUp => Some(seq![0x1bu8, 91, 53, 126]),
        NamedKey::PageDown => Some(seq![0x1bu8, 91, 54, 126]),
        NamedKey::Other => None,
    }
}

pub open spec fn opt_bytes(o: Option<Vec<u8>>) -> Option<Seq<u8>> {
    match o {
        Some(v) => Some(v@),
        None => None,
    }
}

/// The bytes that a key event sends to the shell: nothing for a release; a
/// control byte for Ctrl (without Alt or Super) plus a letter or one of
/// `space @ [ \ ] ^ _ ?`; the escape sequence of a special key; otherwise
/// the key's text, after an ESC when Alt is held (nothing when the key
/// produced no text).
pub open spec fn spec_encode_key(event: KeyEvent, mods: Modifiers) -> Option<Seq<u8>> {
    if !event.pressed {
        None
    } else if mods.control && !mods.alt && !mods.super_key && (event.logical matches LogicalKey::Character(s) && s@.len() > 0 && spec_control_byte(s@[0]) is Some) {
        let b = spec_control_byte(event.logical->Character_0@[0])->Some_0;
        Some(seq![b])
    } else {
        match event.logical {
            LogicalKey::Named(k) if spec_named_bytes(k) is Some => spec_named_bytes(k),
            _ => match event.text {
                Some(t) => Some(if mods.alt {
                    seq![0x1bu8] + t@
                } else {
                    t@
                }),
                None => None,
            },
        }
    }
}

/// The characters `s`, ASCII letters lowered, equal `lit`.
pub open spec fn lower_is(s: Seq<char>, lit: Seq<u32>) -> bool {
    s.len() == lit.len() && forall|i: int| 0 <= i < s.len() ==> spec_ascii_lower(s[i] as u32) == lit[i]
}

/// The single ASCII digit that `s` consists of, if it is one.
pub open spec fn single_digit(s: Seq<char>) -> Option<usize> {
    if s.len() == 1 && 48 <= (s[0] as u32) <= 57 {
        Some(((s[0] as u32) - 48) as usize)
    } else {
        None
    }
}

pub open spec fn is_clipboard_chord(mods: Modifiers, mac: bool) -> bool {
    if mac {
        mods.super_key && !mods.control && !mods.alt
    } else {
        mods.control && mods.shift && !mods.alt
    }
}

/// The application shortcut that a key event triggers. `mac` selects the
/// macOS bindings (Cmd for the clipboard; physical keys for pane commands).
pub open spec fn spec_shortcut(event: KeyEvent, mods: Modifiers, mac: bool) -> Shortcut {
    if is_clipboard_chord(mods, mac) && event.pressed && event.physical == PhysicalKey::KeyV {
        Shortcut::Paste
    } else if is_clipboard_chord(mods, mac) && event.pressed && event.physical
        == PhysicalKey::KeyC {
        Shortcut::Copy
    } else if mods.shift && !mods.control && !mods.alt && event.pressed && event.logical
        == LogicalKey::Named(NamedKey::PageUp) {
        Shortcut::ScrollPageUp
    } else if mods.shift && !mods.control && !mods.alt && event.pressed && event.logical
        == LogicalKey::Named(NamedKey::PageDown) {
        Shortcut::ScrollPageDown
    } else if mods.control && mods.shift && !mods.alt && !event.pressed {
        Shortcut::Consumed
    } else if mods.control && mods.shift && !mods.alt && (event.logical matches LogicalKey::Character(
        s,
    ) && lower_is(s@, seq![116u32])) {
        Shortcut::NewTab
    } else if mods.control && mods.shift && !mods.alt && (event.logical matches LogicalKey::Character(
        s,
    ) && single_digit(s@) is Some) {
        let d = single_digit(event.logical->Character_0@)->Some_0;
        if 1 <= d <= 9 {
            Shortcut::SwitchTab((d - 1) as usize)
        } else {
            Shortcut::Consumed
        }
    } else if mods.control && mods.shift && !mods.alt && event.logical == LogicalKey::Named(
        NamedKey::Tab,
    ) {
        Shortcut::CycleTab
    } else if !(mods.control && mods.alt) {
        Shortcut::NotShortcut
    } else if !event.pressed {
        Shortcut::Consumed
    } else if mac {
        match event.physical {
            PhysicalKey::KeyH => Shortcut::SplitPane(Split::Horizontal),
            PhysicalKey::KeyV => Shortcut::SplitPane(Split::Vertical),
            PhysicalKey::KeyW => Shortcut::ClosePane,
            PhysicalKey::KeyQ => Shortcut::Quit,
            PhysicalKey::ArrowLeft => Shortcut::FocusPane(Direction::Left),
            PhysicalKey::ArrowRight => Shortcut::FocusPane(Direction::Right),
            PhysicalKey::ArrowUp => Shortcut::FocusPane(Direction::Up),
            PhysicalKey::ArrowDown => Shortcut::FocusPane(Direction::Down),
            _ => Shortcut::NotShortcut,
        }
    } else {
        match event.logical {
            LogicalKey::Character(s) => if lower_is(s@, seq![104u32]) {
                Shortcut::SplitPane(Split::Horizontal)
            } else if lower_is(s@, seq![118u32]) {
                Shortcut::SplitPane(Split::Vertical)
            } else if lower_is(s@, seq![119u32]) {
                Shortcut::ClosePane
            } else if lower_is(s@, seq![113u32]) {
                Shortcut::Quit
            } else {
                Shortcut::NotShortcut
            },
            LogicalKey::Named(NamedKey::ArrowLeft) => Shortcut::FocusPane(Direction::Left),
            LogicalKey::Named(NamedKey::ArrowRight) => Shortcut::FocusPane(Direction::Right),
            LogicalKey::Named(NamedKey::ArrowUp) => Shortcut::FocusPane(Direction::Up),
            LogicalKey::Named(NamedKey::ArrowDown) => Shortcut::FocusPane(Direction::Down),
            _ => Shortcut::NotShortcut,
        }
    }
}

fn ascii_lower(c: char) -> (l: u32)
    ensures
        l == spec_ascii_lower(c as u32),
{
    let v = c as u32;
    if 65 <= v && v <= 90 {
        v + 32
    } else {
        v
    }
}

fn control_byte(c: char) -> (b: Option<u8>)
    ensures
        b == spec_control_byte(c),
{
    let l = ascii_lower(c);
    if 97 <= l && l <= 122 {
        Some((l - 96) as u8)
    } else if l == 32 || l == 64 {
        Some(0)
    } else if l == 91 {
        Some(0x1b)
    } else if l == 92 {
        Some(0x1c)
    } else if l == 93 {
        Some(0x1d)
    } else if l == 94 {
        Some(0x1e)
    } else if l == 95 || l == 63 {
        Some(0x1f)
    } else {
        None
    }
}

fn named_bytes(k: NamedKey) -> (out: Option<Vec<u8>>)
    ensures
        opt_bytes(out) == spec_named_bytes(k),
{
    let v: Vec<u8> = match k {
        NamedKey::Enter => vec![13u8],
        NamedKey::Backspace => vec![0x7fu8],
        NamedKey::Tab => vec![9u8],
        NamedKey::Escape => vec![0x1bu8],
        NamedKey::ArrowUp => vec![0x1bu8, 91, 65],
        NamedKey::ArrowDown => vec![0x1bu8, 91, 66],
        NamedKey::ArrowRight => vec![0x1bu8, 91, 67],
        NamedKey::ArrowLeft => vec![0x1bu8, 91, 68],
        NamedKey::Home => vec![0x1bu8, 91, 72],
        NamedKey::End => vec![0x1bu8, 91, 70],
        NamedKey::Delete => vec![0x1bu8, 91, 51, 126],
        NamedKey::PageUp => vec![0x1bu8, 91, 53, 126],
        NamedKey::PageDown => vec![0x1bu8, 91, 54, 126],
        NamedKey::Other => {
            return None;
        },
    };
    assert(v@ =~= spec_named_bytes(k)->Some_0);
    Some(v)
}

/// The bytes that a key event sends to the shell.
pub fn encode_key(event: &KeyEvent, mods: Modifiers) -> (out: Option<Vec<u8>>)
    ensures
        opt_bytes(out) == spec_encode_key(*event, mods),
{
    if !event.pressed {
        return None;
    }
    if mods.control && !mods.alt && !mods.super_key {
        if let LogicalKey::Character(s) = &event.logical {
            if s.len() > 0 {
                if let Some(b) = control_byte(s[0]) {
                    let v = vec![b];
                    assert(v@ =~= seq![b]);
                    return Some(v);
                }
            }
        }
    }
    if let LogicalKey::Named(k) = &event.logical {
        if let Some(v) = named_bytes(*k) {
            return Some(v);
        }
    }
    match &event.text {
        Some(t) => {
            let mut v: Vec<u8> = Vec::new();
            if mods.alt {
                v.push(0x1b);
            }
            let mut i: usize = 0;
            while i < t.len()
                invariant
                    i <= t.len(),
                    v@ == (if mods.alt {
                        seq![0x1bu8]
                    } else {
                        Seq::<u8>::empty()
                    }) + t@.subrange(0, i as int),
                decreases t.len() - i,
            {
                v.push(t[i]);
                i = i + 1;
                assert(t@.subrange(0, i as int) =~= t@.subrange(0, (i - 1) as int).push(
                    t@[i - 1],
                ));
            }
            assert(t@.subrange(0, t@.len() as int) =~= t@);
            assert(v@ =~= if mods.alt {
                seq![0x1bu8] + t@
            } else {
                t@
            });
            Some(v)
        },
        None => None,
    }
}

fn lower_is_exec(s: &Vec<char>, lit: u32) -> (r: bool)
    ensures
        r == lower_is(s@, seq![lit]),
{
    if s.len() != 1 {
        return false;
    }
    let r = ascii_lower(s[0]) == lit;
    assert(r == lower_is(s@, seq![lit])) by {
        assert(seq![lit][0] == lit);
        if !r {
            assert(spec_ascii_lower(s@[0] as u32) != seq![lit][0]);
        }
        if r {
            assert forall|i: int| 0 <= i < s@.len() implies spec_ascii_lower(s@[i] as u32)
                == seq![lit][i] by {
                assert(i == 0);
            }
        }
    }
    r
}

fn single_digit_exec(s: &Vec<char>) -> (r: Option<usize>)
    ensures
        r == single_digit(s@),
{
    if s.len() == 1 {
        let v = s[0] as u32;
        if 48 <= v && v <= 57 {
            return Some((v - 48) as usize);
        }
    }
    None
}

/// The application shortcut that a key event triggers, if any.
pub fn try_shortcut(event: &KeyEvent, mods: Modifiers, mac: bool) -> (sc: Shortcut)
    ensures
        sc == spec_shortcut(*event, mods, mac),
{
    let clipboard = if mac {
        mods.super_key && !mods.control && !mods.alt
    } else {
        mods.control && mods.shift && !mods.alt
    };
    if clipboard && event.pressed {
        match event.physical {
            PhysicalKey::KeyV => {
                return Shortcut::Paste;
            },
            PhysicalKey::KeyC => {
                return Shortcut::Copy;
            },
            _ => {},
        }
    }
    if mods.shift && !mods.control && !mods.alt && event.pressed {
        if let LogicalKey::Named(NamedKey::PageUp) = event.logical {
            return Shortcut::ScrollPageUp;
        }
        if let LogicalKey::Named(NamedKey::PageDown) = event.logical {
            return Shortcut::ScrollPageDown;
        }
    }
    if mods.control && mods.shift && !mods.alt {
        if !event.pressed {
            return Shortcut::Consumed;
        }
        match &event.logical {
            LogicalKey::Character(s) => {
                if lower_is_exec(s, 116) {
                    return Shortcut::NewTab;
                }
                if let Some(d) = single_digit_exec(s) {
                    if 1 <= d && d <= 9 {
                        return Shortcut::SwitchTab(d - 1);
                    }
                    return Shortcut::Consumed;
                }
            },
            LogicalKey::Named(NamedKey::Tab) => {
                return Shortcut::CycleTab;
            },
            _ => {},
        }
    }
    if !(mods.control && mods.alt) {
        return Shortcut::NotShortcut;
    }
    if !event.pressed {
        return Shortcut::Consumed;
    }
    if mac {
        match event.physical {
            PhysicalKey::KeyH => Shortcut::SplitPane(Split::Horizontal),
            PhysicalKey::KeyV => Shortcut::SplitPane(Split::Vertical),
            PhysicalKey::KeyW => Shortcut::ClosePane,
            PhysicalKey::KeyQ => Shortcut::Quit,
            PhysicalKey::ArrowLeft => Shortcut::FocusPane(Direction::Left),
            PhysicalKey::ArrowRight => Shortcut::FocusPane(Direction::Right),
            PhysicalKey::ArrowUp => Shortcut::FocusPane(Direction::Up),
            PhysicalKey::ArrowDown => Shortcut::FocusPane(Direction::Down),
            _ => Shortcut::NotShortcut,
        }
    } else {
        match &event.logical {
            LogicalKey::Character(s) => {
                if lower_is_exec(s, 104) {
                    Shortcut::SplitPane(Split::Horizontal)
                } else if lower_is_exec(s, 118) {
                    Shortcut::SplitPane(Split::Vertical)
                } else if lower_is_exec(s, 119) {
                    Shortcut::ClosePane
                } else if lower_is_exec(s, 113) {
                    Shortcut::Quit
                } else {
                    Shortcut::NotShortcut
                }
            },
            LogicalKey::Named(NamedKey::ArrowLeft) => Shortcut::FocusPane(Direction::Left),
            LogicalKey::Named(NamedKey::ArrowRight) => Shortcut::FocusPane(Direction::Right),
            LogicalKey::Named(NamedKey::ArrowUp) => Shortcut::FocusPane(Direction::Up),
            LogicalKey::Named(NamedKey::ArrowDown) => Shortcut::FocusPane(Direction::Down),
            _ => Shortcut::NotShortcut,
        }
    }
}

/// Where a key event goes.
#[derive(Debug)]
pub enum KeyRoute {
    /// The first-run wizard is open and takes the key press.
    Wizard,
    /// The wizard is open and the event is a release: nothing happens.
    Swallowed,
    /// An application shortcut (possibly one that does nothing).
    Shortcut(Shortcut),
    /// These bytes go to the focused shell, and the selection is cleared.
    Send(Vec<u8>),
    /// Neither a shortcut nor text for the shell: nothing happens.
    Nothing,
}

/// Route a key event: while the wizard is open it takes every key press
/// (and a release does nothing); otherwise shortcuts come first, and what is
/// left goes to the shell, which clears the selection.
pub fn route_key(onboarding: bool, event: &KeyEvent, mods: Modifiers, mac: bool) -> (r: KeyRoute)
    ensures
        onboarding && event.pressed ==> r is Wizard,
        onboarding && !event.pressed ==> r is Swallowed,
        !onboarding ==> match r {
            KeyRoute::Shortcut(sc) => sc == spec_shortcut(*event, mods, mac) && sc
                != Shortcut::NotShortcut,
            KeyRoute::Send(b) => spec_shortcut(*event, mods, mac) == Shortcut::NotShortcut
                && spec_encode_key(*event, mods) == Some(b@),
            KeyRoute::Nothing => spec_shortcut(*event, mods, mac) == Shortcut::NotShortcut
                && spec_encode_key(*event, mods) is None,
            _ => false,
        },
{
    if onboarding {
        return if event.pressed {
            KeyRoute::Wizard
        } else {
            KeyRoute::Swallowed
        };
    }
    let sc = try_shortcut(event, mods, mac);
    if sc != Shortcut::NotShortcut {
        return KeyRoute::Shortcut(sc);
    }
    match encode_key(event, mods) {
        Some(b) => KeyRoute::Send(b),
        None => KeyRoute::Nothing,
    }
}

/// The direction of an arrow key, by its logical key.
pub open spec fn logical_arrow(k: LogicalKey) -> Option<Direction> {
    match k {
        LogicalKey::Named(NamedKey::ArrowLeft) => Some(Direction::Left),
        LogicalKey::Named(NamedKey::ArrowRight) => Some(Direction::Right),
        LogicalKey::Named(NamedKey::ArrowUp) => Some(Direction::Up),
        LogicalKey::Named(NamedKey::ArrowDown) => Some(Direction::Down),
        _ => None,
    }
}

/// The direction of an arrow key, by its physical key.
pub open spec fn physical_arrow(k: PhysicalKey) -> Option<Direction> {
    match k {
        PhysicalKey::ArrowLeft => Some(Direction::Left),
        PhysicalKey::ArrowRight => Some(Direction::Right),
        PhysicalKey::ArrowUp => Some(Direction::Up),
        PhysicalKey::ArrowDown => Some(Direction::Down),
        _ => None,
    }
}

/// With Ctrl+Alt held, pressing an arrow key moves the focus in the arrow's
/// own direction (the physical key counts on macOS, the logical key
/// elsewhere); and a focus move only ever comes from such an arrow, in its
/// direction.
pub proof fn law_ctrl_alt_arrow_moves_focus(event: KeyEvent, mods: Modifiers, mac: bool)
    ensures
        event.pressed && mods.control && mods.alt && !mac && logical_arrow(event.logical) is Some
            ==> spec_shortcut(event, mods, mac) == Shortcut::FocusPane(
            logical_arrow(event.logical)->Some_0,
        ),
        event.pressed && mods.control && mods.alt && mac && physical_arrow(event.physical) is Some
            ==> spec_shortcut(event, mods, mac) == Shortcut::FocusPane(
            physical_arrow(event.physical)->Some_0,
        ),
        spec_shortcut(event, mods, mac) matches Shortcut::FocusPane(d) ==> {
            &&& event.pressed && mods.control && mods.alt
            &&& if mac {
                physical_arrow(event.physical) == Some(d)
            } else {
                logical_arrow(event.logical) == Some(d)
            }
        },
{
}

/// The final byte of the VT100 cursor-movement sequence `ESC [ x` for a
/// direction: `A` up, `B` down, `C` right, `D` left.
pub open spec fn cursor_final(d: Direction) -> u8 {
    match d {
        Direction::Up => 65u8,
        Direction::Down => 66u8,
        Direction::Right => 67u8,
        Direction::Left => 68u8,
    }
}

/// A pressed arrow key sends the VT100 cursor sequence for its own
/// direction, with or without Alt or Shift held; Alt adds no ESC in front of
/// it.
pub proof fn law_arrow_keys_send_cursor_sequences(event: KeyEvent, mods: Modifiers)
    requires
        event.pressed,
        logical_arrow(event.logical) is Some,
    ensures
        spec_encode_key(event, mods) == Some(
            seq![0x1bu8, 91u8, cursor_final(logical_arrow(event.logical)->Some_0)],
        ),
        spec_encode_key(event, mods) == spec_encode_key(event, Modifiers { alt: !mods.alt, ..mods }),
{
}

/// A one-character text equals a one-letter word, ASCII case aside,
/// exactly when the lowered character is that letter.
proof fn lemma_lower_is_single(s: Seq<char>, c: char, x: u32)
    requires
        s == seq![c],
    ensures
        lower_is(s, seq![x]) <==> spec_ascii_lower(c as u32) == x,
{
    if lower_is(s, seq![x]) {
        assert(spec_ascii_lower(s[0] as u32) == seq![x][0]);
    }
    if spec_ascii_lower(c as u32) == x {
        assert forall|i: int| 0 <= i < s.len() implies spec_ascii_lower(s[i] as u32) == seq![x][i] by {
            assert(i == 0);
        }
    }
}

/// With Ctrl+Alt held, a key press of H splits the focused pane left|right,
/// V splits it top/bottom, W closes it and Q quits, whatever the letter's
/// case (the physical key counts on macOS, the typed letter elsewhere).
pub proof fn law_ctrl_alt_letters(event: KeyEvent, mods: Modifiers, mac: bool, c: char)
    requires
        event.pressed,
        mods.control,
        mods.alt,
        mac || event.logical == LogicalKey::Character(event.logical->Character_0),
        !mac ==> event.logical->Character_0@ == seq![c],
    ensures
        (if mac { event.physical == PhysicalKey::KeyH } else { c == 'h' || c == 'H' })
            ==> spec_shortcut(event, mods, mac) == Shortcut::SplitPane(Split::Horizontal),
        (if mac { event.physical == PhysicalKey::KeyV } else { c == 'v' || c == 'V' })
            ==> spec_shortcut(event, mods, mac) == Shortcut::SplitPane(Split::Vertical),
        (if mac { event.physical == PhysicalKey::KeyW } else { c == 'w' || c == 'W' })
            ==> spec_shortcut(event, mods, mac) == Shortcut::ClosePane,
        (if mac { event.physical == PhysicalKey::KeyQ } else { c == 'q' || c == 'Q' })
            ==> spec_shortcut(event, mods, mac) == Shortcut::Quit,
{
    if !mac {
        let s = event.logical->Character_0@;
        assert(s[0] == c);
        assert(s =~= seq![c]);
        lemma_lower_is_single(s, c, 104);
        lemma_lower_is_single(s, c, 118);
        lemma_lower_is_single(s, c, 119);
        lemma_lower_is_single(s, c, 113);
    }
}

/// Ctrl+Shift with a digit from 1 to 9 switches to the tab with that number,
/// counted from 1 (so the index is one less); Ctrl+Shift+T opens a tab.
pub proof fn law_ctrl_shift_tabs(event: KeyEvent, mods: Modifiers, mac: bool, c: char)
    requires
        event.pressed,
        mods.control,
        mods.shift,
        !mods.alt,
        !mac || !mods.super_key,
        event.physical == PhysicalKey::Other,
        event.logical == LogicalKey::Character(event.logical->Character_0),
        event.logical->Character_0@ == seq![c],
    ensures
        '1' <= c <= '9' ==> spec_shortcut(event, mods, mac) == Shortcut::SwitchTab(
            (c as u32 - '1' as u32) as usize,
        ),
        c == 't' || c == 'T' ==> spec_shortcut(event, mods, mac) == Shortcut::NewTab,
{
    let s = event.logical->Character_0@;
    assert(s[0] == c);
    assert(s =~= seq![c]);
    lemma_lower_is_single(s, c, 116);
    if '1' <= c <= '9' {
        assert(single_digit(s) == Some((c as u32 - 48) as usize));
    }
}

/// Ctrl plus a letter sends the letter's position in the alphabet (Ctrl-A
/// is 1, Ctrl-Z is 26), whatever the letter's case.
pub proof fn law_control_letters(event: KeyEvent, mods: Modifiers, c: char)
    requires
        event.pressed,
        mods.control && !mods.alt && !mods.super_key,
        event.logical matches LogicalKey::Character(s) && s@.len() > 0 && s@[0] == c,
        ('a' <= c <= 'z') || ('A' <= c <= 'Z'),
    ensures
        spec_encode_key(event, mods) == Some(seq![(spec_ascii_lower(c as u32) - 96) as u8]),
        1 <= spec_ascii_lower(c as u32) - 96 <= 26,
{
}

/// A key release never sends anything to the shell.
pub proof fn law_release_sends_nothing(event: KeyEvent, mods: Modifiers)
    requires
        !event.pressed,
    ensures
        spec_encode_key(event, mods) is None,
{
}

} // verus!
