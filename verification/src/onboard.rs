//! The first-run wizard: pick a font size with the arrow keys, then type an
//! accent color in hex.

use vstd::prelude::*;
use crate::input::{KeyEvent, LogicalKey, Modifiers, NamedKey};

verus! {

#[derive(Debug, Clone, Copy, PartialEq, Eq, Structural)]
pub enum OnboardStep {
    FontSize,
    AccentColor,
}

/// What the application does after the wizard saw a key.
#[derive(Debug, Clone, Copy, PartialEq, Eq, Structural)]
pub enum OnboardAction {
    Nothing,
    Redraw,
    /// Re-rasterize the font at this size (in points), then redraw.
    SetFontSize(u32),
    /// Leave without saving.
    Exit,
    /// Save the choices and start the shell.
    Finish,
}

pub const MIN_FONT_SIZE: u32 = 6;

pub const MAX_FONT_SIZE: u32 = 48;

pub const DEFAULT_FONT_SIZE: u32 = 14;

/// The accent swatch shown while nothing has been typed.
pub open spec fn default_accent_rgb() -> (u8, u8, u8) {
    (0xff, 0x2a, 0x2a)
}

pub open spec fn is_hex_digit(b: u8) -> bool {
    (48 <= b <= 57) || (65 <= b <= 70) || (97 <= b <= 102)
}

pub open spec fn hex_val(b: u8) -> u8 {
    if 48 <= b <= 57 {
        (b - 48) as u8
    } else if 65 <= b <= 70 {
        (b - 55) as u8
    } else {
        (b - 87) as u8
    }
}

/// The value of a two-character field in base 16, the way `u8::from_str_radix`
/// reads it: two hex digits, or a `+` and one hex digit.
pub open spec fn pair_val(a: u8, b: u8) -> Option<u8> {
    if a == 43 && is_hex_digit(b) {
        Some(hex_val(b))
    } else if is_hex_digit(a) && is_hex_digit(b) {
        Some((hex_val(a) * 16 + hex_val(b)) as u8)
    } else {
        None
    }
}

/// `s` without its leading `#` characters.
pub open spec fn strip_hashes(s: Seq<u8>) -> Seq<u8>
    decreases s.len(),
{
    if s.len() > 0 && s[0] == 35 {
        strip_hashes(s.drop_first())
    } else {
        s
    }
}

/// A UTF-8 continuation byte (not the first byte of a character).
pub open spec fn is_continuation(b: u8) -> bool {
    128 <= b < 192
}

/// The hex color that `buf` (UTF-8 text) spells: leading `#`s, then exactly
/// six bytes read as three base-16 fields.
pub open spec fn spec_parse_rgb(buf: Seq<u8>) -> Option<(u8, u8, u8)> {
    let h = strip_hashes(buf);
    if h.len() != 6 {
        None
    } else {
        match (pair_val(h[0], h[1]), pair_val(h[2], h[3]), pair_val(h[4], h[5])) {
            (Some(r), Some(g), Some(b)) => Some((r, g, b)),
            _ => None,
        }
    }
}

/// Every field boundary that reading `buf` comes to lies between
/// characters: the reading cuts the six bytes at byte 2, and at byte 4 only
/// when the first field was read; it stops at the first field that fails.
pub open spec fn parse_rgb_cuttable(buf: Seq<u8>) -> bool {
    let h = strip_hashes(buf);
    h.len() == 6 ==> {
        &&& !is_continuation(h[2])
        &&& pair_val(h[0], h[1]) is Some ==> !is_continuation(h[4])
    }
}

pub open spec fn ascii_upper(b: u8) -> u8 {
    if 97 <= b <= 122 {
        (b - 32) as u8
    } else {
        b
    }
}

/// The accent color that the wizard saves for the typed text `buf`.
pub open spec fn spec_effective_accent(buf: Seq<u8>) -> Seq<u8> {
    if buf.len() == 0 {
        seq![35u8, 70, 70, 50, 65, 50, 65]
    } else {
        seq![35u8] + strip_hashes(buf).map_values(|b: u8| ascii_upper(b))
    }
}

/// The characters the accent field takes.
pub open spec fn accent_char_ok(b: u8) -> bool {
    is_hex_digit(b) || b == 35
}

pub struct OnboardState {
    step: OnboardStep,
    font_size: u32,
    accent_buf: Vec<u8>,
    accent_rgb: Option<(u8, u8, u8)>,
}

impl OnboardState {
    #[verifier::type_invariant]
    spec fn inv(self) -> bool {
        &&& MIN_FONT_SIZE <= self.font_size <= MAX_FONT_SIZE
        &&& forall|i: int| 0 <= i < self.accent_buf@.len() ==> accent_char_ok(#[trigger] self.accent_buf@[i])
    }

    pub closed spec fn step_spec(&self) -> OnboardStep {
        self.step
    }

    pub closed spec fn font_size_spec(&self) -> u32 {
        self.font_size
    }

    pub closed spec fn accent_buf_spec(&self) -> Seq<u8> {
        self.accent_buf@
    }

    pub closed spec fn accent_rgb_spec(&self) -> Option<(u8, u8, u8)> {
        self.accent_rgb
    }

    pub fn new() -> (s: Self)
        ensures
            s.step_spec() == OnboardStep::FontSize,
            s.font_size_spec() == DEFAULT_FONT_SIZE,
            s.accent_buf_spec() == Seq::<u8>::empty(),
            s.accent_rgb_spec() == Some(default_accent_rgb()),
    {
        OnboardState {
            step: OnboardStep::FontSize,
            font_size: DEFAULT_FONT_SIZE,
            accent_buf: Vec::new(),
            accent_rgb: Some((0xff, 0x2a, 0x2a)),
        }
    }

    pub fn step(&self) -> (s: OnboardStep)
        ensures
            s == self.step_spec(),
    {
        self.step
    }

    pub fn font_size(&self) -> (f: u32)
        ensures
            f == self.font_size_spec(),
            MIN_FONT_SIZE <= f <= MAX_FONT_SIZE,
    {
        proof {
            use_type_invariant(self);
        }
        self.font_size
    }

    pub fn accent_buf(&self) -> (b: &Vec<u8>)
        ensures
            b@ == self.accent_buf_spec(),
    {
        &self.accent_buf
    }

    pub fn accent_rgb(&self) -> (c: Option<(u8, u8, u8)>)
        ensures
            c == self.accent_rgb_spec(),
    {
        self.accent_rgb
    }

    /// The accent color to save: `#FF2A2A` when nothing was typed, else the
    /// typed text without its leading `#`s, upper-cased, after one `#`.
    pub fn effective_accent(&self) -> (out: Vec<u8>)
        ensures
            out@ == spec_effective_accent(self.accent_buf_spec()),
    {
        if self.accent_buf.len() == 0 {
            let v = vec![35u8, 70, 70, 50, 65, 50, 65];
            assert(v@ =~= spec_effective_accent(self.accent_buf@));
            return v;
        }
        let start = skip_hashes(&self.accent_buf);
        let mut out: Vec<u8> = vec![35u8];
        let mut i = start;
        let ghost h = strip_hashes(self.accent_buf@);
        while i < self.accent_buf.len()
            invariant
                start <= i <= self.accent_buf@.len(),
                h == self.accent_buf@.subrange(start as int, self.accent_buf@.len() as int),
                out@ == seq![35u8] + h.subrange(0, i - start).map_values(|b: u8| ascii_upper(b)),
            decreases self.accent_buf.len() - i,
        {
            let b = self.accent_buf[i];
            let u = if 97 <= b && b <= 122 {
                b - 32
            } else {
                b
            };
            out.push(u);
            i = i + 1;
            assert(h.subrange(0, i - start) =~= h.subrange(0, i - 1 - start).push(h[i - 1 - start]));
            assert(h.subrange(0, i - start).map_values(|b: u8| ascii_upper(b)) =~= h.subrange(
                0,
                i - 1 - start,
            ).map_values(|b: u8| ascii_upper(b)).push(ascii_upper(h[i - 1 - start])));
        }
        assert(h.subrange(0, h.len() as int) =~= h);
        out
    }

    /// Handle a key press: arrows change the font size (6 to 48 points),
    /// Enter moves on to the accent color and then finishes, Backspace and
    /// hex digits (or `#`) edit the accent text, Escape or Ctrl-C leave.
    pub fn handle_key(&mut self, event: &KeyEvent, mods: Modifiers) -> (action: OnboardAction)
        ensures
            action == spec_onboard_action(old(self).step_spec(), old(self).font_size_spec(), event.logical, mods),
            final(self).step_spec() == (if old(self).step_spec() == OnboardStep::FontSize && event.logical == LogicalKey::Named(NamedKey::Enter) {
                OnboardStep::AccentColor
            } else {
                old(self).step_spec()
            }),
            final(self).font_size_spec() == (match action {
                OnboardAction::SetFontSize(f) => f,
                _ => old(self).font_size_spec(),
            }),
            final(self).accent_buf_spec() == spec_next_accent_buf(old(self).step_spec(), old(self).accent_buf_spec(), event.logical, mods),
            final(self).accent_rgb_spec() == (if !spec_edits_accent(old(self).step_spec(), event.logical, mods) {
                old(self).accent_rgb_spec()
            } else if final(self).accent_buf_spec().len() == 0 {
                Some(default_accent_rgb())
            } else {
                spec_parse_rgb(final(self).accent_buf_spec())
            }),
    {
        proof {
            use_type_invariant(&*self);
        }
        match self.step {
            OnboardStep::FontSize => match &event.logical {
                LogicalKey::Named(NamedKey::ArrowUp) => {
                    let f = if self.font_size + 1 < MAX_FONT_SIZE {
                        self.font_size + 1
                    } else {
                        MAX_FONT_SIZE
                    };
                    self.font_size = f;
                    OnboardAction::SetFontSize(f)
                },
                LogicalKey::Named(NamedKey::ArrowDown) => {
                    let f = if self.font_size - 1 > MIN_FONT_SIZE {
                        self.font_size - 1
                    } else {
                        MIN_FONT_SIZE
                    };
                    self.font_size = f;
                    OnboardAction::SetFontSize(f)
                },
                LogicalKey::Named(NamedKey::Enter) => {
                    self.step = OnboardStep::AccentColor;
                    OnboardAction::Redraw
                },
                LogicalKey::Named(NamedKey::Escape) => OnboardAction::Exit,
                LogicalKey::Character(s) => {
                    if is_plain_c(s) && mods.control {
                        OnboardAction::Exit
                    } else {
                        OnboardAction::Nothing
                    }
                },
                _ => OnboardAction::Nothing,
            },
            OnboardStep::AccentColor => match &event.logical {
                LogicalKey::Named(NamedKey::Enter) => OnboardAction::Finish,
                LogicalKey::Named(NamedKey::Backspace) => {
                    if self.accent_buf.len() > 0 {
                        let mut buf = Vec::new();
                        std::mem::swap(&mut buf, &mut self.accent_buf);
                        let ghost before = buf@;
                        buf.pop();
                        assert(buf@ =~= before.drop_last());
                        assert(forall|i: int| 0 <= i < buf@.len() ==> accent_char_ok(#[trigger] buf@[i])) by {
                            assert forall|i: int| 0 <= i < buf@.len() implies accent_char_ok(#[trigger] buf@[i]) by {
                                assert(buf@[i] == before[i]);
                            }
                        }
                        proof {
                            lemma_accent_text_cuttable(buf@);
                        }
                        let rgb = if buf.len() == 0 {
                            Some((0xffu8, 0x2au8, 0x2au8))
                        } else {
                            parse_rgb(&buf)
                        };
                        self.accent_buf = buf;
                        self.accent_rgb = rgb;
                    } else {
                        self.accent_rgb = Some((0xff, 0x2a, 0x2a));
                    }
                    OnboardAction::Redraw
                },
                LogicalKey::Named(NamedKey::Escape) => OnboardAction::Exit,
                LogicalKey::Character(s) => {
                    if is_plain_c(s) && mods.control {
                        OnboardAction::Exit
                    } else if s.len() > 0 && is_accent_char(s[0]) {
                        let b = (s[0] as u32) as u8;
                        let mut buf = Vec::new();
                        std::mem::swap(&mut buf, &mut self.accent_buf);
                        let ghost before = buf@;
                        buf.push(b);
                        assert(forall|i: int| 0 <= i < buf@.len() ==> accent_char_ok(#[trigger] buf@[i])) by {
                            assert forall|i: int| 0 <= i < buf@.len() implies accent_char_ok(#[trigger] buf@[i]) by {
                                if i < before.len() {
                                    assert(buf@[i] == before[i]);
                                }
                            }
                        }
                        proof {
                            lemma_accent_text_cuttable(buf@);
                        }
                        let rgb = parse_rgb(&buf);
                        self.accent_buf = buf;
                        self.accent_rgb = rgb;
                        OnboardAction::Redraw
                    } else {
                        OnboardAction::Nothing
                    }
                },
                _ => OnboardAction::Nothing,
            },
        }
    }
}

/// The keys `c` alone (for Ctrl-C).
pub open spec fn is_plain_c_spec(s: Seq<char>) -> bool {
    s.len() == 1 && s[0] == 'c'
}

pub open spec fn accent_char_spec(c: char) -> bool {
    (c as u32) < 128 && accent_char_ok((c as u32) as u8)
}

/// The action for a key press in a given step with a given font size.
pub open spec fn spec_onboard_action(
    step: OnboardStep,
    font_size: u32,
    key: LogicalKey,
    mods: Modifiers,
) -> OnboardAction {
    match step {
        OnboardStep::FontSize => match key {
            LogicalKey::Named(NamedKey::ArrowUp) => OnboardAction::SetFontSize(
                if font_size + 1 < MAX_FONT_SIZE {
                    (font_size + 1) as u32
                } else {
                    MAX_FONT_SIZE
                },
            ),
            LogicalKey::Named(NamedKey::ArrowDown) => OnboardAction::SetFontSize(
                if font_size - 1 > MIN_FONT_SIZE {
                    (font_size - 1) as u32
                } else {
                    MIN_FONT_SIZE
                },
            ),
            LogicalKey::Named(NamedKey::Enter) => OnboardAction::Redraw,
            LogicalKey::Named(NamedKey::Escape) => OnboardAction::Exit,
            LogicalKey::Character(s) => if is_plain_c_spec(s@) && mods.control {
                OnboardAction::Exit
            } else {
                OnboardAction::Nothing
            },
            _ => OnboardAction::Nothing,
        },
        OnboardStep::AccentColor => match key {
            LogicalKey::Named(NamedKey::Enter) => OnboardAction::Finish,
            LogicalKey::Named(NamedKey::Backspace) => OnboardAction::Redraw,
            LogicalKey::Named(NamedKey::Escape) => OnboardAction::Exit,
            LogicalKey::Character(s) => if is_plain_c_spec(s@) && mods.control {
                OnboardAction::Exit
            } else if s@.len() > 0 && accent_char_spec(s@[0]) {
                OnboardAction::Redraw
            } else {
                OnboardAction::Nothing
            },
            _ => OnboardAction::Nothing,
        },
    }
}

/// The key edits the accent text (Backspace, or a hex digit or `#` that is
/// not Ctrl-C) while the wizard asks for the accent color.
pub open spec fn spec_edits_accent(step: OnboardStep, key: LogicalKey, mods: Modifiers) -> bool {
    step == OnboardStep::AccentColor && match key {
        LogicalKey::Named(NamedKey::Backspace) => true,
        LogicalKey::Character(s) => !(is_plain_c_spec(s@) && mods.control) && s@.len() > 0
            && accent_char_spec(s@[0]),
        _ => false,
    }
}

proof fn lemma_strip_hashes_suffix(s: Seq<u8>)
    ensures
        strip_hashes(s).len() <= s.len(),
        strip_hashes(s) == s.subrange(s.len() - strip_hashes(s).len(), s.len() as int),
    decreases s.len(),
{
    if s.len() > 0 && s[0] == 35 {
        lemma_strip_hashes_suffix(s.drop_first());
        let k = strip_hashes(s).len();
        assert(s.drop_first().subrange(s.drop_first().len() - k, s.drop_first().len() as int)
            =~= s.subrange(s.len() - k, s.len() as int));
    } else {
        assert(s.subrange(0, s.len() as int) =~= s);
    }
}

/// Text made of hex digits and `#` can always be cut into color fields.
proof fn lemma_accent_text_cuttable(buf: Seq<u8>)
    requires
        forall|i: int| 0 <= i < buf.len() ==> accent_char_ok(#[trigger] buf[i]),
    ensures
        parse_rgb_cuttable(buf),
{
    lemma_strip_hashes_suffix(buf);
    let h = strip_hashes(buf);
    let k = buf.len() - h.len();
    if h.len() == 6 {
        assert(h[2] == buf[k + 2]);
        assert(h[4] == buf[k + 4]);
        assert(accent_char_ok(buf[k + 2]));
        assert(accent_char_ok(buf[k + 4]));
    }
}

/// The accent text after a key press.
pub open spec fn spec_next_accent_buf(
    step: OnboardStep,
    buf: Seq<u8>,
    key: LogicalKey,
    mods: Modifiers,
) -> Seq<u8> {
    match step {
        OnboardStep::FontSize => buf,
        OnboardStep::AccentColor => match key {
            LogicalKey::Named(NamedKey::Backspace) => if buf.len() > 0 {
                buf.drop_last()
            } else {
                buf
            },
            LogicalKey::Character(s) => if is_plain_c_spec(s@) && mods.control {
                buf
            } else if s@.len() > 0 && accent_char_spec(s@[0]) {
                buf.push(((s@[0] as u32) as u8))
            } else {
                buf
            },
            _ => buf,
        },
    }
}

fn is_plain_c(s: &Vec<char>) -> (r: bool)
    ensures
        r == is_plain_c_spec(s@),
{
    s.len() == 1 && s[0] == 'c'
}

fn is_accent_char(c: char) -> (r: bool)
    ensures
        r == accent_char_spec(c),
{
    let v = c as u32;
    if v >= 128 {
        return false;
    }
    let b = v as u8;
    (48 <= b && b <= 57) || (65 <= b && b <= 70) || (97 <= b && b <= 102) || b == 35
}

/// The index of the first byte of `buf` that is not `#`.
fn skip_hashes(buf: &Vec<u8>) -> (start: usize)
    ensures
        start <= buf@.len(),
        strip_hashes(buf@) == buf@.subrange(start as int, buf@.len() as int),
{
    let mut i: usize = 0;
    assert(buf@.subrange(0, buf@.len() as int) =~= buf@);
    while i < buf.len() && buf[i] == 35
        invariant
            i <= buf@.len(),
            strip_hashes(buf@) == strip_hashes(buf@.subrange(i as int, buf@.len() as int)),
        decreases buf.len() - i,
    {
        let ghost rest = buf@.subrange(i as int, buf@.len() as int);
        assert(rest.drop_first() =~= buf@.subrange(i + 1, buf@.len() as int));
        i = i + 1;
    }
    proof {
        let rest = buf@.subrange(i as int, buf@.len() as int);
        if i < buf.len() {
            assert(rest[0] == buf@[i as int]);
        }
    }
    assert(buf@.subrange(0, buf@.len() as int) =~= buf@);
    i
}

fn hex_digit(b: u8) -> (r: Option<u8>)
    ensures
        r == (if is_hex_digit(b) {
            Some(hex_val(b))
        } else {
            None::<u8>
        }),
{
    if 48 <= b && b <= 57 {
        Some(b - 48)
    } else if 65 <= b && b <= 70 {
        Some(b - 55)
    } else if 97 <= b && b <= 102 {
        Some(b - 87)
    } else {
        None
    }
}

fn parse_pair(a: u8, b: u8) -> (r: Option<u8>)
    ensures
        r == pair_val(a, b),
{
    if a == 43 {
        return hex_digit(b);
    }
    match (hex_digit(a), hex_digit(b)) {
        (Some(x), Some(y)) => Some(x * 16 + y),
        _ => None,
    }
}

/// The hex color that `buf` spells (`#RRGGBB`; any number of leading `#`s).
pub fn parse_rgb(buf: &Vec<u8>) -> (rgb: Option<(u8, u8, u8)>)
    requires
        parse_rgb_cuttable(buf@),
    ensures
        rgb == spec_parse_rgb(buf@),
{
    let start = skip_hashes(buf);
    if buf.len() - start != 6 {
        return None;
    }
    let ghost h = strip_hashes(buf@);
    assert(h[0] == buf@[start as int] && h[1] == buf@[start + 1] && h[2] == buf@[start + 2]);
    assert(h[3] == buf@[start + 3] && h[4] == buf@[start + 4] && h[5] == buf@[start + 5]);
    let r = parse_pair(buf[start], buf[start + 1]);
    let g = parse_pair(buf[start + 2], buf[start + 3]);
    let b = parse_pair(buf[start + 4], buf[start + 5]);
    match (r, g, b) {
        (Some(r), Some(g), Some(b)) => Some((r, g, b)),
        _ => None,
    }
}

/// In the wizard the arrow keys step the font size by one point within 6 to
/// 48: Up never lowers it, Down never raises it, and Up then Down (or Down
/// then Up) comes back to where it was unless a bound stopped the first
/// step. Escape leaves the wizard at any step, and Enter on the accent step
/// finishes it.
pub proof fn law_font_size_steps(f: u32, mods: Modifiers, step: OnboardStep)
    requires
        MIN_FONT_SIZE <= f <= MAX_FONT_SIZE,
    ensures
        ({
            let up = LogicalKey::Named(NamedKey::ArrowUp);
            let down = LogicalKey::Named(NamedKey::ArrowDown);
            &&& spec_onboard_action(OnboardStep::FontSize, f, up, mods) matches OnboardAction::SetFontSize(u)
                && f <= u <= f + 1 && u <= MAX_FONT_SIZE && (f < MAX_FONT_SIZE ==> u == f + 1)
                && (f < MAX_FONT_SIZE ==> spec_onboard_action(OnboardStep::FontSize, u, down, mods)
                == OnboardAction::SetFontSize(f))
            &&& spec_onboard_action(OnboardStep::FontSize, f, down, mods) matches OnboardAction::SetFontSize(d)
                && f - 1 <= d <= f && MIN_FONT_SIZE <= d && (f > MIN_FONT_SIZE ==> d == f - 1)
                && (f > MIN_FONT_SIZE ==> spec_onboard_action(OnboardStep::FontSize, d, up, mods)
                == OnboardAction::SetFontSize(f))
        }),
        spec_onboard_action(step, f, LogicalKey::Named(NamedKey::Escape), mods) == OnboardAction::Exit,
        spec_onboard_action(OnboardStep::AccentColor, f, LogicalKey::Named(NamedKey::Enter), mods)
            == OnboardAction::Finish,
{
}

/// A six-digit hex color with a leading `#` is read back as its three bytes.
pub proof fn law_parse_rgb_reads_hex(buf: Seq<u8>)
    requires
        buf.len() == 7,
        buf[0] == 35,
        forall|i: int| 1 <= i < 7 ==> is_hex_digit(#[trigger] buf[i]),
    ensures
        spec_parse_rgb(buf) == Some(
            (
                (hex_val(buf[1]) * 16 + hex_val(buf[2])) as u8,
                (hex_val(buf[3]) * 16 + hex_val(buf[4])) as u8,
                (hex_val(buf[5]) * 16 + hex_val(buf[6])) as u8,
            ),
        ),
{
    assert(is_hex_digit(buf[1]));
    assert(buf[1] != 35);
    assert(buf.drop_first()[0] == buf[1]);
    assert(strip_hashes(buf.drop_first()) == buf.drop_first());
    assert(is_hex_digit(buf[2]) && is_hex_digit(buf[3]) && is_hex_digit(buf[4]));
    assert(is_hex_digit(buf[5]) && is_hex_digit(buf[6]));
}

} // verus!
