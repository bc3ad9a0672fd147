//! Core logic of dracoshell, a tiling terminal: the pane tiling tree,
//! terminal colour mapping, key encoding and shortcut decisions, the
//! first-run wizard, tab bookkeeping, text selection and the glyph atlas.
//! Everything that touches the GPU, the window system or the PTY lives in
//! the application around this library.

pub mod atlas;
pub mod colors;
pub mod config;
pub mod icon;
pub mod input;
pub mod layout;
pub mod onboard;
pub mod prompt;
pub mod selection;
pub mod session;
