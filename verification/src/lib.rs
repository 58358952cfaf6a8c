//! Capture-and-decode core for a keystroke logging pipeline.
//!
//! The capture side discovers input devices from a textual device listing,
//! timestamps raw event lines, and appends them to a log whose records keep
//! per-producer order. The decode side reads a persisted log back and turns
//! "press" records into text through a fixed keycode table.

pub mod capture;
pub mod decode;
pub mod discovery;
pub mod keytable;
pub mod num;
pub mod text;
