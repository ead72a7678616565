//! The closed set of key and mouse event payloads.

use vstd::prelude::*;

verus! {

/// A key press decoded from terminal input.
///
/// Equality and hashing are structural, so consumers can deduplicate or
/// match on keys by value.
#[derive(Debug, Clone, Copy, PartialEq, Eq, Hash)]
pub enum Key {
    /// The Backspace key (the byte `0x7F`).
    Backspace,
    /// The left arrow key.
    Left,
    /// The right arrow key.
    Right,
    /// The up arrow key.
    Up,
    /// The down arrow key.
    Down,
    /// The Home key.
    Home,
    /// The End key.
    End,
    /// The Page Up key.
    PageUp,
    /// The Page Down key.
    PageDown,
    /// The Delete key.
    Delete,
    /// The Insert key.
    Insert,
    /// A function key: `F(1)` through `F(12)`.
    F(u8),
    /// A plain character key.
    Char(char),
    /// Alt together with a character.
    Alt(char),
    /// Ctrl together with a character.
    Ctrl(char),
    /// The null byte, `0x00`.
    Null,
    /// The Escape key on its own.
    Esc,
}

/// A mouse button named in a press report.
#[derive(Debug, Clone, Copy, PartialEq, Eq, Hash)]
pub enum MouseButton {
    /// The left mouse button.
    Left,
    /// The right mouse button.
    Right,
    /// The middle mouse button.
    Middle,
    /// The scroll wheel rolling up.
    WheelUp,
    /// The scroll wheel rolling down.
    WheelDown,
}

/// A mouse event at a 1-based terminal cell position, given as
/// (column, row) in terminal coordinate convention.
#[derive(Debug, Clone, Copy, PartialEq, Eq, Hash)]
pub enum MouseEvent {
    /// A button was pressed at the given column and row.
    Press(MouseButton, u16, u16),
    /// A button was released at the given column and row.
    Release(u16, u16),
    /// The mouse moved to the given column and row while a button was held.
    Hold(u16, u16),
}

} // verus!
