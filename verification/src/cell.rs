//! The value stored in one grid position: a glyph and a foreground color.

use vstd::prelude::*;

verus! {

/// One entry of the fixed palette the display sink understands.
///
/// There are no bold or background attributes: a cell's appearance is a
/// glyph plus one of these nine foreground colors.
#[derive(Copy, Clone, Debug, PartialEq, Eq, Structural)]
pub enum Color {
    Black,
    White,
    Red,
    Green,
    Blue,
    DarkGrey,
    DarkGreen,
    DarkYellow,
    DarkBlue,
}

/// One grid position: a displayable character and its foreground color.
///
/// Cells are compared structurally; the buffer uses that comparison to
/// decide whether a draw actually changes anything.
#[derive(Copy, Clone, Debug, PartialEq, Eq, Structural)]
pub struct Cell {
    pub glyph: char,
    pub color: Color,
}

} // verus!
