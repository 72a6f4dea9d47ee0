//! The colors a pattern can be shown in, and the control sequences that
//! select them on a terminal.

use crossterm::style::{ResetColor, SetForegroundColor};
use crossterm::Command;
use vstd::prelude::*;

verus! {

/// A foreground color.
///
/// The seven named colors are the bright colors of the 16-color palette;
/// `AnsiValue` selects an entry of the 256-color palette and `Rgb` a
/// 24-bit color.
#[derive(Clone, Copy, Debug, PartialEq, Eq, Structural)]
pub enum Color {
    Red,
    Green,
    Yellow,
    Blue,
    Magenta,
    Cyan,
    White,
    AnsiValue(u8),
    Rgb { r: u8, g: u8, b: u8 },
}

/// The control sequence that selects `color` as the foreground color: what
/// crossterm's `SetForegroundColor` command writes as its ANSI form.
pub uninterp spec fn foreground_code(color: Color) -> Seq<char>;

/// The control sequence that puts the terminal back to its default colors:
/// `ESC [ 0 m`.
pub open spec fn reset_code() -> Seq<char> {
    seq!['\x1b', '[', '0', 'm']
}

/// Writes the ANSI form of crossterm's `SetForegroundColor` for the crossterm
/// color of the same name into a fresh string.
///
/// Trusted: the text depends on the color alone (`Command::write_ansi` of
/// `SetForegroundColor` formats the color and consults nothing else), so it is
/// named `foreground_code(color)`. Writing to a `String` does not fail.
#[verifier::external_body]
pub(crate) fn set_foreground(color: Color) -> (code: String)
    ensures
        code@ == foreground_code(color),
{
    let mut code = String::new();
    let color = match color {
        Color::Red => crossterm::style::Color::Red,
        Color::Green => crossterm::style::Color::Green,
        Color::Yellow => crossterm::style::Color::Yellow,
        Color::Blue => crossterm::style::Color::Blue,
        Color::Magenta => crossterm::style::Color::Magenta,
        Color::Cyan => crossterm::style::Color::Cyan,
        Color::White => crossterm::style::Color::White,
        Color::AnsiValue(value) => crossterm::style::Color::AnsiValue(value),
        Color::Rgb { r, g, b } => crossterm::style::Color::Rgb { r, g, b },
    };
    let _ = SetForegroundColor(color).write_ansi(&mut code);
    code
}

/// Writes the ANSI form of crossterm's `ResetColor` into a fresh string.
///
/// Trusted: `Command::write_ansi` of `ResetColor` writes the fixed text
/// `ESC [ 0 m`.
#[verifier::external_body]
pub(crate) fn reset_color() -> (code: String)
    ensures
        code@ == reset_code(),
{
    let mut code = String::new();
    let _ = ResetColor.write_ansi(&mut code);
    code
}

} // verus!
