//! The device types the calculator logic reads: keys, keyboard snapshots,
//! screen points, rectangles and colours.

use vstd::prelude::*;

verus! {

/// A key of the calculator's keyboard.
#[derive(Clone, Copy, Debug, PartialEq, Eq, Structural)]
pub enum Key {
    Left,
    Up,
    Down,
    Right,
    OkKey,
    Back,
    Home,
    OnOff,
    Shift,
    Alpha,
    Xnt,
    Var,
    Toolbox,
    Backspace,
    Exp,
    Ln,
    Log,
    Imaginary,
    Comma,
    Power,
    Sine,
    Cosine,
    Tangent,
    Pi,
    Sqrt,
    Square,
    Seven,
    Eight,
    Nine,
    LeftParenthesis,
    RightParenthesis,
    Four,
    Five,
    Six,
    Multiplication,
    Division,
    One,
    Two,
    Three,
    Plus,
    Minus,
    Zero,
    Dot,
    Ee,
    Ans,
    Exe,
}

/// Number of key slots in a keyboard snapshot.
pub const KEY_COUNT: usize = 53;

impl Key {
    /// The bit of the keyboard snapshot that reports this key.
    pub open spec fn spec_index(self) -> nat {
        match self {
            Key::Left => 0,
            Key::Up => 1,
            Key::Down => 2,
            Key::Right => 3,
            Key::OkKey => 4,
            Key::Back => 5,
            Key::Home => 6,
            Key::OnOff => 8,
            Key::Shift => 12,
            Key::Alpha => 13,
            Key::Xnt => 14,
            Key::Var => 15,
            Key::Toolbox => 16,
            Key::Backspace => 17,
            Key::Exp => 18,
            Key::Ln => 19,
            Key::Log => 20,
            Key::Imaginary => 21,
            Key::Comma => 22,
            Key::Power => 23,
            Key::Sine => 24,
            Key::Cosine => 25,
            Key::Tangent => 26,
            Key::Pi => 27,
            Key::Sqrt => 28,
            Key::Square => 29,
            Key::Seven => 30,
            Key::Eight => 31,
            Key::Nine => 32,
            Key::LeftParenthesis => 33,
            Key::RightParenthesis => 34,
            Key::Four => 36,
            Key::Five => 37,
            Key::Six => 38,
            Key::Multiplication => 39,
            Key::Division => 40,
            Key::One => 42,
            Key::Two => 43,
            Key::Three => 44,
            Key::Plus => 45,
            Key::Minus => 46,
            Key::Zero => 48,
            Key::Dot => 49,
            Key::Ee => 50,
            Key::Ans => 51,
            Key::Exe => 52,
        }
    }

    /// The bit of the keyboard snapshot that reports this key.
    pub fn index(self) -> (r: usize)
        ensures
            r == self.spec_index(),
            r < KEY_COUNT,
    {
        match self {
            Key::Left => 0,
            Key::Up => 1,
            Key::Down => 2,
            Key::Right => 3,
            Key::OkKey => 4,
            Key::Back => 5,
            Key::Home => 6,
            Key::OnOff => 8,
            Key::Shift => 12,
            Key::Alpha => 13,
            Key::Xnt => 14,
            Key::Var => 15,
            Key::Toolbox => 16,
            Key::Backspace => 17,
            Key::Exp => 18,
            Key::Ln => 19,
            Key::Log => 20,
            Key::Imaginary => 21,
            Key::Comma => 22,
            Key::Power => 23,
            Key::Sine => 24,
            Key::Cosine => 25,
            Key::Tangent => 26,
            Key::Pi => 27,
            Key::Sqrt => 28,
            Key::Square => 29,
            Key::Seven => 30,
            Key::Eight => 31,
            Key::Nine => 32,
            Key::LeftParenthesis => 33,
            Key::RightParenthesis => 34,
            Key::Four => 36,
            Key::Five => 37,
            Key::Six => 38,
            Key::Multiplication => 39,
            Key::Division => 40,
            Key::One => 42,
            Key::Two => 43,
            Key::Three => 44,
            Key::Plus => 45,
            Key::Minus => 46,
            Key::Zero => 48,
            Key::Dot => 49,
            Key::Ee => 50,
            Key::Ans => 51,
            Key::Exe => 52,
        }
    }
}

/// A snapshot of the keyboard: bit `k` is set when the key of index `k` is held.
#[derive(Clone, Copy, Debug, PartialEq, Eq, Structural)]
pub struct KeyboardState(pub u64);

impl KeyboardState {
    /// Whether `key` is held in this snapshot.
    pub open spec fn is_down(self, key: Key) -> bool {
        (self.0 >> (key.spec_index() as u64)) & 1 != 0
    }

    /// A snapshot from the raw bits that the keyboard scan reports.
    pub fn from_raw(state: u64) -> (r: KeyboardState)
        ensures
            r.0 == state,
    {
        KeyboardState(state)
    }

    /// Whether `key` is held in this snapshot.
    pub fn key_down(&self, key: Key) -> (r: bool)
        ensures
            r == self.is_down(key),
    {
        let shift: u64 = key.index() as u64;
        (self.0 >> shift) & 1 != 0
    }
}


/// A point of the screen.
#[derive(Clone, Copy, Debug, PartialEq, Eq, Structural)]
pub struct Point {
    pub x: u16,
    pub y: u16,
}

/// A rectangle of the screen.
#[derive(Clone, Copy, Debug, PartialEq, Eq, Structural)]
pub struct Rect {
    pub x: u16,
    pub y: u16,
    pub width: u16,
    pub height: u16,
}

/// A colour, in 16-bit RGB 5-6-5.
#[derive(Clone, Copy, Debug, PartialEq, Eq, Structural)]
pub struct Color {
    pub rgb565: u16,
}

/// The 5-6-5 value of the 8-bit channels `r`, `g`, `b`: the top 5, 6 and
/// 5 bits of each, in that order.
pub open spec fn rgb565(r: u8, g: u8, b: u8) -> int {
    (r / 8) * 2048 + (g / 4) * 32 + b / 8
}

impl Color {
    /// The colour of the 8-bit channels `r`, `g`, `b`.
    pub fn from_888(r: u8, g: u8, b: u8) -> (c: Color)
        ensures
            c.rgb565 == rgb565(r, g, b),
    {
        let red: u16 = (r / 8) as u16;
        let green: u16 = (g / 4) as u16;
        let blue: u16 = (b / 8) as u16;
        Color { rgb565: red * 2048 + green * 32 + blue }
    }
}

/// Black.
pub fn color_black() -> (c: Color)
    ensures
        c.rgb565 == 0,
{
    Color { rgb565: 0 }
}

/// The whole screen, 320 by 240.
pub fn screen_rect() -> (r: Rect)
    ensures
        r == (Rect { x: 0, y: 0, width: 320, height: 240 }),
{
    Rect { x: 0, y: 0, width: 320, height: 240 }
}

/// Width of the screen.
pub const SCREEN_WIDTH: u16 = 320;

} // verus!
