//! The byte scanner: how a single byte, or a single `char`, is classified.
//!
//! Only the five ASCII whitespace characters count as whitespace. Everything
//! else, every multi-byte character included, is content that is copied as it
//! stands.

use vstd::prelude::*;

verus! {

/// The line-feed byte.
pub const LINE_FEED: u8 = 0x0A;

/// The carriage-return byte.
pub const CARRIAGE_RETURN: u8 = 0x0D;

/// What the scanner makes of the first byte of a character.
#[derive(Clone, Copy, Debug, PartialEq, Eq)]
pub enum Character {
    /// A space, a horizontal tab or a form feed.
    NormalWhitespace,
    /// A carriage return.
    CarriageReturn,
    /// A line feed.
    LineFeed,
    /// A one-byte character that is not whitespace.
    SingleByte,
    /// A character of `len` bytes, `len` being 2, 3 or 4.
    MultiByte { len: usize },
}

/// Something that a text is made of and that the scanner can classify:
/// a byte of UTF-8, or a whole `char`.
pub trait Symbol: Sized {
    /// The class of the symbol.
    spec fn class(self) -> Character;
}

/// The number of bytes of a character, read off its first byte.
///
/// The bytes `0x80..=0xBF` never start a character in valid UTF-8; they are
/// counted with the two-byte range so that the function is total.
pub open spec fn char_len(first_byte: u8) -> usize {
    if first_byte < 0x80 {
        1
    } else if first_byte < 0xE0 {
        2
    } else if first_byte < 0xF0 {
        3
    } else {
        4
    }
}

impl Symbol for u8 {
    open spec fn class(self) -> Character {
        if self == LINE_FEED {
            Character::LineFeed
        } else if self == CARRIAGE_RETURN {
            Character::CarriageReturn
        } else if self == 0x20 || self == 0x09 || self == 0x0C {
            Character::NormalWhitespace
        } else if self < 0x80 {
            Character::SingleByte
        } else {
            Character::MultiByte { len: char_len(self) }
        }
    }
}

impl Symbol for char {
    open spec fn class(self) -> Character {
        if self == '\n' {
            Character::LineFeed
        } else if self == '\r' {
            Character::CarriageReturn
        } else if self == ' ' || self == '\t' || self == '\x0C' {
            Character::NormalWhitespace
        } else if (self as u32) < 0x80 {
            Character::SingleByte
        } else if (self as u32) < 0x800 {
            Character::MultiByte { len: 2 }
        } else if (self as u32) < 0x10000 {
            Character::MultiByte { len: 3 }
        } else {
            Character::MultiByte { len: 4 }
        }
    }
}

/// True for a line feed.
pub open spec fn is_line_feed<T: Symbol>(x: T) -> bool {
    x.class() is LineFeed
}

/// True for a carriage return.
pub open spec fn is_carriage_return<T: Symbol>(x: T) -> bool {
    x.class() is CarriageReturn
}

/// True for the five whitespace symbols: space, tab, form feed, carriage
/// return and line feed.
pub open spec fn is_whitespace<T: Symbol>(x: T) -> bool {
    x.class() is NormalWhitespace || x.class() is CarriageReturn || x.class() is LineFeed
}

/// Returns the number of bytes of the character that starts with `first_byte`.
pub fn get_char_len(first_byte: u8) -> (len: usize)
    ensures
        len == char_len(first_byte),
        1 <= len <= 4,
{
    if first_byte < 0x80 {
        1
    } else if first_byte < 0xE0 {
        2
    } else if first_byte < 0xF0 {
        3
    } else {
        4
    }
}

/// Classifies the first byte of a character.
pub fn get_char_metadata(first_byte: u8) -> (character: Character)
    ensures
        character == first_byte.class(),
{
    if first_byte == LINE_FEED {
        Character::LineFeed
    } else if first_byte == CARRIAGE_RETURN {
        Character::CarriageReturn
    } else if first_byte == 0x20 || first_byte == 0x09 || first_byte == 0x0C {
        Character::NormalWhitespace
    } else if first_byte < 0x80 {
        Character::SingleByte
    } else {
        Character::MultiByte { len: get_char_len(first_byte) }
    }
}

} // verus!
