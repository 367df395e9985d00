//! The bytes to which the line format and the message format give a meaning.

use vstd::prelude::*;

verus! {

/// Ends the content of a line wherever it occurs.
pub const NUL: u8 = 0x00;

/// The line terminator; within content it ends the body of a message.
pub const LF: u8 = 0x0a;

/// Within content it ends the body of a message.
pub const CR: u8 = 0x0d;

/// Opens and closes the body of a message.
pub const QUOTE: u8 = 0x22;

/// The digit zero.
pub const ZERO: u8 = 0x30;

/// Separates plugin and type in a service name.
pub const SLASH: u8 = 0x2f;

/// Escapes the byte after it in the body of a message.
pub const BACKSLASH: u8 = 0x5c;

} // verus!
