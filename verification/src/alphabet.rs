//! The three delimiter bytes and the pairing of opening and closing byte.

use vstd::prelude::*;

verus! {

/// The byte `|`, which opens and closes a cell of the pipe scheme.
pub const PIPE: u8 = 0x7C;

/// The byte `/`, which opens a cell that `\` closes, and closes one that `\` opens.
pub const FWD: u8 = 0x2F;

/// The byte `\`, which opens a cell that `/` closes, and closes one that `/` opens.
pub const BACK: u8 = 0x5C;

/// Whether `b` is one of the three delimiter bytes.
pub open spec fn is_delim(b: u8) -> bool {
    b == PIPE || b == FWD || b == BACK
}

/// The byte that closes a cell opened by `open`: a pipe closes a pipe, the
/// two slashes close each other. Every other byte is mapped to itself.
pub open spec fn closer(open: u8) -> u8 {
    if open == FWD {
        BACK
    } else if open == BACK {
        FWD
    } else {
        open
    }
}

/// Tells whether `b` is a delimiter byte.
pub fn is_delimiter(b: u8) -> (r: bool)
    ensures
        r == is_delim(b),
{
    b == PIPE || b == FWD || b == BACK
}

/// Returns the byte that closes a cell opened by `open`.
pub fn closing_byte(open: u8) -> (r: u8)
    ensures
        r == closer(open),
{
    if open == FWD {
        BACK
    } else if open == BACK {
        FWD
    } else {
        open
    }
}

} // verus!
