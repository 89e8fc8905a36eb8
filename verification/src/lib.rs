//! NELF, the No-Escape List Format: a textual encoding for a list of
//! arbitrary byte strings that never escapes a byte.
//!
//! Every string becomes a *cell*: the string itself between an opening and a
//! closing run of delimiter bytes, the runs being long enough that nothing
//! inside the string can be taken for the closing run. A list is the
//! concatenation of its cells.
//!
//! * [`NelfIter`] walks over the cells of an encoded list and hands out
//!   slices that borrow from it.
//! * [`ToCell`] encodes one string as a cell.
//! * [`ToNelf`] encodes a container of strings as a list.
//!
//! The module [`laws`] states what connects the two directions.

pub mod alphabet;
pub mod runs;
pub mod encode;
pub mod decode;
pub mod laws;
mod private;

pub use alphabet::{BACK, FWD, PIPE};
pub use decode::NelfIter;
pub use encode::{ToCell, ToNelf};
