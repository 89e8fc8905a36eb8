//! Markers that keep the encoding traits closed: a type outside this crate
//! cannot name them, so it cannot implement the traits that require them.

use vstd::prelude::*;

verus! {

/// Marks the types that can be encoded as a cell.
pub trait ToCellSealed {

}

/// Marks the types that can be encoded as a list.
pub trait ToNelfSealed {

}

} // verus!
