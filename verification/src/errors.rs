//! The two ways in which the mode can refuse its input.

use vstd::prelude::*;

verus! {

/// The key or the initial tweak handed to a constructor has the wrong length,
/// or the cipher refused its half of the key.
#[derive(Clone, Copy, Debug, PartialEq, Eq, Structural)]
pub struct InvalidKeyIvLength;

/// The buffer cannot be processed: it is shorter than one block.
#[derive(Clone, Copy, Debug, PartialEq, Eq, Structural)]
pub struct BlockModeError;

} // verus!
