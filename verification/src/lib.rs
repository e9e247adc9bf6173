//! XTS, the XEX-based tweaked-codebook mode with ciphertext stealing, over any
//! block cipher with 128-bit blocks.
//!
//! The mode turns a block cipher into a length-preserving transform of byte
//! strings of one block or more: every block is masked with a tweak, encrypted
//! and masked again, the tweak is doubled in GF(2^128) from block to block,
//! and a last partial block is handled by ciphertext stealing, without
//! padding.
//!
//! - [`cipher`]: the two traits that a cipher implements, and what is said of
//!   a cipher in contracts.
//! - [`tweak`]: the tweak as a number and its doubling.
//! - [`model`]: what the mode computes, as formulas over a block function
//!   and as relations over a cipher.
//! - [`xts`]: the mode itself, [`Xts`], verified against the model.
//! - [`laws`]: round trip, determinism, length and malleability, proved of
//!   the model; [`lemmas`] holds their steps.
//! - [`utils`], [`errors`]: byte helpers and the two errors.

pub mod cipher;
pub mod errors;
pub mod laws;
pub mod lemmas;
pub mod model;
pub mod tweak;
pub mod utils;
pub mod xts;

pub use cipher::{BlockCipher, NewBlockCipher};
pub use errors::{BlockModeError, InvalidKeyIvLength};
pub use xts::Xts;
