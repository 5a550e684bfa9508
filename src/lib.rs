//! Base64 encoding re-skinned with the sixty-four hexagrams of the I Ching.
//!
//! Bytes are first written as standard padded Base64; every Base64 character
//! is then replaced by the hexagram that stands at the same position of the
//! symbol table, with the taiji sign standing for the padding character.
pub mod tables;
pub mod text;
pub mod base64;
pub mod taiji;
pub mod laws;

pub use base64::{base64_decode, base64_encode};
pub use taiji::{taiji_decode, taiji_encode};
