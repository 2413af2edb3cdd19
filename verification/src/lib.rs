//! Multi-scalar multiplication (MSM) with a BGMW windowed precomputation
//! table and a signed-digit (Booth) bucket method.
//!
//! The engine works over a fixed model group: the additive group of
//! integers modulo a 64-bit prime. The group operations live in `group`,
//! 256-bit scalars and window extraction in `scalar`, the Booth digit
//! codec and bucket machinery in `booth`, window-width policy in
//! `window`, the precomputation table and the sequential and parallel
//! multiplication paths in `table`, and the binary table format in
//! `codec`. `setup` generates and serializes trusted-setup point lists.

pub mod sums;
pub mod group;
pub mod scalar;
pub mod booth;
pub mod window;
pub mod table;
pub mod codec;
pub mod setup;
