//! Field arithmetic over the prime 2^255 - 19, the base layer of
//! Curve25519/Ed25519: a 32-byte codec, limb-level add/sub/mul, carry
//! normalization, Fermat inversion and a branchless conditional swap.
pub mod element;
pub mod field;
pub mod laws;
pub mod model;
