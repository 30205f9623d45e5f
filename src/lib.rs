//! Blue-noise dither patterns by the void-and-cluster method.
//!
//! A generator holds a toroidal grid of membership bits and, for every cell,
//! the energy that the counted cells exert on it. Seeding, a swap loop that
//! settles the seed, and three ranking phases give every cell a distinct rank;
//! ranks are then scaled to 8-bit grey levels.
//!
//! The Gaussian falloff is handed in as a table of fixed-point weights indexed
//! by squared toroidal distance, and the random seed as a list of draws, so
//! every step here is exact integer work.
pub mod bits;
pub mod energy;
pub mod noise;
pub mod laws;

pub use bits::Bits;
pub use energy::kernel;
pub use noise::{BlueNoise, NoiseError, encode_rank, weight_table_len};
