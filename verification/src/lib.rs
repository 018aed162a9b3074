//! Secret-shared binomial noise for multi-party aggregation.
//!
//! Several aggregators each hold an additive share of a vector of secret bits.
//! Every aggregator turns its share into a share of a centered, rescaled
//! binomial sample; the shares of the sample add up to the sample of the whole
//! vector.
//!
//! - [`noise`] holds the distribution, [`NBin`], and what a sample is.
//! - [`sharing`] says what an additive sharing is, recombines shares, and
//!   proves that sampling is linear.
//! - [`hedge`] holds the hedge against shares that do not add up to bits.
//! - [`testing`] draws random bit vectors and random sharings.
//! - [`simulation`] runs one round of the mechanism.
//! - [`field`] says what is asked of a field; [`field128`] is the 128-bit
//!   field of the crate `prio`, and [`prime128`] shows its modulus to be
//!   prime.
//! - [`modular`] and [`primality`] hold the arithmetic that the proofs rest
//!   on.

pub mod error;
pub mod field;
pub mod field128;
pub mod hedge;
pub mod modular;
pub mod noise;
pub mod prime128;
pub mod primality;
pub mod sharing;
pub mod simulation;
pub mod testing;

pub use error::NoiseError;
pub use field::FieldElement;
pub use field128::{decode, Field128};
pub use noise::{NBin, Noise};
