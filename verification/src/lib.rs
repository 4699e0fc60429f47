//! Capsule mechanics of a threshold proxy re-encryption scheme over secp256k1.
//!
//! A capsule encapsulates a key seed for a delegating key pair. The delegator
//! opens it with the secret key; a receiver opens it from a batch of
//! re-encrypted capsule fragments, by Shamir reconstruction over the scalar
//! field.
//!
//! - `field`: the scalar field as arithmetic modulo the group order.
//! - `curve`: scalars and points, and the calls into `k256` that compute on them.
//! - `hashing`: the three domain-separated hashes to a scalar.
//! - `keys`, `params`, `capsule_frag`: what a capsule is made and opened with.
//! - `capsule`: capsules, their construction, serialization and opening.
//! - `interpolation`: polynomials and their interpolation at zero.
//! - `proofs`: what holds of capsules whatever the keys and fragments.

pub mod field;
pub mod curve;
pub mod hashing;
pub mod keys;
pub mod capsule_frag;
pub mod params;
pub mod capsule;
pub mod interpolation;
pub mod proofs;

pub use capsule::{lambda_coeff, Capsule, ConstructionError, OpenReencryptedError};
pub use capsule_frag::CapsuleFrag;
pub use curve::{CurvePoint, CurveScalar};
pub use keys::{PublicKey, SecretKey};
pub use params::Parameters;
