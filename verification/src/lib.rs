//! A small feed-forward neural-network engine.
//!
//! A network is a stack of fully connected layers; it is evaluated by a
//! forward pass (`pulse`), trained by a coordinate-wise finite-difference
//! descent, and persisted in two custom formats: a bracketed-list text form
//! for network parameters and a fixed-layout big-endian binary form for
//! datasets.
//!
//! Every scalar in this crate is a 64-bit word: the bit pattern of an
//! IEEE-754 binary64 value. The verifier does not model floating-point
//! arithmetic, so the crate is parametric in the scalar semantics: the
//! [`scalar::ScalarOps`] trait supplies the arithmetic, the activation
//! function, and the decimal text form of a scalar, and the embedding
//! program implements it with native double-precision operations. All
//! structural behaviour — the shape invariant, evaluation and update order,
//! the grammar of the text format and the byte layout of the binary
//! format — is stated and proved here, for every implementation of that
//! trait.

pub mod data;
pub mod files;
pub mod laws;
pub mod network;
pub mod neur;
pub mod scalar;
pub mod training;

pub use data::DataSet;
pub use data::NetworkFood;
pub use network::Layer;
pub use network::Network;
pub use scalar::ScalarOps;
pub use scalar::ScalarSampler;
