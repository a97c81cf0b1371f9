//! A closed multi-party messaging simulation in which participants exchange
//! text messages encrypted under a pluggable asymmetric-encryption scheme.
//!
//! The crate provides big-integer modular arithmetic, a probabilistic
//! primality oracle, an RSA key-pair generator, an abstract encryption
//! protocol trait, per-participant session-key state with a chunked
//! message pipeline, and a routing environment that delivers messages
//! and broadcasts key announcements.

pub mod arith;
pub mod decimal;
pub mod encryption_protocol;
pub mod env;
pub mod errors;
pub mod message;
pub mod primes;
pub mod rsa;
pub mod text;
pub mod user;
