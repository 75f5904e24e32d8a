//! Conflict-free replicated datatypes with verified merge laws.
//!
//! The core is an interval tree clock: a pair of recursive tree algebras
//! that track causality in a forkable, joinable identity space. Around it
//! stand a vector clock, a grow-only counter and a grow-only set, together
//! with the traits that tie their merge, apply and replica capabilities
//! together.

pub mod traits;
pub mod replica;
pub mod entries;
pub mod itc;
pub mod itc_laws;
pub mod vector;
pub mod gcounter;
pub mod gset;

pub use replica::Replica;
pub use traits::Apply;
pub use traits::Crdt;
