//! Arithmetic circuits over wires of mixed moduli, for garbled-circuit
//! two-party computation.
//!
//! A circuit is built by calling the operations of a backend: [`Fancy`] is
//! the vocabulary that every backend offers, and the gadgets of
//! [`BundleGadgets`], [`BinaryGadgets`] and [`CrtGadgets`] are written in
//! that vocabulary alone, so that every backend has them. Two backends come
//! with the library: [`Dummy`] computes in the clear, and [`Informer`] counts
//! what a garbled realisation of the circuit would cost.
//!
//! Numbers are held on bundles of wires, either bit by bit
//! ([`BinaryBundle`]) or by their residues modulo distinct primes
//! ([`CrtBundle`]). What a wire stands for is its view, a [`wire::Residue`];
//! the contracts of the gadgets are stated over these views.

pub mod error;
pub mod wire;
pub mod bits;
pub mod number_theory;
pub mod mixed_radix;
pub mod util;
pub mod fancy;
pub mod bundle;
pub mod binary;
pub mod crt;
pub mod sign;
pub mod dinn;
pub mod dummy;
pub mod informer;

pub use crate::binary::{BinaryBundle, BinaryGadgets};
pub use crate::bundle::{Bundle, BundleGadgets};
pub use crate::crt::{CrtBundle, CrtGadgets};
pub use crate::dummy::{Dummy, DummyVal};
pub use crate::error::FancyError;
pub use crate::fancy::Fancy;
pub use crate::informer::{Informer, InformerVal};
pub use crate::wire::HasModulus;
