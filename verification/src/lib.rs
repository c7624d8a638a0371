//! A strict, round-trip-safe decoder and encoder for blockchain chain
//! specification documents: JSON text describing a network's identity,
//! genesis storage, bootnodes and optional parachain metadata.
//!
//! The leaf codecs live in [`codec`], the JSON shape in [`json`], and the
//! document grammar, its decoder, its canonical encoder and the laws they
//! obey in [`document`].

pub mod codec;
pub mod document;
pub mod hexfmt;
pub mod json;
