//! Verified core of a content-addressed model runtime.
//!
//! Every weight of a compiled model is addressed by its κ-label, the BLAKE3
//! digest of its bytes. The modules of this crate hold the rules by which such
//! labels are minted, checked, resolved and bound.

pub mod archive;
pub mod bytes;
pub mod chat;
pub mod forward;
pub mod json;
pub mod kappa;
pub mod kappa_map;
pub mod manifest;
pub mod materialize;
pub mod paging;
pub mod plan;
pub mod prism;
pub mod provider;
pub mod quant;
pub mod residency;
pub mod runner;
pub mod session;
pub mod store;
pub mod stream;
pub mod text;
pub mod textmap;
pub mod tokenizer;
pub mod tokenizer_config;
pub mod vocab;
pub mod weights;
