//! Tools for reading GHC runtime diagnostics: reconstructing where a heap
//! object lived across garbage collections from a relocation trace, the
//! z-encoding of GHC symbol names, and the one-line RTS summary.

pub mod era;
pub mod query;
pub mod summary;
pub mod text;
pub mod trace;
pub mod z_decode;
pub mod z_encode;

pub use summary::{parse_ghc_summary, GhcSummary};
pub use z_decode::z_decode;
pub use z_encode::z_encode;
