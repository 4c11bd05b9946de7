//! Conversion between a binary, content-addressed cell-tree encoding of a
//! configuration snapshot ("bag of cells") and a JSON representation of a
//! single configuration parameter selected by an integer id.
//!
//! The crate is organised leaf-first:
//! - [`cells`]: the in-memory cell store (immutable nodes with a bit payload
//!   and up to four child references, held in an append-only arena).
//! - [`text`]: base64 framing of bag bytes.
//! - [`bag`]: the linear, deduplicated serialization of a rooted cell graph.
//! - [`dict`]: the key-indexed dictionary embedded as a cell subtree.
//! - [`json`]: the JSON object subset used for configuration values.
//! - [`params`]: the per-parameter-id codecs between cells and JSON values.
//! - [`convert`]: the two top-level conversion directions.

pub mod bag;
pub mod cells;
pub mod convert;
pub mod dict;
pub mod errors;
pub mod json;
pub mod params;
pub mod text;

use vstd::prelude::*;

verus! {

} // verus!
