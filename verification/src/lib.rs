//! Embedding, locating and removing provenance stores in ISO-BMFF containers.
//!
//! A container is handled as a byte string. Every operation is a function
//! from bytes to bytes (or to positions), with a contract stated over the
//! box tree that the bytes encode.
//!
//! - `bytes`, `header`, `walker`, `tree`: big-endian numbers, box headers,
//!   the boxes of one level, and the whole tree in document order.
//! - `locator`, `hashing`: where the store is, and which byte ranges a
//!   hard-binding hash covers.
//! - `offsets`, `writer`: offset tables and how their entries move; writing,
//!   replacing, patching and removing the provenance box.
//! - `presentation`, `adapter`: segmented presentations, and the adapter
//!   that says which segment carries the provenance box.
//! - `regions`, `moving`, `composition`, `splice`, `guarantees`,
//!   `following`: what is proved of these operations beyond their contracts.

pub mod adapter;
pub mod bytes;
pub mod composition;
pub mod error;
pub mod following;
pub mod guarantees;
pub mod hashing;
pub mod header;
pub mod locator;
pub mod moving;
pub mod offsets;
pub mod presentation;
pub mod regions;
pub mod splice;
pub mod tree;
pub mod walker;
pub mod writer;
