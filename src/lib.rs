//! The data model of a decoded Cardano block, a canonical binary encoding for
//! it, and the pass-through transform that summarises a block as log records.
pub mod block;
pub mod handler;
pub mod wire;
