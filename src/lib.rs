//! An append-and-compact store for JSON documents: the value model, the
//! merge operator, the archive body codec and frame, and the decisions of
//! the append and read commands.

pub mod value;
pub mod merge;
pub mod cbor;
pub mod archive;
pub mod staging;
pub mod read;
pub mod naming;
