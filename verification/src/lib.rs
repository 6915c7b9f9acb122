//! A write-once, chunked, compressed dictionary store.
//!
//! Entries are buffered by a [`writer::DictionaryWriter`], batched into
//! fixed-size groups, compressed, and appended to a data stream while an
//! inverted index from word strings to chunk offsets is accumulated.
//! A [`reader::DictionaryReader`] loads the index and serves point lookups
//! by decompressing only the chunks that contain the requested words.

pub mod entry;
pub mod wire;
pub mod codec;
pub mod index;
pub mod compress;
pub mod store;
pub mod writer;
pub mod reader;
pub mod pos;
pub mod wanikani;
pub mod jmdict;
