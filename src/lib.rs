//! A disk-backed full-text search engine: posting lists, integer codecs,
//! chunk and block layouts, the SPIMI build pipeline and query-side iterators.

pub mod block;
pub mod bytes;
pub mod chunk;
pub mod chunk_iterator;
pub mod compressor;
pub mod directory;
pub mod intersect;
pub mod merge_writer;
pub mod posting;
pub mod spimi;
pub mod text;
pub mod tokenizer;
pub mod types;
