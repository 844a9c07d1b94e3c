//! Text-buffer engine: a persistent byte tree, a chunk cache, a virtual
//! buffer with byte cursors, and an overlapping-window search iterator.

pub mod chunk_tree;
pub mod virtual_buffer;
pub mod chunked_search;
pub mod memstore;
pub mod file_explorer;
