//! Turns a compiler's textual DWARF line-table dump into a version 3 source
//! map for a WebAssembly module, and rewrites the module's section table.
pub mod varint;
pub mod wasm;
pub mod text;
pub mod dwarf;
pub mod source_map;
