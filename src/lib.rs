//! Recovers DWARF line information from WebAssembly modules and projects it
//! onto call-site instructions.
mod text;

pub mod correlate;
pub mod leb;
pub mod lines;
pub mod prefix;
pub mod reloc;
pub mod report;
pub mod sections;
pub mod sources;
pub mod url_section;
