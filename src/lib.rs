//! Shortest edit scripts between strings: building them from a character
//! diff, printing and parsing their text form, and replaying them on input.
pub mod apply;
pub mod builder;
pub mod format;
pub mod laws;
pub mod parse;
pub mod script;
pub mod text;

pub use apply::ApplyEditScript;
pub use builder::{shortest_edit_script, shortest_edit_script_suffix, script_from_chunks, ChunkKind};
pub use script::{ApplyError, EditInstruction, EditScript, Mode, ParseError};
