//! Memory scanning and editing logic for a Linux process memory editor:
//! value encodings, scan filtering, `/proc` parsing, cheat-table files and
//! the launcher's decisions.

pub mod scan_type;
pub mod text;
pub mod value;
pub mod scanner;
pub mod maps;
pub mod saved;
pub mod cheat_table;
pub mod procfs;
pub mod launcher;
pub mod processes;
pub mod speedhack;
pub mod session;
pub mod script;
