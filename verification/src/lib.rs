//! A launcher for Windows applications: the list of applications that it keeps, and the rules by
//! which files come into the list, are started from it and leave it again.

pub mod apps;
pub mod data_files;
pub mod dnd;
pub mod launch;
pub mod rows;
pub mod settings;
pub mod shell_link;
pub mod text;
pub mod utf16;
pub mod winpath;
