//! Searching text files, standard input and directories for a pattern, and
//! reading the structure of PDF files: the header, the cross-reference table,
//! the trailer's root, and the objects it leads to.

pub mod command;
pub mod models;
pub mod read_cmd;
pub mod read_multi_file;
pub mod read_pdf;
pub mod read_single_file;
pub mod text;
pub mod utils;
