//! The in-memory model of a changelog and the operations that build and
//! render it.

pub mod change_set;
pub mod change_set_section;
pub mod component_section;
pub mod config;
pub mod entry;
pub mod fs_utils;
pub mod parsing_utils;
pub mod rendering;
pub mod seq_utils;
pub mod sorting;
