use vstd::prelude::*;

pub mod clipboard;
pub mod commands;
pub mod config;
pub mod context;
pub mod file_utils;
pub mod laws;
pub mod operation_laws;
pub mod path;
pub mod text;

verus! {
}
