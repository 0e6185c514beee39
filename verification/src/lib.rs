//! Decides which kernel drivers and which firmware files of a Linux image are
//! unused.
pub mod cleanup;
pub mod command;
pub mod config;
pub mod driver;
pub mod error;
pub mod firmware;
pub mod name;
pub mod order;
pub mod passes;
pub mod path;
pub mod path_set;
pub mod pattern;
pub mod required;
pub mod symlink;
pub mod text;
pub mod trace;
pub mod util;
pub mod work;
