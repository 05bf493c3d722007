//! Snippets of shell commands kept in plain documents.
//!
//! A document holds a command in its first fenced code block and may say
//! more about it in a metadata block of `key: value` lines. [`store`] takes
//! the snippet out of a document; [`config::yaml_parser`] reads the metadata,
//! and the settings of the program, with [`text`] and [`slices`] underneath.
//! [`config`], [`os_helper`] and [`tui`] hold what the program around them
//! decides.

pub mod config;
pub mod os_helper;
pub mod slices;
pub mod store;
pub mod text;
pub mod tui;
