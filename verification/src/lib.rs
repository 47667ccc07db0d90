//! Verified core of a terminal book reader: the logical document model,
//! text ingestion, cell-width-aware layout, reading navigation, and the
//! bounded parsers that guard untrusted book content.
use vstd::prelude::*;

pub mod strings;
pub mod bytes;
pub mod width;
pub mod model;
pub mod paths;
pub mod error;
pub mod text;
pub mod layout;
pub mod viewport;
pub mod reader;
pub mod clock;
pub mod theme;
pub mod terminal_image;
pub mod terminal_probe;
pub mod image;
pub mod structured;
pub mod archive;
pub mod epub;
pub mod terminal;
pub mod native;
pub mod action;
pub mod vector;
pub mod worker;
pub mod shell;
pub mod config;
pub mod xhtml;
pub mod image_job;

verus! {
}
