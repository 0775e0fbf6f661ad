//! Dictionary normalisation and inflection synthesis for Wiktionary exports.
use vstd::prelude::*;

pub mod text;
pub mod json;
pub mod entry;
pub mod version;
pub mod language;
pub mod synth;
pub mod tables;
pub mod database;
pub mod views;

verus! {

/// Where the database lives.
pub const DB_DIR: &'static str = "/usr/share/inflectived";

/// The version that an import stamps on the language it installs.
pub const MAJOR: u32 = 0;
pub const MINOR: u32 = 1;
pub const PATCH: u32 = 0;

} // verus!
