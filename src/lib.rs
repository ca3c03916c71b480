//! A patch engine for chunks of script source. Mods describe patches in
//! declarative files; the engine rewrites each chunk before it is loaded:
//!
//! - `patch`, `table`, `loader`, `names`, `config`: the patch model, the indexed
//!   catalog with its target lookup, and the logic of loading a mod directory;
//! - `rope`, `edit`, `copy`, `pattern`, `regex`, `vars`: the text buffer and the
//!   rewrite engine (copy, line-pattern and regex patches, variables);
//! - `dump`, `order`: debug regions kept in step with later edits, dump names,
//!   and the priority order of patches;
//! - `glob`, `chars`: wildcard matching and character helpers.

pub mod chars;
pub mod config;
pub mod copy;
pub mod dump;
pub mod edit;
pub mod glob;
pub mod loader;
pub mod names;
pub mod order;
pub mod patch;
pub mod pattern;
pub mod regex;
pub mod rope;
pub mod table;
pub mod vars;
pub mod warn;
