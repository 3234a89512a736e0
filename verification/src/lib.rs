//! Upgrading the dependencies of a package manifest to their latest
//! versions: finding them with a tree-sitter query, asking each registry's
//! command line tool for the latest version, and splicing the new versions
//! into the manifest's text.

pub mod args;
pub mod buffer;
pub mod cargo;
pub mod grammar;
pub mod matches;
pub mod npm;
pub mod pip;
pub mod proc;
pub mod registry;
pub mod splice;
pub mod text;
