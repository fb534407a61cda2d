//! A system for specifying abstract directory trees and applying them to a filesystem.
pub mod attrs;
pub mod config;
pub mod disk_schema;
pub mod expr;
pub mod expression;
pub mod listing;
pub mod filesystem;
pub mod item;
pub mod meta;
pub mod namemap;
pub mod paths;
pub mod schema;
pub mod text;
pub mod text_util;
pub mod traversal;
pub mod tree_text;
