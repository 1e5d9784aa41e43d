//! Organize a unified diff into a navigable, curated narrative: parse the
//! diff text into an addressable model, resolve curator-authored chapter
//! references against it, and anchor line-numbered review comments onto
//! hunk-relative offsets.

pub mod strutil;
pub mod model;
pub mod diff_parser;
pub mod comments;
pub mod matcher;
pub mod codec;
pub mod github;
pub mod html;
