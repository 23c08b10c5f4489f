//! Configuration management for the COSMIC desktop: the verified core of a
//! command-line tool that reads, writes, deletes, backs up, restores and resets
//! the entries stored under `$XDG_CONFIG_HOME/cosmic/<component>/v<version>/<entry>`.

pub mod text;
pub mod paths;
pub mod braces;
pub mod schema;
pub mod config;
pub mod apply;
pub mod glob_pattern;
pub mod exclude;
pub mod backup;
