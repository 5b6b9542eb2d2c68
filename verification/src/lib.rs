//! Per-app release versioning and changelog generation for a multi-app
//! monorepo.
//!
//! Releases are tagged per app with a namespaced scheme `<app>/<semver>`.
//! This crate resolves the highest previously released version of an app
//! from such a tag set, computes the next version, walks commit history from
//! the current head back to (but excluding) the prior release, restricts each
//! commit's diffs to the path prefixes relevant to the app, classifies each
//! relevant commit by the category marker at the start of its message, and
//! assembles a categorized changelog.
//!
//! Repository access (listing tags, resolving refs, reading commits and
//! diffs) is an external collaborator: callers load that data into the plain
//! structures of this crate and the crate does the rest.

pub mod changelog;
pub mod classify;
pub mod pathspec;
pub mod strutil;
pub mod tags;
pub mod version;
pub mod walker;
