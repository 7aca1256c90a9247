//! Small utilities for personal content and file management: turning
//! Pelican-style blog frontmatter into YAML frontmatter, scaffolding a new
//! note from a template, and helpers for moving large files into a flat
//! directory.

pub mod fields;
pub mod mv_files;
pub mod new_note;
pub mod pelican_frontmatter;
pub mod text;
