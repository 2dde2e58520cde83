//! Replaces hard-coded literals in a markup document by localization
//! placeholders and builds the table of the placeholders' keys and the
//! literals that they stand for.
//!
//! A finding names a line of the document and the evidence that was found
//! on it. [`apply_findings`] puts a placeholder where the evidence stands,
//! for each finding in turn. [`build_mapping`] gives the table from the keys
//! to the literals, from the same findings. Both take their keys from
//! [`slugify`]; [`consistency`] says when the two agree.

pub mod consistency;
pub mod evidence;
pub mod mapping;
pub mod rewrite;
pub mod slug;
pub mod text;

pub use evidence::{normalize_for_key, normalize_for_matching};
pub use mapping::{build_mapping, mapping_file_name, MappingTable, RenderError};
pub use rewrite::{apply_findings, Capture, Finding, PatternError, Rewrite};
pub use slug::slugify;
