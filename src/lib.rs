//! Extracts documentation comments attached to CI pipeline job definitions and
//! renders them as a markdown document.
//!
//! A document is read line by line: lines starting with `#= ` accumulate into
//! a pending documentation block, which attaches to the next job definition
//! (`name:`) and is discarded by a global-keyword line. The jobs of several
//! documents are merged by name, the last definition winning, ordered by
//! name, filtered, and rendered.

pub mod job;
pub mod parse;
pub mod render;
pub mod select;
pub mod text;

pub use job::{Job, JobView};
pub use parse::{parse_jobs, ParseError};
pub use render::{generate_markdown, render_selection};
pub use select::{merge_jobs, select_jobs, undocumented_names};
