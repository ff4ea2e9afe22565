//! The parsing pipeline: input normalization, run-mode detection, summary
//! extraction, and the resource block state machine.

pub mod cleaner;
pub mod terraform;
pub mod diff;
pub mod value;

pub use cleaner::clean_ansi_codes;
pub use cleaner::clean_cdk_prefixes;
pub use cleaner::clean_input;
pub use cleaner::clean_prefixes;
pub use cleaner::clean_spinner_chars;
pub use cleaner::fix_broken_lines;
pub use diff::parse_resource_changes;
pub use terraform::detect_mode;
pub use terraform::extract_summary;
pub use terraform::parse_terraform_output;
