//! Parser for the textual transcript of an infrastructure-provisioning CLI
//! run: it normalizes the raw terminal output, detects whether the transcript
//! describes a dry-run plan or a completed apply, extracts the aggregate
//! summary counts, and walks the resource change blocks to build a structured
//! plan model.

pub mod models;
pub mod text;
pub mod parser;
pub mod ui;

pub use models::ActionType;
pub use models::Change;
pub use models::DataSource;
pub use models::Metadata;
pub use models::PlanMode;
pub use models::Resource;
pub use models::Summary;
pub use models::TerraformPlan;
pub use models::TfValue;
pub use models::TfdiffError;
pub use models::Warning;
pub use models::WarningLevel;

pub use parser::clean_ansi_codes;
pub use parser::clean_cdk_prefixes;
pub use parser::clean_input;
pub use parser::clean_prefixes;
pub use parser::clean_spinner_chars;
pub use parser::detect_mode;
pub use parser::extract_summary;
pub use parser::fix_broken_lines;
pub use parser::parse_resource_changes;
pub use parser::parse_terraform_output;
pub use ui::generate_web_assets;
