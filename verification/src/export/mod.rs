//! What the export of the edited video is made from.

pub mod filter;
pub mod plan;
pub mod progress;

pub use filter::build_filter_complex_from_clips;
pub use plan::{plan_export, ExportPlan};
pub use progress::{parse_progress_line, progress_percentage};
