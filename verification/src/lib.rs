//! Checklist task extraction and filtering.
//!
//! The crate parses checklist-style text (`- [ ]` / `- [x]` lines with
//! emoji-tagged date annotations and priority signifiers) into immutable
//! task records, resolves absolute and relative date arguments, and applies
//! composable order-preserving filters over the parsed tasks.

pub mod calendar;
pub mod dates;
pub mod filter;
pub mod task;
pub mod text;

pub use calendar::Date;
pub use filter::DateRangeFilter;
pub use filter::Filter;
pub use filter::FilterPipeline;
pub use filter::OverdueFilter;
pub use filter::TaskFilter;
pub use task::parse_input;
pub use task::parse_input_as_of;
pub use task::parse_priority;
pub use task::Priority;
pub use task::Task;
