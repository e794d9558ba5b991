//! A configuration-driven data pipeline: named nodes read tables into a shared
//! working set, compare and check them, and write reports, one plan entry at a time.

pub mod entries;
pub mod error;
pub mod input;
pub mod output;
pub mod state;
pub mod text;

pub use error::{ErrorModel, PipelineError};
pub use state::{Document, DocumentModel};
