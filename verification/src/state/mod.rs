//! The working set of a pipeline and the values it is made of.

pub mod config;
pub mod data;
pub mod document;
pub mod factory;
pub mod plan;
pub mod state;
pub mod variant;

pub use config::Config;
pub use data::{Record, RecordModel, Table, TableModel};
pub use document::{Document, DocumentModel};
pub use factory::{
    read_config_field, register_nodes, Action, Driver, Factory, Node, NodeModel, Process,
};
pub use plan::{run_next, Step};
pub use state::{
    Held, InputReader, MemoryReader, MemoryWriter, ResultsWriter, State, StateModel,
};
pub use variant::{RelationalModel, RelationalValue, Variant, VariantModel};
