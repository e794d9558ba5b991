//! The nodes that write: comparisons, assertions and exports of tables.

pub mod asserts;
pub mod compare;
pub mod json;
pub mod rabbitmq;
pub mod sql_inserts;

pub use asserts::{Assert, AssertModel, AssertState, OutputAsserts};
pub use compare::{Difference, DifferenceModel, OutputCompare, Side};
pub use json::OutputJson;
pub use rabbitmq::{OutputRabbitMQ, QueueArgument};
pub use sql_inserts::OutputSqlInserts;
