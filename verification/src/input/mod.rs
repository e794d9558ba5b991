//! The nodes that read: tables from documents and from databases.

pub mod json;
pub mod mysql;

pub use json::{read_file, InputJson};
pub use mysql::InputMysql;
