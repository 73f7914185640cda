//! PostgreSQL wire protocol: message framing, bind parameters and placeholders,
//! and the decisions of the extended query protocol.

pub mod encode;
pub mod message;
pub mod names;
pub mod params;
pub mod placeholders;
pub mod rows;
pub mod session;
pub mod conn;
