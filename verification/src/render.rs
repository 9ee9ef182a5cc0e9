//! What is shown: a table, the details of one port, or JSON.

pub mod collapse;
pub mod detail;
pub mod json;
pub mod table;

pub use crate::render::collapse::collapse;
pub use crate::render::detail::{addr_port, detail};
pub use crate::render::json::json;
pub use crate::render::table::table;
