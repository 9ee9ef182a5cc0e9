//! What holds of the library as a whole.

pub mod addr;
pub mod cli;
pub mod collapse;
pub mod colour;
pub mod detail;
pub mod fmt;
pub mod holders;
pub mod json;
pub mod kill;
pub mod macos;
pub mod process;
pub mod run;
pub mod scan;
pub mod table;
pub mod text;
