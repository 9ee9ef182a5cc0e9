//! Who holds which port: what the kernel reports of sockets and processes, and how it is asked
//! for and shown.

pub mod cli;
pub mod fmt;
pub mod kill;
pub mod laws;
pub mod model;
pub mod num;
pub mod render;
pub mod run;
pub mod sys;
pub mod text;
