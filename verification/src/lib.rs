//! The decision logic of a CPU power governor: the configuration format,
//! the load-to-setting policy, the bookkeeping of what has been written to
//! the power plan, and the small rules that interpret what the operating
//! system reports.

pub mod text;
pub mod config;
pub mod policy;
pub mod state;
pub mod system;
pub mod governor;
