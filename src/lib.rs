pub mod allow_set;
pub mod config;
pub mod control;
pub mod session;
