//! The commands: each one a function on the repository.

pub mod add;
pub mod branch;
pub mod commit;
pub mod init;
pub mod log;
pub mod merge;
pub mod remove;
pub mod restore;
pub mod status;
pub mod switch;
