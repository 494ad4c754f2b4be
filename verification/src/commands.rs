//! What the commands decide once the outside work is done.

pub mod gc;
pub mod info;
pub mod init;
pub mod install;
