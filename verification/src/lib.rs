//! Core logic of a fast, Homebrew-compatible package installer.
//!
//! The crate decides and the caller acts: nothing here reads a file, opens a
//! connection or starts a process. A request for formulas becomes a plan
//! ([`formula::resolve`]), each formula of the plan gets its bottle or its
//! build ([`formula::bottle`], [`install`], [`build`]), its keg enters the
//! store ([`store`]) and is linked into the prefix ([`linker`]), and a
//! scheduler says which formula is worked on next ([`scheduler`]). Around
//! that stand the manifest of a bundle ([`bundle`]), the settings
//! ([`config`], [`cli`]) and the bootstrap of the directories ([`init`]).
//!
//! Every function carries its contract, and the laws that relate several
//! functions are stated and proved beside them.

pub mod build;
pub mod bundle;
pub mod cli;
pub mod commands;
pub mod config;
pub mod errors;
pub mod formula;
pub mod init;
pub mod install;
pub mod linker;
pub mod paths;
pub mod places;
pub mod scheduler;
pub mod store;
pub mod text;
