//! The client's side: configured hosts, onboarding, and sending knocks.

pub mod command;
pub mod config;
pub mod error;
pub mod init;
pub mod knock;
