//! The daemon's side: configuration, knock tracking, replay prevention, firewall rules.

pub mod capture;
pub mod config;
pub mod firewall;
pub mod history;
pub mod knock;
pub mod model;
pub mod packet;
pub mod sources;
pub mod store;
