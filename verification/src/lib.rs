//! Time-derived port knocking.
//!
//! Client and daemon share a secret. In each time window it gives a sequence of UDP ports;
//! a client that sends a packet to each of them in order is let through the firewall by
//! the daemon, once per window.

pub mod address;
pub mod client;
pub mod clock;
pub mod daemon;
pub mod hexcode;
pub mod observed;
pub mod paths;
pub mod secret;
pub mod sequence;
pub mod text;

pub use clock::{current_window, windows_with_skew, DEFAULT_WINDOW_SECS};
pub use secret::{decode_secret, SecretKey};
pub use sequence::{derive_sequence, DEFAULT_KNOCK_COUNT, MAX_KNOCK_COUNT, PORT_MIN};
