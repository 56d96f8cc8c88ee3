//! Which process is using the network: the logic behind a menu bar bandwidth monitor.
pub mod bytes;
pub mod cadence;
pub mod control;
pub mod display_laws;
pub mod double;
pub mod layout;
pub mod menubar;
pub mod message;
pub mod ntstat;
pub mod protocol_laws;
pub mod rate;
pub mod rate_laws;
pub mod rates;
pub mod report;
pub mod text;
pub mod tracker_laws;
pub mod wire_laws;
