//! Verified decision logic of the OpenLogi device agent.
pub mod action_ring;
pub mod channel_cache;
pub mod command_run;
pub mod config;
pub mod device;
pub mod haptics;
pub mod hardware;
pub mod host_lock;
pub mod inventory;
pub mod inventory_laws;
pub mod light;
pub mod node_ledger;
pub mod node_set;
pub mod overlay;
pub mod overlay_laws;
pub mod probe;
pub mod probe_cache;
pub mod ring_laws;
pub mod ring_server;
pub mod route;
pub mod scroll;
pub mod write_laws;
