pub mod cache;
pub mod heartbeat;
pub mod inflight;
pub mod journal;
pub mod laws;
pub mod mqtt5;
pub mod store;
pub mod subscribe;
pub mod table;
pub mod types;
