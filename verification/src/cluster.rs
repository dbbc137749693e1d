pub mod api;
pub mod network;
pub mod store;
pub mod types;
