//! Motherboard: a service locator / RPC transport, its interface language and its clients.
pub mod protocol;
pub mod kernel;
pub mod text;
pub mod midl;
pub mod client;
pub mod ui;
pub mod poc;
