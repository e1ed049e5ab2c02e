//! Gateway core for exposing live editor instances over a tool-calling
//! protocol: a msgpack-rpc value model and wire codec, request/response
//! correlation, a per-connection editor client with a diagnostics cache,
//! a connection registry, and a hybrid (static + dynamic) tool router.

pub mod client;
pub mod codec;
pub mod error;
pub mod json;
pub mod lua_tools;
pub mod registry;
pub mod router;
pub mod rpc;
pub mod server;
pub mod text;
pub mod value;
