//! Core of a small message broker that speaks the NATS text protocol.
pub mod call_laws;
pub mod client;
pub mod outside;
pub mod server;
pub mod subjects;
pub mod table;
pub mod text;
pub mod wire;
pub mod wire_laws;
