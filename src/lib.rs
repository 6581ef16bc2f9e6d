//! Offline analysis of SomeIP traffic: layered frame decoding, service
//! discovery, SomeIP-TP and TCP reassembly, and request/response pairing.

pub mod error;
pub mod wire;
pub mod header;
pub mod link_layer;
pub mod network_layer;
pub mod transport_layer;
pub mod sd;
pub mod tp;
pub mod session;
pub mod flow_control;
pub mod text;
pub mod msi;
pub mod analyzer;
pub mod matrix;
pub mod timestamp;
pub mod output;
pub mod config;
