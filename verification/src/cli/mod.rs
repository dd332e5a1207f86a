//! Pieces of the command-line collector that are pure logic: token
//! comparison, on-disk naming, key-file sniffing, run counters, the Parquet
//! encoder and sink endpoints.
pub mod auth;
pub mod integrity_state;
pub mod key_crypto;
pub mod parquet;
pub mod pipeline;
pub mod proofs;
pub mod sinks;
pub mod generator;
pub mod simulator;
pub mod server;
pub mod features;
pub mod replay;
pub mod parquet_writer;
