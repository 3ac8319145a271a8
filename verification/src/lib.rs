//! Admission control and error mapping for streaming model requests.
pub mod abi;
pub mod bucket;
pub mod clock;
pub mod config;
pub mod encoding;
pub mod engine;
pub mod error_mapping;
pub mod framing;
pub mod host;
pub mod json;
pub mod laws;
pub mod probe;
pub mod protocol;
pub mod pump;
pub mod records;
pub mod router;
pub mod runs;
pub mod runtime;
pub mod state;
pub mod stream;
pub mod table;
pub mod text;
pub mod upkeep;
