//! Verified core of an EVM opcode-statistics pipeline.
//!
//! The library decodes deployed contract bytecode (trimming the trailing
//! CBOR metadata region) into opcode / push-data elements, accumulates
//! per-block opcode frequency counts, and models the durable task queues
//! (block tasks and transaction tasks) with claim / finish / recovery
//! semantics. I/O — the JSON-RPC node, the on-disk stores, the async
//! runtime — lives outside; the functions here take the fetched values as
//! arguments and decide everything else.

pub mod artifacts;
pub mod bytecode;
pub mod consts;
pub mod metadata;
pub mod opcode;
pub mod stats;
pub mod store;
pub mod worker;
