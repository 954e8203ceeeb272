//! Verified core of a log governance agent.
//!
//! The library takes OTLP log export requests as raw bytes, finds the records
//! in them as offsets, decides which records are sampled out and which spans
//! are masked, and rebuilds the request accordingly. Around that core stand
//! the policy, the circuit breaker, the disk spool's bookkeeping and the
//! decisions of the receivers. Everything that talks to a socket, a file or a
//! clock lives in the application that links this crate.

// What std and outside crates provide.
pub mod buffer;
pub mod clock;
pub mod hash;
pub mod lists;
pub mod pattern;
pub mod text;

// Requests, records and decisions on them.
pub mod encoded;
pub mod envelope;
pub mod guard;
pub mod ingest;
pub mod otlp;
pub mod wire;

// Sampling.
pub mod policy;
pub mod sampling;

// Redaction.
pub mod glob;
pub mod lint;
pub mod redact;

// Assembly, and what it leaves of a request.
pub mod export;
pub mod fidelity;
pub mod rebuilt;

// The agent around them.
pub mod breaker;
pub mod config;
pub mod forward;
pub mod grpc;
pub mod metrics;
pub mod pipeline;
pub mod server;
pub mod spool;
