//! Core of a single-threaded, event-driven HTTP/1.x server: an incremental
//! request decoder, a response framer with keep-alive and chunking decisions,
//! and the per-connection state machine that a readiness-driven reactor runs.

pub mod bytes;
pub mod chunked;
pub mod conn;
pub mod laws;
pub mod lit;
pub mod reactor;
pub mod request;
pub mod response;
