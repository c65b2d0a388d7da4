//! A durable, bounded, in-process publish/subscribe command broker.
//!
//! Producers publish payloads to named topics; each record gets a per-topic
//! offset and is framed into a checksummed write-ahead log. Independent
//! consumer groups read every topic in order and acknowledge what they have
//! processed; the slowest group bounds how far producers may run ahead.
pub mod broker;
pub mod config;
pub mod domain;
pub mod flow;
pub mod frame;
pub mod laws;
pub mod model;
pub mod names;
