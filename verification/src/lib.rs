//! A bounded single-producer / single-consumer queue that coalesces queued
//! updates sharing the same key: a slow consumer always receives the latest
//! value per key, while keyless entries are preserved in arrival order.

pub mod laws;
pub mod ring;
pub mod simple;
