//! A compact key-value store: fixed-width keys and values, an append-only
//! log with replay recovery, an ordered in-memory index, a length-delimited
//! chunk transport, and the request/reply codec used between server and
//! client.

pub mod chunktps;
pub mod kvclient;
pub mod kvserver;
pub mod kvstorage;
pub mod util;
