//! Verified core of a small astronomy-data viewer: decoding of JSON feeds
//! into comet and space-program records, interactive selection defaults,
//! ordering, truncation, and line formatting. Network and console I/O live
//! outside the library and hand in plain values.

pub mod decode;
pub mod json;
pub mod order;
pub mod present;
pub mod select;
