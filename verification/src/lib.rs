//! The core of a small durable storage engine: fixed-capacity pages addressed
//! by blocks, an in-memory block store standing in for the disk backend, a
//! buffer pool that caches blocks under explicit pinning, and a write-ahead
//! log manager with a staged/committed watermark.

pub mod buf_mgr;
pub mod log_mgr;
pub mod file_mgr;
