//! The durable core of a small database engine: pages of a fixed size, the
//! addressing of pages in a file, a write-ahead log packed into pages, and
//! the descriptor of a buffer.
//!
//! The library decides and computes; it does not touch files. What is to be
//! read or written it hands out as requests ([`page::PageRead`],
//! [`page::PageWrite`]), and what a request does to a file it states over the
//! file's contents as a sequence of bytes.

pub mod cache;
pub mod log;
pub mod page;
pub mod replay;
