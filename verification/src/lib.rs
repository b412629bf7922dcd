//! Block-wise caching of stored objects.
//!
//! An object is cut into blocks of a fixed size. The library decides which
//! blocks a byte range needs, under which key each block is cached, which of
//! them must be fetched, and which slice of each block answers the range. It
//! also holds the byte format in which a block is kept on disk. Talking to the
//! object store and to the cache is left to the caller.
pub mod block;
pub mod buffer;
pub mod cache;
pub mod chunk;
pub mod key;
pub mod key_set;
pub mod request;
pub mod laws;
