//! A thread-confined, fixed-capacity pool of byte slabs handed out as
//! reference-counted views, and the framing, header-compression and
//! stream/connection rules of an HTTP/2 server built on top of it.
use vstd::prelude::*;

pub mod bufpool;
pub mod connection;
pub mod frame;
pub mod hpack;
pub mod roll;
pub mod huffman;
pub mod slab_memory;
pub mod stream;
pub mod testbed;
pub mod writer;
