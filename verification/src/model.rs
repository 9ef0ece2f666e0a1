//! What passes between threads: anchors, comments, overlap and the transport.

pub mod actor;
pub mod anchor;
pub mod comment;
pub mod overlap;
pub mod thread;
pub mod transport;
