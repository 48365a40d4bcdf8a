//! Path validation and connection migration for a QUIC connection: the
//! known addresses, the candidate paths between them, the PATH_CHALLENGE /
//! PATH_RESPONSE handshake that validates a path, and the work queues that
//! tell the frame emitter what to send next.
pub mod address;
pub mod error;
pub mod frame;
pub mod manager;
pub mod path;
pub mod scheduler;
pub mod tls;
