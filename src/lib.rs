//! A shared, unbounded pixel canvas: a chunked store whose chunks are write-behind
//! cache entries, the server's ordering and broadcast of edits, and the client's
//! optimistic painting reconciled against the server's order.

pub mod geom;
pub mod matrix;
pub mod canvas;
pub mod autosave;
pub mod chunks;
pub mod server;
pub mod client;
