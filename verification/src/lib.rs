//! Client-side logic for a remote procedure call protocol whose messages
//! travel as length-delimited protocol-buffer frames over two byte channels:
//! a request/reply channel and a channel of server-pushed stream updates.
//!
//! The crate holds the value codec (untagged encodings of primitives and
//! composite values), the message codec for the protocol's envelope messages,
//! the incremental frame splitter, the registry of stream values, the pure
//! call-plane of the client, and the generator that turns a JSON service
//! catalogue into a typed API surface.

pub mod error;
pub mod varint;
pub mod wire;
pub mod codec;
pub mod messages;
pub mod framing;
pub mod stream;
pub mod client;
pub mod krpc_build;
pub mod doc;
pub mod schema;
