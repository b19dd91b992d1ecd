//! The decision core of a local HTTP range proxy.
//!
//! A client asks the proxy for a byte range of a file. The proxy fetches the range from
//! the origin in chunks, several at a time, and writes them to the client in order.
//!
//! - [`service`]: starting and stopping, and the last error
//! - [`query`]: the parameters of a request
//! - [`player`]: one transfer, from the client's header fields to the head of the answer
//! - [`retry`]: fetching one byte range, with retries
//! - [`pipeline`]: the concurrent fetching of chunks, and their way back into order
//! - [`range`]: the `Range` and `Content-Range` fields
//! - [`headers`]: header fields
//! - [`client`]: the HTTP client
//! - [`reply`]: answers in place of a transfer
//! - [`clock`]: the time of day and the health report
//! - [`text`]: white space and decimal integers
//!
//! Sockets, HTTP and threads are left to the program around this library: it hands in
//! what happened and does what it is told.

pub mod client;
pub mod clock;
pub mod headers;
pub mod pipeline;
pub mod player;
pub mod query;
pub mod range;
pub mod reply;
pub mod retry;
pub mod service;
pub mod text;

pub use clock::now_rfc3339;
pub use player::Player;
pub use query::extract_params;
pub use range::{parse_range, parse_total};
pub use service::{
    is_running, running_port, start, stop, take_last_error, DEFAULT_PORT, JNI_FALLBACK_PORT,
};
