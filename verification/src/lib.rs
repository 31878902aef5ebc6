//! Lending a browser session to trusted peers, and taking it back.
//!
//! A relay fans shared-session grants and revocations out to connected
//! peers; each peer applies them to its own browser over the browser's
//! remote-debugging protocol, keeping a table from the sender's page to
//! the page it opened so a revocation lands on the right one.  This
//! crate holds the protocol itself — the wire frames, the debugging
//! requests and responses, the fan-out bookkeeping and the identity
//! table — leaving sockets, processes and windows to the program around
//! it.
pub mod json;
pub mod errors;
pub mod cookie;
pub mod wire;
pub mod identity;
pub mod relay;
pub mod cdp;
pub mod client;
pub mod ui;
