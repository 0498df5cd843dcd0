//! Core of a transparent layer-4 reverse proxy that consumes HAProxy
//! PROXY-protocol headers: the header decoder and encoder, the subnet
//! filter, the splice-relay bookkeeping, the UDP session table, and the
//! steering decisions that pick the spoofed bind address and the
//! forward target.  The surrounding process does the socket work and
//! hands this crate plain values.

pub mod config;
pub mod header;
pub mod iptext;
pub mod net;
pub mod relay;
pub mod session;
pub mod steer;
pub mod subnet;
pub mod text;
