//! Device discovery and bookkeeping for a home network.
//!
//! The crate holds what a LAN dashboard decides and computes: it reads the
//! packets and command output that a scan collects, merges them into device
//! rows, keeps the history of every device, and guards the dashboard with a
//! password. Sockets, files and the HTTP server stay outside.

pub mod annotations;
pub mod arp;
pub mod auth;
pub mod bignum;
pub mod clock;
pub mod crypto;
pub mod device;
pub mod dns;
pub mod echo;
pub mod http;
pub mod json;
pub mod netbios;
pub mod numerals;
pub mod oui;
pub mod probe;
pub mod random;
pub mod router;
pub mod scanner;
pub mod ssdp;
pub mod storage;
pub mod text;
pub mod unicode;
