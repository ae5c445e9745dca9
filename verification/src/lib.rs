//! Verified core of an IP and port scanner: parsing of target
//! specifications (single addresses, CIDR blocks, address ranges),
//! hex payloads, option values, and the bookkeeping of a scan.

pub mod text;
pub mod fields;
pub mod addr;
pub mod range;
pub mod hex;
pub mod scan;
pub mod config;
pub mod laws;
pub mod readback;
