//! Verified core of an nmap-style network reconnaissance tool.
//!
//! The crate has two halves. The resolver half turns loosely formatted user
//! input (single addresses, CIDR subnets, address ranges, comma lists and
//! domain names) into a concrete, validated list of scan targets, each
//! carrying its own port set and provenance. The aggregator half takes the
//! per-target probe records that the external scanning engine hands back and
//! renders a deterministic, sorted, human-readable report with summary
//! statistics.
//!
//! Probing itself (packet construction, raw sockets, timing, DNS transport)
//! belongs to the external engine and is reached only through a few small
//! trusted wrappers; everything else is verified.

pub mod addr;
pub mod aggregate;
pub mod classify;
pub mod errors;
pub mod expand;
pub mod methods;
pub mod ports;
pub mod records;
pub mod resolve;
pub mod strings;
pub mod target;
pub mod tld;
