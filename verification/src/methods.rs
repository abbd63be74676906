//! The probe-method knobs the caller passes through to the scanning engine,
//! and the log-level switch.
//!
//! The engine does the probing; these types only select which of its probes
//! to run and how loudly it may log, so the core can state and test the
//! selection logic without touching the engine.

use vstd::prelude::*;

use crate::tld::lower_seq;
use crate::tld::eq_ignore_ascii_case;

verus! {

/// How hosts are discovered: one of the ping variants, or a MAC-layer scan.
#[derive(Debug, Clone, Copy, PartialEq, Eq, Structural)]
pub enum HostDiscoveryMethod {
    IcmpEcho,
    IcmpTimestamp,
    IcmpAddressMask,
    TcpSyn,
    TcpAck,
    Udp,
    Mac,
}

/// How ports are scanned.
#[derive(Debug, Clone, Copy, PartialEq, Eq, Structural)]
pub enum PortScanningMethod {
    TcpSyn,
    TcpConnect,
    TcpFin,
    TcpNull,
    TcpXmas,
    TcpAck,
    TcpWindow,
    TcpMaimon,
    Udp,
    TcpIdle,
}

/// How loudly the engine may log.
#[derive(Debug, Clone, Copy, PartialEq, Eq, Structural)]
pub enum LogLevel {
    Silent,
    Debug,
    Warn,
    Info,
}

/// The level a log flag denotes: `debug`, `warn` or `info` in any ASCII
/// case; anything else (including `none`) is silent.
pub open spec fn log_level_spec(s: Seq<char>) -> LogLevel {
    if lower_seq(s) == "debug"@ {
        LogLevel::Debug
    } else if lower_seq(s) == "warn"@ {
        LogLevel::Warn
    } else if lower_seq(s) == "info"@ {
        LogLevel::Info
    } else {
        LogLevel::Silent
    }
}

/// Reads the log-level flag.
pub fn log_level_parser(log: &str) -> (r: LogLevel)
    ensures
        r == log_level_spec(log@),
{
    proof {
        reveal_strlit("debug");
        reveal_strlit("warn");
        reveal_strlit("info");
        assert(lower_seq("debug"@) =~= "debug"@);
        assert(lower_seq("warn"@) =~= "warn"@);
        assert(lower_seq("info"@) =~= "info"@);
    }
    if eq_ignore_ascii_case(log, "debug") {
        LogLevel::Debug
    } else if eq_ignore_ascii_case(log, "warn") {
        LogLevel::Warn
    } else if eq_ignore_ascii_case(log, "info") {
        LogLevel::Info
    } else {
        LogLevel::Silent
    }
}

} // verus!
