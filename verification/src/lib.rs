//! Verified core of a command-line TCP port scanner.
//!
//! The library holds everything about the scanner that can be stated and
//! proved: how the port space is partitioned across workers, how command-line
//! arguments resolve to a target, how IP address text is parsed, and how the
//! final report is sorted and formatted. The surrounding binary only performs
//! the network probes and threading and feeds plain values through these
//! functions.

pub mod args;
pub mod digits;
pub mod ip;
pub mod report;
pub mod stride;
