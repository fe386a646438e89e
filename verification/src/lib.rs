//! Tracium: a network monitor's rules, verified.
//!
//! The library decides what a monitor of the home connection does with its
//! measurements: it reads the output of system tools, sums up probe cycles,
//! keeps the tables, detects outages, scores quality, rolls samples up, flags
//! trouble and writes the texts that the commands print. It measures nothing
//! itself.
//!
//! Decimal quantities are whole numbers of billionths of the unit that their
//! field names: a latency of 12.5 ms is `12_500_000_000`, and 100 percent is
//! `probe::FULL`. What a tool printed as a decimal, possibly negative, is a
//! `number::Reading`. Means are rounded down to a billionth. Printed, a
//! quantity is shown as the double nearest to it would be. Times are unix
//! milliseconds.

pub mod addr;
pub mod asn;
pub mod bandwidth;
pub mod devices;
pub mod diagnostics;
pub mod display;
pub mod dns;
pub mod export;
pub mod ifstat;
pub mod monitor;
pub mod netinfo;
pub mod number;
pub mod order;
pub mod page;
pub mod ping;
pub mod probe;
pub mod qoe;
pub mod records;
pub mod report;
pub mod rollup;
pub mod router;
pub mod rows;
pub mod sampling;
pub mod security;
pub mod speedtest;
pub mod stats;
pub mod store;
pub mod summary;
pub mod tables;
pub mod text;
pub mod traceroute;
pub mod validity;
pub mod watch;
pub mod wifi;
