//! Metric collection logic of a FreeBSD monitoring agent.

pub mod bytes;
pub mod collector;
pub mod cpu;
pub mod disk;
pub mod epoch;
pub mod ifaces;
pub mod memory;
pub mod net;
pub mod procs;
pub mod report;
pub mod sysctl;
pub mod text;
