//! What the agent reports, and what it has to read for it.

use vstd::prelude::*;

use crate::collector::NetInterval;
use crate::cpu::CpuInterval;
use crate::disk::FsStat;
use crate::memory::PageCounts;
use crate::net::{IfAddr, IpAddr};

verus! {

/// What identifies the machine.
#[derive(Debug, Clone, PartialEq)]
pub struct Facts {
    pub hostname: String,
    pub os: String,
    pub kernel: String,
    pub arch: String,
    pub virt: String,
    pub cpu_name: String,
    pub cpu_cores: u32,
    pub mem_total: u64,
    pub swap_total: u64,
    pub disk_total: u64,
    pub agent_version: String,
    /// The host's own addresses, public ones first, absent where it holds none of
    /// the family. The hub sees only the family the agent connected over.
    pub ipv4: Option<IpAddr>,
    pub ipv6: Option<IpAddr>,
}

/// What was read of the machine's identity. A reading that failed is absent.
pub struct FactReadings {
    pub hostname: Option<String>,
    /// The version text of the system.
    pub version: Option<String>,
    /// The release of the kernel.
    pub release: Option<String>,
    pub arch: String,
    /// The hypervisor, in the kernel's words.
    pub guest: Option<String>,
    /// The name of the processors.
    pub model: Option<String>,
    pub cores: Option<u64>,
    pub pages: PageCounts,
    /// `(total, used)` bytes of swap space.
    pub swap: (u64, u64),
    /// The sizes of the counted filesystems, absent where one did not answer.
    pub disks: Vec<Option<FsStat>>,
    pub agent_version: String,
    pub interfaces: Vec<IfAddr>,
}

/// One sample of the machine's load. The load averages are no part of it: they
/// are reported as they are read.
#[derive(Debug, Clone, PartialEq)]
pub struct Metrics {
    /// Names the span over which `net_rx_total` and `net_tx_total` readings are
    /// comparable. The hub only tests it for equality, and a change makes it
    /// re-baseline rather than book the difference. The boot time serves: it
    /// changes when the counters restart at zero. A digest of the summed
    /// interfaces follows, so an interface joining the sum within one boot does
    /// not have its lifetime bytes booked as traffic.
    pub boot_id: String,
    /// The `--iface` this agent runs with, empty for the default rules. Shown by
    /// the panel.
    pub iface: String,
    pub uptime: u64,
    /// What passed on the processors since the last sample; the share that was
    /// not idle is the busy share, and zero where there is no interval.
    pub cpu: Option<CpuInterval>,
    pub mem_total: u64,
    pub mem_used: u64,
    pub swap_total: u64,
    pub swap_used: u64,
    pub disk_total: u64,
    pub disk_used: u64,
    /// Kernel lifetime byte counters. The hub accumulates these; the agent
    /// stores nothing and does not attempt to survive a reboot.
    pub net_rx_total: u64,
    pub net_tx_total: u64,
    /// The traffic since the last sample; the rates are zero where there is no
    /// interval.
    pub net: Option<NetInterval>,
    pub tcp: u32,
    pub udp: u32,
    pub procs: u32,
}

/// What was read for one sample. A reading that failed is absent, or empty
/// where it is a table.
pub struct MetricReadings {
    /// Nanoseconds on a clock that never goes back.
    pub at: u128,
    /// Seconds since 1970.
    pub now: u64,
    /// The seconds of the kernel's boot time.
    pub boot_sec: Option<i64>,
    /// The clocks of all processors, summed into one row.
    pub clocks: Option<Vec<i64>>,
    /// The clocks of the processors, a row for each.
    pub clock_rows: Option<Vec<i64>>,
    pub pages: PageCounts,
    /// `(total, used)` bytes of swap space.
    pub swap: (u64, u64),
    /// The sizes of the counted filesystems, absent where one did not answer.
    pub disks: Vec<Option<FsStat>>,
    pub interfaces: Vec<IfAddr>,
    /// The kernel's tables of sockets.
    pub tcp: Vec<u8>,
    pub udp: Vec<u8>,
    pub procs: u32,
}

} // verus!
