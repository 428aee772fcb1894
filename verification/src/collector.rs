//! The collector: what the agent remembers between two samples, and the facts
//! and metrics it makes of what was read.

use vstd::hash_map::StringHashMap;
use vstd::prelude::*;

use crate::bytes::{capped, left_over};
use crate::cpu::{busy_interval, interval_between, machine_times, reply_times, CpuInterval};
use crate::disk::{all_sane, disk_usage, total_bytes, used_bytes};
use crate::epoch::{epoch, epoch_text};
use crate::ifaces::{Ifaces, IfacesView};
use crate::memory::memory;
use crate::net::{
    addresses, chosen, counters, held_address, link_counter, raw_if_counters, rx_sum, totals,
    tx_sum, IfAddr,
};
use crate::procs::{conn_counts, is_countable, socket_count};
use crate::report::{FactReadings, Facts, MetricReadings, Metrics};
use crate::sysctl::{
    boot_time, core_count, cpu_info, os_name, reading_or, string_or, sysctl_boottime_secs,
    system_name, text_or, uptime, virtualization,
};
use crate::text::texts;

verus! {

/// The bytes that came and went between two samples, and the nanoseconds
/// between them. The rates are the bytes by the time.
#[derive(Clone, Copy, Debug, PartialEq, Eq)]
pub struct NetInterval {
    pub nanos: u128,
    pub rx: u64,
    pub tx: u64,
}

/// What the agent remembers: the traffic filter, the last processor clocks, and
/// when the last traffic sample was taken and each counted interface's
/// counters in it.
#[verifier::ext_equal]
pub struct CollectorView {
    pub ifaces: IfacesView,
    pub prev_cpu: Option<(u64, u64)>,
    pub prev_net_at: Option<u128>,
    pub prev_net: Map<Seq<char>, (u64, u64)>,
}

/// The counters of a sample by interface name, the last where a name occurs
/// twice.
pub open spec fn by_name(sample: Seq<(Seq<char>, u64, u64)>) -> Map<Seq<char>, (u64, u64)>
    decreases sample.len(),
{
    if sample.len() == 0 {
        Map::empty()
    } else {
        by_name(sample.drop_last()).insert(
            sample.last().0,
            (sample.last().1, sample.last().2),
        )
    }
}

/// The bytes that a counter received since an earlier sample. An interface that
/// was not in it brings a lifetime counter that is not this interval's traffic,
/// and one that restarted moved backwards: neither adds anything.
pub open spec fn rx_gain(
    prev: Map<Seq<char>, (u64, u64)>,
    counter: (Seq<char>, u64, u64),
) -> nat {
    if prev.contains_key(counter.0) {
        left_over(counter.1, prev[counter.0].0) as nat
    } else {
        0
    }
}

/// The bytes that a counter sent since an earlier sample.
pub open spec fn tx_gain(
    prev: Map<Seq<char>, (u64, u64)>,
    counter: (Seq<char>, u64, u64),
) -> nat {
    if prev.contains_key(counter.0) {
        left_over(counter.2, prev[counter.0].1) as nat
    } else {
        0
    }
}

/// The bytes received since an earlier sample, over all counters.
pub open spec fn rx_gained(
    prev: Map<Seq<char>, (u64, u64)>,
    sample: Seq<(Seq<char>, u64, u64)>,
) -> nat
    decreases sample.len(),
{
    if sample.len() == 0 {
        0
    } else {
        rx_gained(prev, sample.drop_last()) + rx_gain(prev, sample.last())
    }
}

/// The bytes sent since an earlier sample, over all counters.
pub open spec fn tx_gained(
    prev: Map<Seq<char>, (u64, u64)>,
    sample: Seq<(Seq<char>, u64, u64)>,
) -> nat
    decreases sample.len(),
{
    if sample.len() == 0 {
        0
    } else {
        tx_gained(prev, sample.drop_last()) + tx_gain(prev, sample.last())
    }
}

impl CollectorView {
    /// A collector that has taken no sample.
    pub open spec fn fresh(ifaces: IfacesView) -> Self {
        CollectorView { ifaces, prev_cpu: None, prev_net_at: None, prev_net: Map::empty() }
    }

    /// The counters of a list that are counted.
    pub open spec fn counted(
        self,
        raw: Seq<(Seq<char>, u64, u64)>,
    ) -> Seq<(Seq<char>, u64, u64)> {
        raw.filter(|c: (Seq<char>, u64, u64)| self.ifaces.counts(c.0))
    }

    /// What passed on the processors since the last reading.
    pub open spec fn cpu_interval(self, reading: Option<(u64, u64)>) -> Option<CpuInterval> {
        match (self.prev_cpu, reading) {
            (Some(prev), Some(now)) => interval_between(prev, now),
            _ => None,
        }
    }

    /// The traffic since the last sample: none where this is the first, or where
    /// no time passed.
    pub open spec fn net_interval(
        self,
        sample: Seq<(Seq<char>, u64, u64)>,
        now: u128,
    ) -> Option<NetInterval> {
        match self.prev_net_at {
            Some(at) => if now > at {
                Some(
                    NetInterval {
                        nanos: (now - at) as u128,
                        rx: capped(rx_gained(self.prev_net, sample)),
                        tx: capped(tx_gained(self.prev_net, sample)),
                    },
                )
            } else {
                None
            },
            None => None,
        }
    }

    /// The collector after a reading of the processor clocks. One that failed
    /// leaves the last reading in place.
    pub open spec fn after_cpu(self, reading: Option<(u64, u64)>) -> Self {
        CollectorView {
            prev_cpu: if reading is Some {
                reading
            } else {
                self.prev_cpu
            },
            ..self
        }
    }

    /// The collector after a traffic sample.
    pub open spec fn after_net(self, sample: Seq<(Seq<char>, u64, u64)>, now: u128) -> Self {
        CollectorView { prev_net_at: Some(now), prev_net: by_name(sample), ..self }
    }
}

/// The part of the agent that remembers. It is kept in memory only; a restarted
/// agent reports no rate once.
pub struct Collector {
    ifaces: Ifaces,
    prev_cpu: Option<(u64, u64)>,
    prev_net_at: Option<u128>,
    prev_net: StringHashMap<(u64, u64)>,
}

impl View for Collector {
    type V = CollectorView;

    closed spec fn view(&self) -> CollectorView {
        CollectorView {
            ifaces: self.ifaces@,
            prev_cpu: self.prev_cpu,
            prev_net_at: self.prev_net_at,
            prev_net: self.prev_net@,
        }
    }
}

impl Default for Collector {
    /// A collector that counts by the built-in rules.
    fn default() -> (collector: Self)
        ensures
            collector@ == CollectorView::fresh(
                (IfacesView { spec: Seq::empty(), only: Seq::empty(), skip: Seq::empty() }),
            ),
    {
        Collector::new(Ifaces::default())
    }
}

impl Collector {
    /// A collector with a traffic filter, before its first sample.
    pub fn new(ifaces: Ifaces) -> (collector: Self)
        ensures
            collector@ == CollectorView::fresh(ifaces@),
    {
        Collector { ifaces, prev_cpu: None, prev_net_at: None, prev_net: StringHashMap::new() }
    }

    /// The interfaces the traffic totals include, of those listed.
    pub fn counted_ifaces(&self, raw: &Vec<(String, u64, u64)>) -> (names: Vec<String>)
        ensures
            texts(names@) == self@.counted(counters(raw@)).map_values(
                |c: (Seq<char>, u64, u64)| c.0,
            ),
    {
        let counted: Vec<(String, u64, u64)> = self.counted(raw);
        names_of(&counted)
    }

    /// `(name, rx, tx)` of the counted interfaces, of those listed. The filter
    /// is that of [`Self::counted_ifaces`]: a drift between the two would make
    /// the startup log name interfaces the totals then ignore.
    pub fn counted(&self, raw: &Vec<(String, u64, u64)>) -> (counted: Vec<(String, u64, u64)>)
        ensures
            counters(counted@) == self@.counted(counters(raw@)),
    {
        let mut counted: Vec<(String, u64, u64)> = Vec::new();
        let ghost all = counters(raw@);
        let ghost pass = |c: (Seq<char>, u64, u64)| self@.ifaces.counts(c.0);
        proof {
            reveal(Seq::filter);
            assert(counters(counted@) =~= all.take(0).filter(pass));
        }
        for i in 0..raw.len()
            invariant
                all == counters(raw@),
                pass == (|c: (Seq<char>, u64, u64)| self@.ifaces.counts(c.0)),
                counters(counted@) == all.take(i as int).filter(pass),
        {
            let ghost so_far = counted@;
            proof {
                assert(all.take(i + 1) =~= all.take(i as int).push(all[i as int]));
                all.take(i as int).lemma_filter_push(all[i as int], pass);
            }
            if self.ifaces.counts(raw[i].0.as_str()) {
                counted.push((raw[i].0.clone(), raw[i].1, raw[i].2));
                assert(counters(counted@) =~= counters(so_far).push(all[i as int]));
            }
        }
        assert(all.take(raw.len() as int) =~= all);
        counted
    }

    /// What passed on the processors since the last reading. The first reading
    /// has no baseline and tells nothing rather than an average since boot.
    pub fn cpu_interval(&mut self, reading: Option<(u64, u64)>) -> (interval: Option<CpuInterval>)
        ensures
            interval == old(self)@.cpu_interval(reading),
            final(self)@ == old(self)@.after_cpu(reading),
    {
        match reading {
            Some(now) => {
                let interval: Option<CpuInterval> = match self.prev_cpu {
                    Some(prev) => busy_interval(prev, now),
                    None => None,
                };
                self.prev_cpu = Some(now);
                interval
            },
            None => None,
        }
    }

    /// The traffic since the last sample, per interface, over those in both
    /// samples. `now` is the nanoseconds on a clock that never goes back.
    pub fn net_rate(&mut self, counted: &Vec<(String, u64, u64)>, now: u128) -> (interval: Option<
        NetInterval,
    >)
        ensures
            interval == old(self)@.net_interval(counters(counted@), now),
            final(self)@ == old(self)@.after_net(counters(counted@), now),
    {
        let interval: Option<NetInterval> = match self.prev_net_at {
            Some(at) => if now > at {
                let (rx, tx) = self.gained(counted);
                Some(NetInterval { nanos: now - at, rx, tx })
            } else {
                None
            },
            None => None,
        };
        self.prev_net_at = Some(now);
        self.prev_net = index_by_name(counted);
        interval
    }

    /// What identifies the machine, from what was read. What the kernel does
    /// not tell is reported as unknown.
    pub fn facts(&self, read: FactReadings) -> (facts: Facts)
        requires
            all_sane(read.disks@),
        ensures
            facts.hostname@ == text_or(read.hostname, "unknown"@),
            facts.os@ == system_name(read.version),
            facts.kernel@ == text_or(read.release, "unknown"@),
            facts.arch@ == read.arch@,
            facts.virt@ == text_or(read.guest, "none"@),
            facts.cpu_name@ == text_or(read.model, "unknown"@),
            facts.cpu_cores == core_count(read.cores),
            facts.mem_total == read.pages.total(),
            facts.swap_total == read.swap.0,
            facts.disk_total == capped(total_bytes(read.disks@)),
            facts.agent_version@ == read.agent_version@,
            facts.ipv4 == chosen(
                read.interfaces@.filter_map(|entry: IfAddr| held_address(entry)),
                false,
            ),
            facts.ipv6 == chosen(
                read.interfaces@.filter_map(|entry: IfAddr| held_address(entry)),
                true,
            ),
    {
        let (ipv4, ipv6) = addresses(&read.interfaces);
        let (mem_total, _) = memory(&read.pages);
        let (cpu_name, cpu_cores) = cpu_info(read.model, read.cores);
        let (disk_total, _) = disk_usage(&read.disks);
        Facts {
            hostname: string_or(read.hostname, "unknown"),
            os: os_name(read.version),
            kernel: string_or(read.release, "unknown"),
            arch: read.arch,
            virt: virtualization(read.guest),
            cpu_name,
            cpu_cores,
            mem_total,
            swap_total: read.swap.0,
            disk_total,
            agent_version: read.agent_version,
            ipv4,
            ipv6,
        }
    }

    /// One sample, from what was read.
    pub fn collect(&mut self, read: &MetricReadings) -> (metrics: Metrics)
        requires
            all_sane(read.disks@),
            is_countable(read.tcp@),
            is_countable(read.udp@),
        ensures
            metrics.boot_id@ == epoch_text(
                reading_or(boot_time(read.boot_sec), 0),
                old(self)@.counted(listed_counters(*read)).map_values(
                    |c: (Seq<char>, u64, u64)| c.0,
                ),
            ),
            metrics.iface@ == old(self)@.ifaces.spec,
            metrics.uptime == left_over(read.now, reading_or(boot_time(read.boot_sec), 0)),
            metrics.cpu == old(self)@.cpu_interval(clock_reading(*read)),
            metrics.mem_total == read.pages.total(),
            metrics.mem_used == left_over(read.pages.total(), read.pages.reclaimable()),
            metrics.swap_total == read.swap.0,
            metrics.swap_used == read.swap.1,
            metrics.disk_total == capped(total_bytes(read.disks@)),
            metrics.disk_used == capped(used_bytes(read.disks@)),
            metrics.net_rx_total == capped(rx_sum(old(self)@.counted(listed_counters(*read)))),
            metrics.net_tx_total == capped(tx_sum(old(self)@.counted(listed_counters(*read)))),
            metrics.net == old(self)@.net_interval(
                old(self)@.counted(listed_counters(*read)),
                read.at,
            ),
            metrics.tcp == socket_count(read.tcp@),
            metrics.udp == socket_count(read.udp@),
            metrics.procs == read.procs,
            final(self)@ == old(self)@.after_net(
                old(self)@.counted(listed_counters(*read)),
                read.at,
            ).after_cpu(clock_reading(*read)),
    {
        let (mem_total, mem_used) = memory(&read.pages);
        let (disk_total, disk_used) = disk_usage(&read.disks);
        let raw: Vec<(String, u64, u64)> = raw_if_counters(&read.interfaces);
        let counted: Vec<(String, u64, u64)> = self.counted(&raw);
        let (net_rx_total, net_tx_total) = totals(&counted);
        let boot: Option<u64> = sysctl_boottime_secs(read.boot_sec);
        let since: u64 = match boot {
            Some(secs) => secs,
            None => 0,
        };
        let boot_id: String = epoch(since, &names_of(&counted));
        let net: Option<NetInterval> = self.net_rate(&counted, read.at);
        let (tcp, udp) = conn_counts(read.tcp.as_slice(), read.udp.as_slice());
        let clocks: Option<(u64, u64)> = machine_times(&read.clocks, &read.clock_rows);
        let cpu: Option<CpuInterval> = self.cpu_interval(clocks);
        Metrics {
            boot_id,
            iface: self.ifaces.spec().to_owned(),
            uptime: uptime(boot, read.now),
            cpu,
            mem_total,
            mem_used,
            swap_total: read.swap.0,
            swap_used: read.swap.1,
            disk_total,
            disk_used,
            net_rx_total,
            net_tx_total,
            net,
            tcp,
            udp,
            procs: read.procs,
        }
    }

    /// The bytes that came and went since the last sample.
    fn gained(&self, counted: &Vec<(String, u64, u64)>) -> (bytes: (u64, u64))
        ensures
            bytes.0 == capped(rx_gained(self@.prev_net, counters(counted@))),
            bytes.1 == capped(tx_gained(self@.prev_net, counters(counted@))),
    {
        let mut rx: u64 = 0;
        let mut tx: u64 = 0;
        let ghost all = counters(counted@);
        for i in 0..counted.len()
            invariant
                all == counters(counted@),
                rx == capped(rx_gained(self@.prev_net, all.take(i as int))),
                tx == capped(tx_gained(self@.prev_net, all.take(i as int))),
        {
            assert(all.take(i + 1).drop_last() =~= all.take(i as int));
            assert(all.take(i + 1).last() == all[i as int]);
            if let Some(prev) = self.prev_net.get(counted[i].0.as_str()) {
                rx = rx.saturating_add(counted[i].1.saturating_sub(prev.0));
                tx = tx.saturating_add(counted[i].2.saturating_sub(prev.1));
            }
        }
        assert(all.take(counted.len() as int) =~= all);
        (rx, tx)
    }
}

/// The counters that the interface list of a reading tells.
pub open spec fn listed_counters(read: MetricReadings) -> Seq<(Seq<char>, u64, u64)> {
    read.interfaces@.filter_map(|entry: IfAddr| link_counter(entry))
}

/// The processor clocks of a reading, `(total, idle)`: those of the summed row,
/// or else those of the row of each processor.
pub open spec fn clock_reading(read: MetricReadings) -> Option<(u64, u64)> {
    if reply_times(read.clocks) is Some {
        reply_times(read.clocks)
    } else {
        reply_times(read.clock_rows)
    }
}

/// The names of a list of counters.
fn names_of(counted: &Vec<(String, u64, u64)>) -> (names: Vec<String>)
    ensures
        texts(names@) == counters(counted@).map_values(|c: (Seq<char>, u64, u64)| c.0),
{
    let mut names: Vec<String> = Vec::new();
    for i in 0..counted.len()
        invariant
            names.len() == i,
            forall|j: int| 0 <= j < i ==> (#[trigger] names[j])@ == counted[j].0@,
    {
        names.push(counted[i].0.clone());
    }
    assert(texts(names@) =~= counters(counted@).map_values(|c: (Seq<char>, u64, u64)| c.0));
    names
}

/// The counters of a sample by interface name.
fn index_by_name(counted: &Vec<(String, u64, u64)>) -> (index: StringHashMap<(u64, u64)>)
    ensures
        index@ == by_name(counters(counted@)),
{
    let mut index: StringHashMap<(u64, u64)> = StringHashMap::new();
    let ghost all = counters(counted@);
    for i in 0..counted.len()
        invariant
            all == counters(counted@),
            index@ == by_name(all.take(i as int)),
    {
        assert(all.take(i + 1).drop_last() =~= all.take(i as int));
        assert(all.take(i + 1).last() == all[i as int]);
        index.insert(counted[i].0.clone(), (counted[i].1, counted[i].2));
    }
    assert(all.take(counted.len() as int) =~= all);
    index
}

/// An interface that was not in the last sample adds nothing to the traffic,
/// whatever its lifetime counters say.
pub proof fn law_joining_interface_adds_nothing(
    prev: Map<Seq<char>, (u64, u64)>,
    sample: Seq<(Seq<char>, u64, u64)>,
)
    ensures
        ({
            let known = sample.filter(|c: (Seq<char>, u64, u64)| prev.contains_key(c.0));
            &&& rx_gained(prev, sample) == rx_gained(prev, known)
            &&& tx_gained(prev, sample) == tx_gained(prev, known)
        }),
    decreases sample.len(),
{
    reveal(Seq::filter);
    let is_known = |c: (Seq<char>, u64, u64)| prev.contains_key(c.0);
    if sample.len() > 0 {
        law_joining_interface_adds_nothing(prev, sample.drop_last());
        let known = sample.drop_last().filter(is_known);
        assert(known.push(sample.last()).drop_last() =~= known);
    }
}

/// A counter that restarted, and so moved backwards, adds nothing: the traffic
/// is that of the counters that moved forwards.
pub proof fn law_restarted_counter_adds_nothing(
    prev: Map<Seq<char>, (u64, u64)>,
    sample: Seq<(Seq<char>, u64, u64)>,
)
    ensures
        rx_gained(prev, sample) == rx_gained(
            prev,
            sample.filter(
                |c: (Seq<char>, u64, u64)| prev.contains_key(c.0) && c.1 > prev[c.0].0,
            ),
        ),
        tx_gained(prev, sample) == tx_gained(
            prev,
            sample.filter(
                |c: (Seq<char>, u64, u64)| prev.contains_key(c.0) && c.2 > prev[c.0].1,
            ),
        ),
    decreases sample.len(),
{
    reveal(Seq::filter);
    let rx_moved = |c: (Seq<char>, u64, u64)| prev.contains_key(c.0) && c.1 > prev[c.0].0;
    let tx_moved = |c: (Seq<char>, u64, u64)| prev.contains_key(c.0) && c.2 > prev[c.0].1;
    if sample.len() > 0 {
        law_restarted_counter_adds_nothing(prev, sample.drop_last());
        let rx = sample.drop_last().filter(rx_moved);
        let tx = sample.drop_last().filter(tx_moved);
        assert(rx.push(sample.last()).drop_last() =~= rx);
        assert(tx.push(sample.last()).drop_last() =~= tx);
    }
}

/// The first sample reports no traffic and no processor time, and the second is
/// measured against it.
pub proof fn law_rates_need_a_baseline(
    ifaces: IfacesView,
    first: Seq<(Seq<char>, u64, u64)>,
    at: u128,
    second: Seq<(Seq<char>, u64, u64)>,
    now: u128,
    clocks: (u64, u64),
    later: (u64, u64),
)
    requires
        now > at,
    ensures
        ({
            let fresh = CollectorView::fresh(ifaces);
            let sampled = fresh.after_net(first, at).after_cpu(Some(clocks));
            &&& fresh.net_interval(first, at) is None
            &&& fresh.cpu_interval(Some(clocks)) is None
            &&& sampled.net_interval(second, now) == Some(
                NetInterval {
                    nanos: (now - at) as u128,
                    rx: capped(rx_gained(by_name(first), second)),
                    tx: capped(tx_gained(by_name(first), second)),
                },
            )
            &&& sampled.cpu_interval(Some(later)) == interval_between(clocks, later)
        }),
{
}

/// A sample read twice shows no traffic, where no interface is listed twice.
pub proof fn law_standing_counters_show_no_traffic(sample: Seq<(Seq<char>, u64, u64)>)
    requires
        forall|i: int, j: int|
            0 <= i < j < sample.len() ==> (#[trigger] sample[i]).0 != (#[trigger] sample[j]).0,
    ensures
        rx_gained(by_name(sample), sample) == 0,
        tx_gained(by_name(sample), sample) == 0,
{
    lemma_standing(sample, sample.len() as int);
}

/// The counters of a sample are found by their names.
proof fn lemma_by_name(sample: Seq<(Seq<char>, u64, u64)>, i: int)
    requires
        0 <= i < sample.len(),
        forall|i: int, j: int|
            0 <= i < j < sample.len() ==> (#[trigger] sample[i]).0 != (#[trigger] sample[j]).0,
    ensures
        by_name(sample).contains_key(sample[i].0),
        by_name(sample)[sample[i].0] == (sample[i].1, sample[i].2),
    decreases sample.len(),
{
    if i < sample.len() - 1 {
        let rest = sample.drop_last();
        assert forall|i: int, j: int| 0 <= i < j < rest.len() implies (#[trigger] rest[i]).0 != (
        #[trigger] rest[j]).0 by {
            assert(sample[i].0 != sample[j].0);
        }
        lemma_by_name(rest, i);
        assert(sample[i].0 != sample[sample.len() - 1].0);
    }
}

proof fn lemma_standing(sample: Seq<(Seq<char>, u64, u64)>, n: int)
    requires
        0 <= n <= sample.len(),
        forall|i: int, j: int|
            0 <= i < j < sample.len() ==> (#[trigger] sample[i]).0 != (#[trigger] sample[j]).0,
    ensures
        rx_gained(by_name(sample), sample.take(n)) == 0,
        tx_gained(by_name(sample), sample.take(n)) == 0,
        n == sample.len() ==> sample.take(n) == sample,
    decreases n,
{
    assert(n == sample.len() ==> sample.take(n) =~= sample);
    if n > 0 {
        lemma_standing(sample, n - 1);
        assert(sample.take(n).drop_last() =~= sample.take(n - 1));
        lemma_by_name(sample, n - 1);
    }
}

/// The traffic adds up: that of two parts of a sample is that of the one and that
/// of the other together. An interface that was in the last sample adds what its
/// counter went on by, and nothing where it went back; one that was not adds
/// nothing.
pub proof fn law_traffic_adds_up(
    prev: Map<Seq<char>, (u64, u64)>,
    a: Seq<(Seq<char>, u64, u64)>,
    b: Seq<(Seq<char>, u64, u64)>,
    counter: (Seq<char>, u64, u64),
)
    ensures
        rx_gained(prev, Seq::empty()) == 0,
        tx_gained(prev, Seq::empty()) == 0,
        rx_gained(prev, a + b) == rx_gained(prev, a) + rx_gained(prev, b),
        tx_gained(prev, a + b) == tx_gained(prev, a) + tx_gained(prev, b),
        prev.contains_key(counter.0) && counter.1 >= prev[counter.0].0 ==> prev[counter.0].0
            + rx_gained(prev, seq![counter]) == counter.1,
        prev.contains_key(counter.0) && counter.2 >= prev[counter.0].1 ==> prev[counter.0].1
            + tx_gained(prev, seq![counter]) == counter.2,
        prev.contains_key(counter.0) && counter.1 <= prev[counter.0].0 ==> rx_gained(
            prev,
            seq![counter],
        ) == 0,
        prev.contains_key(counter.0) && counter.2 <= prev[counter.0].1 ==> tx_gained(
            prev,
            seq![counter],
        ) == 0,
        !prev.contains_key(counter.0) ==> rx_gained(prev, seq![counter]) == 0 && tx_gained(
            prev,
            seq![counter],
        ) == 0,
    decreases b.len(),
{
    let none: Seq<(Seq<char>, u64, u64)> = Seq::empty();
    assert(seq![counter].drop_last() =~= none);
    assert(rx_gained(prev, none) == 0 && tx_gained(prev, none) == 0);
    if b.len() > 0 {
        law_traffic_adds_up(prev, a, b.drop_last(), counter);
        assert((a + b).drop_last() =~= a + b.drop_last());
    } else {
        assert(a + b =~= a);
    }
}

/// A sample is remembered by the names in it, each with the counters that it stood
/// with last.
pub proof fn law_last_counters_are_remembered(
    before: Seq<(Seq<char>, u64, u64)>,
    counter: (Seq<char>, u64, u64),
    after: Seq<(Seq<char>, u64, u64)>,
)
    requires
        forall|i: int| 0 <= i < after.len() ==> (#[trigger] after[i]).0 != counter.0,
    ensures
        !by_name(after).contains_key(counter.0),
        by_name(before.push(counter) + after).contains_key(counter.0),
        by_name(before.push(counter) + after)[counter.0] == (counter.1, counter.2),
    decreases after.len(),
{
    let all = before.push(counter) + after;
    if after.len() > 0 {
        let rest = after.drop_last();
        assert(after[after.len() - 1].0 != counter.0);
        assert forall|i: int| 0 <= i < rest.len() implies (#[trigger] rest[i]).0 != counter.0 by {
            assert(rest[i] == after[i]);
        }
        law_last_counters_are_remembered(before, counter, rest);
        assert(all.drop_last() =~= before.push(counter) + rest);
    } else {
        assert(all =~= before.push(counter));
        assert(all.drop_last() =~= before);
    }
}

/// The counted interfaces are picked one by one: of two lists those of the one and
/// then those of the other, and of one interface itself where the filter counts
/// it.
pub proof fn law_interfaces_are_counted_one_by_one(
    state: CollectorView,
    a: Seq<(Seq<char>, u64, u64)>,
    b: Seq<(Seq<char>, u64, u64)>,
    counter: (Seq<char>, u64, u64),
)
    ensures
        state.counted(a + b) == state.counted(a) + state.counted(b),
        state.ifaces.counts(counter.0) ==> state.counted(seq![counter]) == seq![counter],
        !state.ifaces.counts(counter.0) ==> state.counted(seq![counter]).len() == 0,
{
    let pass = |c: (Seq<char>, u64, u64)| state.ifaces.counts(c.0);
    let none: Seq<(Seq<char>, u64, u64)> = Seq::empty();
    Seq::filter_distributes_over_add(a, b, pass);
    reveal(Seq::filter);
    none.lemma_filter_push(counter, pass);
    assert(none.push(counter) =~= seq![counter]);
    assert(none.filter(pass) =~= none);
}

/// The traffic of a sample is told where there was a sample before and time has
/// passed since: the time between the two, and what every counter of this one
/// gained on the last.
pub proof fn law_traffic_is_told_over_the_time_between(
    state: CollectorView,
    sample: Seq<(Seq<char>, u64, u64)>,
    at: u128,
    now: u128,
)
    ensures
        state.prev_net_at is None ==> state.net_interval(sample, now) is None,
        state.prev_net_at == Some(at) && now <= at ==> state.net_interval(sample, now) is None,
        state.prev_net_at == Some(at) && now > at ==> {
            &&& state.net_interval(sample, now) matches Some(interval)
            &&& at + interval.nanos == now
            &&& interval.rx == capped(rx_gained(state.prev_net, sample))
            &&& interval.tx == capped(tx_gained(state.prev_net, sample))
        },
{
}

/// A collector starts without a sample. A traffic sample leaves its time and its
/// counters and changes nothing else; a reading of the clocks leaves itself and
/// changes nothing else, and one that failed changes nothing.
pub proof fn law_samples_are_remembered(
    ifaces: IfacesView,
    state: CollectorView,
    sample: Seq<(Seq<char>, u64, u64)>,
    now: u128,
    clocks: (u64, u64),
)
    ensures
        CollectorView::fresh(ifaces) == (CollectorView {
            ifaces,
            prev_cpu: None,
            prev_net_at: None,
            prev_net: Map::empty(),
        }),
        state.after_net(sample, now).ifaces == state.ifaces,
        state.after_net(sample, now).prev_cpu == state.prev_cpu,
        state.after_net(sample, now).prev_net_at == Some(now),
        state.after_net(sample, now).prev_net == by_name(sample),
        state.after_cpu(Some(clocks)).ifaces == state.ifaces,
        state.after_cpu(Some(clocks)).prev_cpu == Some(clocks),
        state.after_cpu(Some(clocks)).prev_net_at == state.prev_net_at,
        state.after_cpu(Some(clocks)).prev_net == state.prev_net,
        state.after_cpu(None) == state,
{
}

/// The processor time of a reading is told against the last that was taken, and
/// not at all where either is missing.
pub proof fn law_clocks_are_told_against_the_last_reading(
    state: CollectorView,
    prev: (u64, u64),
    now: (u64, u64),
)
    ensures
        state.prev_cpu == Some(prev) ==> state.cpu_interval(Some(now)) == interval_between(
            prev,
            now,
        ),
        state.prev_cpu is None ==> state.cpu_interval(Some(now)) is None,
        state.cpu_interval(None) is None,
{
}

/// Of what is read for a sample the interface list tells the counters, record by
/// record, and the summed clocks come before those of each processor.
pub proof fn law_what_a_reading_tells(read: MetricReadings)
    ensures
        listed_counters(read) == read.interfaces@.filter_map(|e: IfAddr| link_counter(e)),
        reply_times(read.clocks) is Some ==> clock_reading(read) == reply_times(read.clocks),
        reply_times(read.clocks) is None ==> clock_reading(read) == reply_times(read.clock_rows),
{
}

} // verus!
