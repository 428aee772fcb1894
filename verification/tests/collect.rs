use monitor_agent_freebsd::collector::{Collector, NetInterval};
use monitor_agent_freebsd::cpu::{busy_interval, cpu_times, machine_times, CpuInterval};
use monitor_agent_freebsd::disk::FsStat;
use monitor_agent_freebsd::epoch::epoch;
use monitor_agent_freebsd::ifaces::{refusal, skip_iface, Ifaces};
use monitor_agent_freebsd::memory::{memory, PageCounts, SwapScan, XswDev};
use monitor_agent_freebsd::net::{addresses, is_public, own_address, pick, raw_if_counters, totals, Held, IfAddr, IfData, IfaRecord, IpAddr};
use monitor_agent_freebsd::report::{FactReadings, MetricReadings};

fn names(list: &[&str]) -> Vec<String> {
    list.iter().map(|s| s.to_string()).collect()
}

fn sample(list: &[(&str, u64, u64)]) -> Vec<(String, u64, u64)> {
    list.iter().map(|(n, r, t)| (n.to_string(), *r, *t)).collect()
}

/// The busy share as it is printed.
fn percent(interval: Option<CpuInterval>) -> f32 {
    interval.map_or(0.0, |i| {
        let total = i.total as f32;
        ((total - i.idle as f32) / total * 100.0).clamp(0.0, 100.0)
    })
}

fn pages(free: u64, inactive: u64, laundry: u64, cache: u64) -> PageCounts {
    PageCounts {
        page_size: Some(4096),
        page_count: Some(1000),
        free: Some(free),
        inactive: Some(inactive),
        laundry: Some(laundry),
        cache: Some(cache),
    }
}

const NO_PAGES: PageCounts =
    PageCounts { page_size: None, page_count: None, free: None, inactive: None, laundry: None, cache: None };

fn v6(start: &[u8], end: &[u8]) -> IpAddr {
    IpAddr::V6(octets6(start, end))
}

fn octets6(start: &[u8], end: &[u8]) -> [u8; 16] {
    let mut octets = [0u8; 16];
    octets[..start.len()].copy_from_slice(start);
    octets[16 - end.len()..].copy_from_slice(end);
    octets
}

fn inet6(start: &[u8], end: &[u8]) -> IfaRecord {
    IfaRecord::Inet6 { octets: octets6(start, end), temporary: false }
}

fn stable(ip: IpAddr) -> Held {
    Held { ip, stable: true }
}

fn link(name: &str, rx: u64, tx: u64) -> IfAddr {
    let mut record = [0u8; 152];
    record[64..72].copy_from_slice(&rx.to_le_bytes());
    record[72..80].copy_from_slice(&tx.to_le_bytes());
    IfAddr { name: name.as_bytes().to_vec(), record: IfaRecord::Link(record) }
}

#[test]
fn memory_arithmetic_subtracts_reclaimable() {
    let page = 4096u64;
    let total = 1000 * page;
    let reclaimable = (100 + 200 + 50 + 25) * page;
    assert_eq!(total.saturating_sub(reclaimable), 625 * page);
    assert_eq!(memory(&pages(100, 200, 50, 25)), (total, 625 * page));
}

#[test]
fn busy_percent_needs_a_baseline_then_uses_deltas() {
    assert_eq!(percent(busy_interval((1000, 925), (1100, 950))), 75.0);
    assert_eq!(percent(busy_interval((1000, 925), (1100, 1025))), 0.0, "a fully idle interval is 0% busy");
    // A counter that moved backwards indicates a reboot, not 100% busy.
    assert_eq!(percent(busy_interval((1000, 925), (500, 400))), 0.0);
    // The first call has no baseline, so it reports 0.
    assert_eq!(percent(Collector::default().cpu_interval(Some((1000, 925)))), 0.0);
    assert_eq!(percent(Collector::default().cpu_interval(None)), 0.0);
}

#[test]
fn iface_rules_reject_malformed_entries() {
    assert!(Ifaces::parse("").is_ok());
    assert!(Ifaces::parse("em0,vtnet0").is_ok());
    assert!(Ifaces::parse("-wg0,em0").is_ok());
    assert!(Ifaces::parse("--x").is_err());
    assert!(Ifaces::parse("a b").is_err());
    assert!(Ifaces::parse(",").is_ok(), "empty entries are filtered before validation");
}

#[test]
fn iface_rules_exclude_the_known_virtuals() {
    let i = Ifaces::default();
    assert!(i.counts("em0"));
    assert!(i.counts("vtnet0"));
    assert!(!i.counts("lo0"));
    assert!(!i.counts("tun0"));
    assert!(!i.counts("bridge0"));
    assert!(!i.counts("epair0a"));
    // An explicit list overrides the rules.
    let only = Ifaces::parse("bridge0").unwrap();
    assert!(only.counts("bridge0"));
    assert!(!only.counts("em0"));
    // An exclusion wins over an inclusion.
    let mixed = Ifaces::parse("em0,-em0").unwrap();
    assert!(!mixed.counts("em0"));
}

#[test]
fn epoch_changes_when_the_interface_set_changes() {
    let a = epoch(1234, &names(&["em0", "lo0"]));
    let b = epoch(1234, &names(&["em0"]));
    let c = epoch(1234, &names(&["lo0", "em0"]));
    assert_ne!(a, b, "a changed set must change the epoch");
    assert_eq!(a, c, "order does not matter, the names are sorted");
    assert!(a.starts_with("1234/"), "the boot time leads");
}

#[test]
fn totals_sum_without_wrapping() {
    let counted = vec![("em0".into(), u64::MAX, 5), ("vtnet0".into(), 1, 7)];
    assert_eq!(totals(&counted), (u64::MAX, 12), "saturating, never wrapping");
}

#[test]
fn the_public_test_matches_the_hubs() {
    assert!(is_public(IpAddr::V4([203, 0, 113, 7])));
    assert!(!is_public(IpAddr::V4([10, 0, 0, 1])));
    assert!(!is_public(IpAddr::V4([100, 64, 0, 1])));
    assert!(!is_public(IpAddr::V4([198, 18, 0, 1])));
    assert!(is_public(v6(&[0x20, 0x01, 0x0d, 0xb8], &[1])));
    assert!(!is_public(v6(&[0xfd], &[1])));
    assert!(!is_public(v6(&[0xfe, 0x80], &[1])));
}

#[test]
fn pick_prefers_public_and_v4_leaves_v6_alone() {
    let held = vec![
        stable(IpAddr::V4([10, 0, 0, 5])),
        stable(IpAddr::V4([203, 0, 113, 7])),
        stable(v6(&[0xfe, 0x80], &[1])),
        stable(v6(&[0x24, 0x01, 0xdb, 0x00], &[5])),
    ];
    let (first, second) = pick(&held);
    assert_eq!(first, Some(IpAddr::V4([203, 0, 113, 7])));
    assert_eq!(second, Some(v6(&[0x24, 0x01, 0xdb, 0x00], &[5])));
}

#[test]
fn ifdata_size_is_pinned_at_compile_time() {
    assert_eq!(std::mem::size_of::<IfData>(), 152);
    assert_eq!(monitor_agent_freebsd::net::IF_DATA_SIZE, 152);
}

#[test]
fn swap_and_memory_survive_a_jail_with_no_swap() {
    let mut scan = SwapScan::new();
    assert_eq!(scan.next(), Some(0));
    scan.accept(None);
    assert_eq!(scan.next(), None);
    let (t, u) = scan.totals();
    assert_eq!(t, 0);
    assert_eq!(u, 0);
    assert_eq!(memory(&NO_PAGES), (0, 0));
}

#[test]
fn memory_stops_at_the_ends_of_its_counters() {
    let huge = PageCounts { page_count: Some(u64::MAX), free: Some(u64::MAX), ..pages(0, 1, 0, 0) };
    assert_eq!(memory(&huge), (u64::MAX, 0));
    // More reclaimable than there is leaves nothing in use.
    assert_eq!(memory(&pages(900, 900, 0, 0)), (4_096_000, 0));
    // A page has at least one byte.
    let empty_page = PageCounts { page_size: Some(0), ..pages(1, 2, 3, 4) };
    assert_eq!(memory(&empty_page), (1000, 990));
    let default_page = PageCounts { page_size: None, ..pages(0, 0, 0, 0) };
    assert_eq!(memory(&default_page), (4_096_000, 4_096_000));
}

#[test]
fn swap_sums_devices_until_one_is_not_told() {
    let dev = |nblks: i32, used: i32| XswDev { version: 1, nblks, used };
    let mut scan = SwapScan::new();
    scan.accept(Some(dev(2048, 100)));
    assert_eq!(scan.next(), Some(1));
    scan.accept(Some(dev(-1, -5)));
    scan.accept(Some(XswDev { version: 2, nblks: 7, used: 7 }));
    assert_eq!(scan.next(), None);
    scan.accept(Some(dev(9, 9)));
    assert_eq!(scan.totals(), (2048 * 512, 100 * 512));
}

#[test]
fn swap_asks_for_sixteen_devices() {
    let mut scan = SwapScan::new();
    let mut asked = Vec::new();
    while let Some(i) = scan.next() {
        asked.push(i);
        scan.accept(Some(XswDev { version: 1, nblks: i32::MAX, used: 1 }));
    }
    assert_eq!(asked, (0..16).collect::<Vec<u32>>());
    assert_eq!(scan.totals(), (16 * (i32::MAX as u64) * 512, 16 * 512));
}

#[test]
fn clocks_are_summed_row_by_row() {
    assert_eq!(cpu_times(&vec![1, 2, 3, 4]), None);
    assert_eq!(cpu_times(&vec![1, 2, 3, 4, 50]), Some((60, 50)));
    assert_eq!(cpu_times(&vec![1, 2, 3, 4, 50, 10, 20, 30, 40, 500]), Some((660, 550)));
    // A row that is cut short, and a clock below zero.
    assert_eq!(cpu_times(&vec![1, -2, 3, 4, 50, 7]), Some((65, 50)));
    let long = vec![i64::MAX; 15];
    assert_eq!(cpu_times(&long), Some((u64::MAX, u64::MAX)));
}

#[test]
fn the_summed_clocks_come_first() {
    let summed = Some(vec![1, 2, 3, 4, 50]);
    let rows = Some(vec![10, 0, 0, 0, 5, 10, 0, 0, 0, 7]);
    assert_eq!(machine_times(&summed, &rows), Some((60, 50)));
    assert_eq!(machine_times(&summed, &None), Some((60, 50)));
    assert_eq!(machine_times(&None, &rows), Some((32, 12)));
    assert_eq!(machine_times(&Some(vec![1, 2, 3, 4]), &rows), Some((32, 12)));
    assert_eq!(machine_times(&Some(vec![]), &Some(vec![9])), None);
    assert_eq!(machine_times(&None, &None), None);
}

#[test]
fn a_failed_clock_reading_keeps_the_baseline() {
    let mut c = Collector::default();
    assert_eq!(c.cpu_interval(Some((1000, 925))), None);
    assert_eq!(c.cpu_interval(None), None);
    assert_eq!(c.cpu_interval(Some((1100, 950))), Some(CpuInterval { total: 100, idle: 25 }));
    assert_eq!(c.cpu_interval(Some((1100, 950))), None, "no time passed");
    // An idle clock that went back counts as no idle time.
    assert_eq!(c.cpu_interval(Some((1200, 900))), Some(CpuInterval { total: 100, idle: 0 }));
}

#[test]
fn filters_are_trimmed_and_reported() {
    let mut c = Collector::new(Ifaces::parse(" em0 ,,\u{3000}-wg0\t, vtnet0").unwrap());
    let m = c.collect(&readings(0, vec![]));
    assert_eq!(m.iface, "em0,-wg0,vtnet0");
    // What is reported reads back as itself.
    let mut again = Collector::new(Ifaces::parse(&m.iface).unwrap());
    assert_eq!(again.collect(&readings(0, vec![])).iface, m.iface);
    assert_eq!(Collector::default().collect(&readings(0, vec![])).iface, "");
}

#[test]
fn a_refused_filter_names_the_entry() {
    let refused = |spec: &str| Ifaces::parse(spec).err();
    let says = |entry: &str| {
        Some(format!("--iface: {entry:?} is not an interface name; give full names separated by commas"))
    };
    assert_eq!(refused("em0, a b ,--x"), says("a b"));
    assert_eq!(refusal("'x'"), "--iface: 'x' is not an interface name; give full names separated by commas");
    assert_eq!(refused("em0,--x,a b"), says("--x"));
    assert_eq!(refused("-"), says("-"));
    assert_eq!(refused("- em0"), says("- em0"));
    assert_eq!(refused("em\"\t\u{7f}0"), says("em\"\t\u{7f}0"));
    assert_eq!(refused("--x"), Some("--iface: \"--x\" is not an interface name; give full names separated by commas".to_string()));
}

#[test]
fn white_space_is_the_unicode_property() {
    let listed = |c: u32| {
        matches!(c, 0x9..=0xd | 0x20 | 0x85 | 0xa0 | 0x1680 | 0x2000..=0x200a | 0x2028 | 0x2029 | 0x202f | 0x205f | 0x3000)
    };
    for c in (0..=0x10ffffu32).filter_map(char::from_u32) {
        let mut name = String::from("a");
        name.push(c);
        name.push('b');
        assert_eq!(Ifaces::parse(&name).is_err(), listed(c as u32), "{:x}", c as u32);
    }
}

#[test]
fn exclusions_narrow_the_default_rules() {
    let i = Ifaces::parse("-em0").unwrap();
    assert!(!i.counts("em0"));
    assert!(i.counts("em1"));
    assert!(!i.counts("lo0"));
    let listed = Ifaces::parse("lo0,em0,-em1").unwrap();
    assert!(listed.counts("lo0"));
    assert!(!listed.counts("em1"));
    assert!(!listed.counts("em2"));
}

#[test]
fn an_empty_filter_is_the_default() {
    let empty = Ifaces::parse(" , ").unwrap();
    for name in ["em0", "lo0", "vtnet0", "wg1", ""] {
        assert_eq!(empty.counts(name), Ifaces::default().counts(name));
    }
}

#[test]
fn every_built_in_prefix_is_left_out() {
    for p in [
        "lo", "tun", "tap", "wg", "bridge", "epair", "vnet", "pflog", "pfsync", "enc", "gif", "stf", "fwe", "vmnet",
        "tailscale", "zt",
    ] {
        assert!(skip_iface(p));
        assert!(skip_iface(&format!("{p}0")));
    }
    for p in ["", "l", "em0", "vtnet0", "igb0", "xlo0"] {
        assert!(!skip_iface(p));
    }
}

#[test]
fn epochs_are_pinned() {
    assert_eq!(epoch(0, &names(&[])), "0/cbf29ce484222325");
    assert_eq!(epoch(1234, &names(&["em0"])), "1234/c2ec4918f04fde25");
    assert_eq!(epoch(u64::MAX, &names(&["lo0", "em0"])), "18446744073709551615/49a5b43eb600801c");
    assert_eq!(epoch(10, &names(&["vtnet0", "em0"])), "10/a3cfda9a3f97c446");
    assert_eq!(epoch(7, &names(&["é0"])), "7/5feb531c1dfb4d43");
    // Digits are never cut from the hash.
    assert_eq!(epoch(1, &names(&["77kepQFQ8Kl"])), "1/0000000000000000");
}

#[test]
fn epochs_sort_by_bytes() {
    let a = epoch(1, &names(&["b", "a", "é", "z", "aa", "", "Z"]));
    let b = epoch(1, &names(&["", "Z", "a", "aa", "b", "z", "é"]));
    assert_eq!(a, b);
    // A duplicate is a different list.
    assert_ne!(epoch(1, &names(&["a"])), epoch(1, &names(&["a", "a"])));
}

#[test]
fn epochs_tell_apart_what_joins_apart() {
    assert_ne!(epoch(1, &names(&["ab"])), epoch(1, &names(&["a", "b"])));
    assert_ne!(epoch(1, &names(&["a"])), epoch(2, &names(&["a"])));
    assert_ne!(epoch(1, &names(&["a"])), epoch(11, &names(&["a"])));
    // The two exceptions: no name and one empty name, and equal hashes.
    assert_eq!(epoch(1, &names(&[])), epoch(1, &names(&[""])));
    assert_eq!(
        epoch(1, &names(&["8yn0iYCKYHlIj4-BwPqk"])),
        epoch(1, &names(&["GReLUrM4wMqfg9yzV3KQ"]))
    );
}

#[test]
fn rates_need_both_samples() {
    let mut c = Collector::default();
    assert_eq!(c.net_rate(&sample(&[("em0", 1000, 500)]), 10), None);
    // em1 joins with a lifetime counter, em0 moved on.
    assert_eq!(
        c.net_rate(&sample(&[("em0", 1500, 600), ("em1", 9999, 9999)]), 30),
        Some(NetInterval { nanos: 20, rx: 500, tx: 100 })
    );
    // em0 restarted, em1 is measured now.
    assert_eq!(
        c.net_rate(&sample(&[("em0", 3, 700), ("em1", 10000, 9999)]), 31),
        Some(NetInterval { nanos: 1, rx: 1, tx: 100 })
    );
    // No time passed, and a clock that went back.
    assert_eq!(c.net_rate(&sample(&[("em0", 4, 701)]), 31), None);
    assert_eq!(c.net_rate(&sample(&[("em0", 5, 702)]), 30), None);
    // The last sample is the baseline all the same.
    assert_eq!(
        c.net_rate(&sample(&[("em0", 6, 702)]), 31),
        Some(NetInterval { nanos: 1, rx: 1, tx: 0 })
    );
}

#[test]
fn rates_stop_at_the_end_of_their_counter() {
    let mut c = Collector::default();
    c.net_rate(&sample(&[("a", 0, 0), ("b", 0, 0)]), 0);
    assert_eq!(
        c.net_rate(&sample(&[("a", u64::MAX, 1), ("b", 1, 2)]), 1),
        Some(NetInterval { nanos: 1, rx: u64::MAX, tx: 3 })
    );
}

#[test]
fn a_name_listed_twice_keeps_its_last_counters() {
    let mut c = Collector::default();
    c.net_rate(&sample(&[("a", 5, 5), ("a", 1, 1)]), 0);
    assert_eq!(
        c.net_rate(&sample(&[("a", 5, 5), ("a", 1, 1)]), 1),
        Some(NetInterval { nanos: 1, rx: 4, tx: 4 })
    );
}

#[test]
fn standing_counters_show_no_traffic() {
    let mut c = Collector::default();
    let s = sample(&[("a", 5, 5), ("b", 1, 1)]);
    c.net_rate(&s, 0);
    assert_eq!(c.net_rate(&s, 1), Some(NetInterval { nanos: 1, rx: 0, tx: 0 }));
}

#[test]
fn counted_names_are_those_of_the_counters() {
    let raw = sample(&[("em0", 1, 2), ("lo0", 3, 4), ("em1", 5, 6)]);
    let c = Collector::default();
    assert_eq!(c.counted_ifaces(&raw), names(&["em0", "em1"]));
    assert_eq!(c.counted(&raw), sample(&[("em0", 1, 2), ("em1", 5, 6)]));
    let listed = Collector::new(Ifaces::parse("lo0,em9").unwrap());
    assert_eq!(listed.counted_ifaces(&raw), names(&["lo0"]));
    assert_eq!(listed.counted(&raw), sample(&[("lo0", 3, 4)]));
}

#[test]
fn link_records_tell_the_counters() {
    let list = vec![
        link("em0", 0x0102_0304_0506_0708, u64::MAX),
        IfAddr { name: b"em0".to_vec(), record: IfaRecord::Inet([10, 0, 0, 1]) },
        IfAddr { name: b"em1".to_vec(), record: IfaRecord::Other },
        IfAddr { name: vec![b'x', 0xff, b'y'], record: IfaRecord::Link([1; 152]) },
    ];
    assert_eq!(
        raw_if_counters(&list),
        sample(&[
            ("em0", 0x0102_0304_0506_0708, u64::MAX),
            ("x\u{fffd}y", 0x0101_0101_0101_0101, 0x0101_0101_0101_0101)
        ])
    );
}

#[test]
fn interface_records_are_read_field_by_field() {
    let mut record = [0u8; 152];
    for (i, b) in record.iter_mut().enumerate() {
        *b = i as u8;
    }
    let at = |i: usize| u64::from_le_bytes([record[i], record[i + 1], record[i + 2], record[i + 3], record[i + 4], record[i + 5], record[i + 6], record[i + 7]]);
    let d = IfData::decode(&record);
    assert_eq!((d.ifi_type, d.ifi_physical, d.ifi_addrlen), (0, 1, 2));
    assert_eq!((d.ifi_hdrlen, d.ifi_link_state, d.ifi_vhid), (3, 4, 5));
    assert_eq!(d.ifi_datalen, 0x0706);
    assert_eq!((d.ifi_mtu, d.ifi_metric), (0x0b0a_0908, 0x0f0e_0d0c));
    let read = [
        d.ifi_baudrate, d.ifi_ipackets, d.ifi_ierrors, d.ifi_opackets, d.ifi_oerrors, d.ifi_collisions, d.ibytes,
        d.obytes, d.ifi_imcasts, d.ifi_omcasts, d.ifi_iqdrops, d.ifi_oqdrops, d.ifi_noproto, d.ifi_hwassist,
        d.tail[0], d.tail[1], d.tail[2],
    ];
    for (k, v) in read.iter().enumerate() {
        assert_eq!(*v, at(16 + 8 * k));
    }
}

#[test]
fn addresses_leave_out_virtual_interfaces_and_link_local() {
    let on = |name: &str, record: IfaRecord| IfAddr { name: name.as_bytes().to_vec(), record };
    let list = vec![
        on("lo0", IfaRecord::Inet([127, 0, 0, 1])),
        on("tun0", IfaRecord::Inet([8, 8, 8, 8])),
        on("em0", inet6(&[0xfe, 0x80], &[1])),
        on("em0", inet6(&[0xfe, 0xbf], &[1])),
        link("em0", 1, 2),
        on("em0", IfaRecord::Inet([192, 168, 1, 2])),
        on("em0", IfaRecord::Inet([192, 168, 1, 3])),
    ];
    assert_eq!(addresses(&list), (Some(IpAddr::V4([192, 168, 1, 2])), None));
    let more = vec![
        on("em0", inet6(&[0xfe, 0xc0], &[1])),
        on("em0", inet6(&[0xfd], &[1])),
    ];
    assert_eq!(addresses(&more), (None, Some(v6(&[0xfe, 0xc0], &[1]))));
    assert_eq!(addresses(&vec![]), (None, None));
    assert_eq!(own_address("em0", &IfaRecord::Inet([10, 0, 0, 1])), Some(stable(IpAddr::V4([10, 0, 0, 1]))));
    assert_eq!(own_address("wg0", &IfaRecord::Inet([10, 0, 0, 1])), None);
    assert_eq!(own_address("em0", &IfaRecord::Other), None);
    assert_eq!(own_address("em0", &inet6(&[0x20], &[1])), Some(stable(v6(&[0x20], &[1]))));
    let temporary = IfaRecord::Inet6 { octets: octets6(&[0x20], &[1]), temporary: true };
    assert_eq!(own_address("em0", &temporary), Some(Held { ip: v6(&[0x20], &[1]), stable: false }));
}

#[test]
fn the_ends_of_the_ranges_are_private() {
    let public = |a: u8, b: u8, c: u8| is_public(IpAddr::V4([a, b, c, 1]));
    for (a, b, c) in [
        (0, 1, 1), (10, 255, 0), (100, 64, 0), (100, 127, 9), (127, 9, 9), (169, 254, 0), (172, 16, 0), (172, 31, 9),
        (192, 0, 0), (192, 168, 9), (198, 18, 0), (198, 19, 9), (224, 0, 0), (240, 1, 1), (255, 255, 255),
    ] {
        assert!(!public(a, b, c), "{a}.{b}.{c}");
    }
    for (a, b, c) in [
        (1, 1, 1), (9, 255, 255), (11, 0, 0), (100, 63, 0), (100, 128, 0), (126, 0, 0), (128, 0, 0), (169, 253, 0),
        (169, 255, 0), (172, 15, 0), (172, 32, 0), (192, 0, 1), (192, 1, 0), (192, 167, 0), (192, 169, 0),
        (198, 17, 0), (198, 20, 0), (223, 255, 255),
    ] {
        assert!(public(a, b, c), "{a}.{b}.{c}");
    }
    assert!(is_public(v6(&[0x20], &[])));
    assert!(is_public(v6(&[0x3f, 0xff], &[])));
    assert!(!is_public(v6(&[0x1f], &[])));
    assert!(!is_public(v6(&[0x40], &[])));
}

#[test]
fn pick_keeps_the_order_of_equals() {
    let a = IpAddr::V4([8, 8, 8, 8]);
    let b = IpAddr::V4([1, 1, 1, 1]);
    let c = IpAddr::V4([10, 0, 0, 1]);
    let d = IpAddr::V4([10, 0, 0, 2]);
    let (a, b, c, d) = (stable(a), stable(b), stable(c), stable(d));
    assert_eq!(pick(&vec![c, b, d, a]).0, Some(b.ip));
    assert_eq!(pick(&vec![d, c]).0, Some(d.ip));
    assert_eq!(pick(&vec![d, c]).1, None);
    assert_eq!(pick(&vec![]), (None, None));
}

#[test]
fn pick_prefers_a_stable_address_among_equally_public_ones() {
    let temporary = |ip: IpAddr| Held { ip, stable: false };
    let t = temporary(v6(&[0x20, 0x01], &[1]));
    let u = temporary(v6(&[0x20, 0x01], &[2]));
    let s = stable(v6(&[0x20, 0x01], &[3]));
    let r = stable(v6(&[0x20, 0x01], &[4]));
    let local = stable(v6(&[0xfd], &[5]));
    let fading = temporary(v6(&[0xfd], &[6]));
    assert_eq!(pick(&vec![t, s]).1, Some(s.ip));
    assert_eq!(pick(&vec![t, r, u, s]).1, Some(r.ip));
    assert_eq!(pick(&vec![u, t]).1, Some(u.ip));
    // Public comes before stable.
    assert_eq!(pick(&vec![local, t]).1, Some(t.ip));
    assert_eq!(pick(&vec![t, local]).1, Some(t.ip));
    assert_eq!(pick(&vec![fading, local]).1, Some(local.ip));
    // Through the interface list.
    let on = |start: &[u8], end: &[u8], temporary: bool| IfAddr {
        name: b"em0".to_vec(),
        record: IfaRecord::Inet6 { octets: octets6(start, end), temporary },
    };
    let list = vec![on(&[0xfd], &[5], false), on(&[0x20, 0x01], &[1], true), on(&[0x20, 0x01], &[3], false)];
    assert_eq!(addresses(&list), (None, Some(s.ip)));
}

fn readings(at: u128, interfaces: Vec<IfAddr>) -> MetricReadings {
    MetricReadings {
        at,
        now: 5000,
        boot_sec: Some(1234),
        clocks: None,
        clock_rows: None,
        pages: NO_PAGES,
        swap: (20, 10),
        disks: vec![],
        interfaces,
        tcp: vec![],
        udp: vec![],
        procs: 42,
    }
}

#[test]
fn a_sample_holds_what_was_read() {
    let mut c = Collector::default();
    let mut first = readings(1_000_000_000, vec![link("em0", 1000, 10), link("lo0", 7, 7)]);
    first.clocks = Some(vec![10, 0, 0, 0, 90]);
    let m = c.collect(&first);
    assert_eq!(m.boot_id, "1234/c2ec4918f04fde25");
    assert_eq!((m.uptime, m.procs), (3766, 42));
    assert_eq!((m.swap_total, m.swap_used), (20, 10));
    assert_eq!((m.net_rx_total, m.net_tx_total), (1000, 10));
    assert_eq!((m.cpu, m.net), (None, None));
    assert_eq!((m.tcp, m.udp), (0, 0));

    let mut second = readings(3_000_000_000, vec![link("em0", 5000, 30)]);
    second.clock_rows = Some(vec![50, 0, 0, 0, 20, 10, 0, 0, 0, 120]);
    second.boot_sec = Some(-1);
    second.pages = pages(100, 200, 50, 25);
    second.tcp = [8u8, 0, 0, 0, 1, 2, 3, 4, 4, 0, 0, 0, 5, 0, 0, 0, 9].to_vec();
    second.udp = [4u8, 0, 0, 0].to_vec();
    let m = c.collect(&second);
    assert_eq!(m.boot_id, "0/c2ec4918f04fde25");
    assert_eq!(m.uptime, 5000);
    assert_eq!(m.net, Some(NetInterval { nanos: 2_000_000_000, rx: 4000, tx: 20 }));
    assert_eq!(m.cpu, Some(CpuInterval { total: 100, idle: 50 }));
    assert_eq!(percent(m.cpu), 50.0);
    assert_eq!((m.mem_total, m.mem_used), (4_096_000, 2_560_000));
    assert_eq!((m.tcp, m.udp), (2, 0));
}

#[test]
fn facts_fall_back_where_the_kernel_is_silent() {
    let silent = || FactReadings {
        hostname: None,
        version: None,
        release: None,
        arch: "x86_64".to_string(),
        guest: None,
        model: None,
        cores: None,
        pages: NO_PAGES,
        swap: (0, 0),
        disks: vec![],
        agent_version: "1.2.3".to_string(),
        interfaces: vec![],
    };
    let c = Collector::default();
    let f = c.facts(silent());
    assert_eq!((f.hostname.as_str(), f.kernel.as_str()), ("unknown", "unknown"));
    assert_eq!((f.os.as_str(), f.virt.as_str(), f.cpu_name.as_str()), ("FreeBSD", "none", "unknown"));
    assert_eq!((f.arch.as_str(), f.agent_version.as_str()), ("x86_64", "1.2.3"));
    assert_eq!((f.ipv4, f.ipv6), (None, None));
    assert_eq!((f.cpu_cores, f.mem_total, f.swap_total, f.disk_total), (1, 0, 0, 0));

    let mut told = silent();
    told.hostname = Some("s1".to_string());
    told.version = Some("FreeBSD 14.1-RELEASE\nbuilt\n".to_string());
    told.release = Some("14.1".to_string());
    told.guest = Some("kvm".to_string());
    told.model = Some("AMD EPYC".to_string());
    told.cores = Some(16);
    told.pages = pages(0, 0, 0, 0);
    told.swap = (77, 3);
    told.disks = vec![Some(FsStat { frsize: 512, bsize: 4096, blocks: 100, bfree: 40 }), None];
    told.interfaces = vec![
        IfAddr { name: b"wg0".to_vec(), record: IfaRecord::Inet([8, 8, 8, 8]) },
        link("em0", 1, 2),
        IfAddr { name: b"em0".to_vec(), record: IfaRecord::Inet([10, 0, 0, 5]) },
        IfAddr { name: b"em0".to_vec(), record: inet6(&[0xfe, 0x80], &[1]) },
        IfAddr { name: b"em0".to_vec(), record: IfaRecord::Inet([203, 0, 113, 7]) },
        IfAddr { name: b"em0".to_vec(), record: inet6(&[0xfd], &[1]) },
    ];
    let f = c.facts(told);
    assert_eq!((f.hostname.as_str(), f.os.as_str(), f.kernel.as_str()), ("s1", "FreeBSD 14.1-RELEASE", "14.1"));
    assert_eq!((f.virt.as_str(), f.cpu_name.as_str(), f.cpu_cores), ("kvm", "AMD EPYC", 16));
    assert_eq!((f.mem_total, f.swap_total, f.disk_total), (4_096_000, 77, 51_200));
    assert_eq!(f.ipv4, Some(IpAddr::V4([203, 0, 113, 7])));
    assert_eq!(f.ipv6, Some(v6(&[0xfd], &[1])));
}
