use monitor_agent_freebsd::disk::{disk_usage, f2s, real_mount_points, skip_fstype, FsStat, Mount};
use monitor_agent_freebsd::procs::{conn_counts, inpcb_count, ProcScan, ProcStep};
use monitor_agent_freebsd::sysctl::{cpu_info, os_name, sysctl_boottime_secs, sysctl_string, sysctl_u64, uptime, virtualization};

fn mount(fstype: &str, from: &str, on: &str) -> Mount {
    Mount { fstype: fstype.to_string(), from: from.to_string(), on: on.to_string() }
}

fn record(len: u32) -> Vec<u8> {
    let mut r = vec![0xaau8; len as usize];
    r[..4].copy_from_slice(&len.to_le_bytes());
    r
}

fn text(s: &str) -> Option<String> {
    Some(s.to_string())
}

#[test]
fn texts_lose_their_padding() {
    assert_eq!(sysctl_string(b"FreeBSD\0\0".to_vec()), text("FreeBSD"));
    assert_eq!(sysctl_string(b"a\0b\0".to_vec()), text("a\0b"));
    assert_eq!(sysctl_string("h\u{e9}\0".as_bytes().to_vec()), text("h\u{e9}"));
    assert_eq!(sysctl_string(vec![0, 0]), text(""));
    assert_eq!(sysctl_string(vec![]), None);
    // Not UTF-8: a stray byte, an overlong form, a surrogate, a cut character.
    for bad in [vec![0xff, 0], vec![0xc0, 0x80, 0], vec![0xed, 0xa0, 0x80], vec![b'a', 0xe2, 0x82]] {
        assert_eq!(sysctl_string(bad), None);
    }
}

#[test]
fn numbers_are_never_negative() {
    assert_eq!(sysctl_u64(Some(5)), Some(5));
    assert_eq!(sysctl_u64(Some(-5)), Some(0));
    assert_eq!(sysctl_u64(Some(i64::MAX)), Some(i64::MAX as u64));
    assert_eq!(sysctl_u64(None), None);
}

#[test]
fn uptime_counts_from_boot() {
    assert_eq!(sysctl_boottime_secs(Some(0)), Some(0));
    assert_eq!(sysctl_boottime_secs(Some(-1)), None);
    assert_eq!(sysctl_boottime_secs(None), None);
    assert_eq!(uptime(Some(100), 150), 50);
    assert_eq!(uptime(Some(150), 100), 0);
    assert_eq!(uptime(None, 100), 100);
}

#[test]
fn the_system_is_named_by_its_first_line() {
    assert_eq!(os_name(text("FreeBSD 14\nmore")), "FreeBSD 14");
    assert_eq!(os_name(text("FreeBSD 14\r\nmore")), "FreeBSD 14");
    assert_eq!(os_name(text("FreeBSD 14\r")), "FreeBSD 14\r");
    assert_eq!(os_name(text("a\r\r\nb")), "a\r");
    assert_eq!(os_name(text("\nb")), "");
    assert_eq!(os_name(text("\r\n")), "");
    assert_eq!(os_name(text("")), "FreeBSD");
    assert_eq!(os_name(None), "FreeBSD");
    for s in ["x", "x\n", "x\ny\nz", "\r", "é\r\nz", "\r\r\n"] {
        assert_eq!(text(&os_name(text(s))), s.lines().next().map(str::to_owned));
    }
}

#[test]
fn processors_and_hypervisor_have_fallbacks() {
    assert_eq!(cpu_info(text("Xeon"), Some(8)), ("Xeon".to_string(), 8));
    assert_eq!(cpu_info(None, Some(0)), ("unknown".to_string(), 1));
    assert_eq!(cpu_info(None, None), ("unknown".to_string(), 1));
    assert_eq!(cpu_info(None, Some(0x1_0000_0003)).1, 3);
    assert_eq!(virtualization(text("none")), "none");
    assert_eq!(virtualization(text("vmware")), "vmware");
    assert_eq!(virtualization(None), "none");
}

#[test]
fn fields_end_at_their_first_zero() {
    assert_eq!(f2s(b"zfs\0\0junk"), "zfs");
    assert_eq!(f2s(b"full"), "full");
    assert_eq!(f2s(b"\0x"), "");
    assert_eq!(f2s(&[b'/', 0xff, b'a', 0, b'b']), "/\u{fffd}a");
    assert_eq!(
        Mount::decode(b"ufs\0", b"/dev/ada0\0\0", b"/usr\0x"),
        mount("ufs", "/dev/ada0", "/usr")
    );
}

#[test]
fn every_built_in_type_is_left_out() {
    for t in [
        "devfs", "procfs", "fdescfs", "tmpfs", "nullfs", "linprocfs", "linsysfs", "unionfs", "fusefs", "nfs", "nfs4",
        "cifs", "smbfs", "nfsv4", "fusefs.sshfs",
    ] {
        assert!(skip_fstype(t), "{t}");
    }
    for t in ["zfs", "ufs", "", "msdosfs", "ext2fs", "dev"] {
        assert!(!skip_fstype(t), "{t}");
    }
}

#[test]
fn a_hidden_mount_table_leaves_the_root() {
    assert_eq!(real_mount_points(&vec![]), vec!["/".to_string()]);
    // A table of what does not count is no hidden table.
    assert_eq!(real_mount_points(&vec![mount("devfs", "devfs", "/dev")]), Vec::<String>::new());
}

#[test]
fn pools_and_mount_points_count_once() {
    let table = vec![
        mount("zfs", "zroot/jail", "/"),
        mount("devfs", "devfs", "/dev"),
        mount("zfs", "zroot/home", "/home"),
        mount("zfs", "tank", "/data"),
        mount("ufs", "/dev/ada0", "/usr"),
        mount("ufs", "/dev/ada1", "/usr"),
        mount("zfs", "other/usr", "/usr"),
        mount("nfs", "server:/x", "/x"),
    ];
    assert_eq!(real_mount_points(&table), vec!["/".to_string(), "/data".to_string(), "/usr".to_string()]);
}

#[test]
fn mounts_over_one_point_count_once() {
    let x = vec!["/x".to_string()];
    assert_eq!(real_mount_points(&vec![mount("zfs", "tank/a", "/x"), mount("ufs", "/dev/ada0", "/x")]), x);
    assert_eq!(real_mount_points(&vec![mount("ufs", "/dev/ada0", "/x"), mount("zfs", "tank/a", "/x")]), x);
    assert_eq!(real_mount_points(&vec![mount("zfs", "tank/a", "/x"), mount("zfs", "other/b", "/x")]), x);
    // What is mounted over something that does not count is seen.
    assert_eq!(real_mount_points(&vec![mount("tmpfs", "tmpfs", "/x"), mount("ufs", "/dev/ada0", "/x")]), x);
}

#[test]
fn only_the_last_mount_on_a_point_is_seen() {
    let nothing: Vec<String> = vec![];
    let ufs = |on: &str| mount("ufs", "/dev/ada0", on);
    let zfs = |from: &str, on: &str| mount("zfs", from, on);
    let on = |points: &[&str]| -> Vec<String> { points.iter().map(|p| p.to_string()).collect() };
    // A network filesystem over a real one is not asked.
    assert_eq!(real_mount_points(&vec![ufs("/x"), mount("nfs", "server:/x", "/x")]), nothing);
    // The pool is counted through the dataset that is seen, once.
    assert_eq!(real_mount_points(&vec![ufs("/x"), zfs("tank/a", "/x"), zfs("tank/b", "/y")]), on(&["/x"]));
    // A hidden dataset does not stand for its pool.
    assert_eq!(real_mount_points(&vec![zfs("tank/a", "/x"), ufs("/x"), zfs("tank/b", "/y")]), on(&["/x", "/y"]));
    // A point keeps its place in the table.
    assert_eq!(real_mount_points(&vec![ufs("/a"), ufs("/b"), ufs("/a")]), on(&["/a", "/b"]));
    assert_eq!(
        real_mount_points(&vec![ufs("/a"), mount("nfs", "server:/x", "/a"), ufs("/b"), ufs("/a")]),
        on(&["/a", "/b"])
    );
}

#[test]
fn disks_are_summed_in_their_units() {
    let stat = |frsize: u64, bsize: u64, blocks: u64, bfree: u64| FsStat { frsize, bsize, blocks, bfree };
    assert_eq!(disk_usage(&vec![]), (0, 0));
    assert_eq!(disk_usage(&vec![Some(stat(512, 4096, 100, 40)), None]), (51_200, 30_720));
    assert_eq!(disk_usage(&vec![Some(stat(0, 4096, 100, 100))]), (409_600, 0));
    let half = Some(stat(1, 1, u64::MAX / 2 + 1, 0));
    assert_eq!(disk_usage(&vec![half, half, half]), (u64::MAX, u64::MAX));
    assert!(stat(1, 1, u64::MAX, 0).sane());
    assert!(!stat(2, 1, u64::MAX, 0).sane());
    assert!(!stat(1, 1, 5, 6).sane());
}

#[test]
fn sockets_are_the_records_after_the_header() {
    let mut table = record(24);
    assert_eq!(inpcb_count(&table), 0);
    table.extend(record(8));
    table.extend(record(400));
    table.extend(record(4));
    assert_eq!(inpcb_count(&table), 3);
    // What is cut short, or tells no sane length, ends the walk.
    table.extend([1, 2, 3]);
    assert_eq!(inpcb_count(&table), 3);
    table.extend([0, 0, 0, 0, 0, 0, 0, 0]);
    assert_eq!(inpcb_count(&table), 3);
    let mut beyond = record(8);
    beyond.extend([200, 0, 0, 0, 1]);
    beyond.extend(record(8));
    assert_eq!(inpcb_count(&beyond), 0);
    let mut short = record(8);
    short.extend([3, 0, 0, 0]);
    assert_eq!(inpcb_count(&short), 0);
    assert_eq!(inpcb_count(&[]), 0);
    assert_eq!(inpcb_count(&[4, 0, 0]), 0);
    let mut tcp = record(8);
    tcp.extend(record(8));
    assert_eq!(conn_counts(&tcp, &record(8)), (1, 0));
    assert_eq!(conn_counts(&[], &tcp), (0, 1));
}

#[test]
fn processes_are_counted_by_the_first_record() {
    let mut scan = ProcScan::new(Some(1000));
    assert_eq!(scan.next(), ProcStep::Read(5096));
    let mut table = record(100);
    table.resize(750, 0);
    scan.accept(Some(table));
    assert_eq!(scan.next(), ProcStep::Done(7));
    scan.accept(Some(record(4)));
    assert_eq!(scan.next(), ProcStep::Done(7));
}

#[test]
fn a_grown_process_table_is_read_once_more() {
    let mut scan = ProcScan::new(Some(1000));
    scan.accept(None);
    assert_eq!(scan.next(), ProcStep::Read(6096));
    scan.accept(Some(record(4)));
    assert_eq!(scan.next(), ProcStep::Done(1));

    let mut refused = ProcScan::new(Some(1000));
    refused.accept(Some(vec![1, 2, 3]));
    assert_eq!(refused.next(), ProcStep::Read(6096));
    refused.accept(None);
    assert_eq!(refused.next(), ProcStep::Done(0));
    refused.accept(Some(record(4)));
    assert_eq!(refused.next(), ProcStep::Done(0));
}

#[test]
fn a_process_table_without_size_is_not_read() {
    assert_eq!(ProcScan::new(None).next(), ProcStep::Done(0));
    assert_eq!(ProcScan::new(Some(0)).next(), ProcStep::Done(0));
    let mut zero = ProcScan::new(Some(8));
    zero.accept(Some(vec![0; 8]));
    assert_eq!(zero.next(), ProcStep::Done(0));
}
