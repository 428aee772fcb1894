//! Network interfaces: their byte counters and the addresses they hold.

use vstd::prelude::*;

use crate::bytes::{capped, le_u16, le_u32, le_u64, le_value, lossy_text, text_of};
use crate::ifaces::{is_skipped_iface, skip_iface};

verus! {

/// The size of the kernel's interface data record.
pub const IF_DATA_SIZE: usize = 152;

/// The kernel's interface data record (`struct if_data` of net/if.h), as
/// FreeBSD 14 lays it out on amd64: a header of bytes and words, then the
/// counters, the bytes received and sent at offsets 64 and 72. The unions at
/// the tail are read by nothing here.
pub struct IfData {
    pub ifi_type: u8,
    pub ifi_physical: u8,
    pub ifi_addrlen: u8,
    pub ifi_hdrlen: u8,
    pub ifi_link_state: u8,
    pub ifi_vhid: u8,
    pub ifi_datalen: u16,
    pub ifi_mtu: u32,
    pub ifi_metric: u32,
    pub ifi_baudrate: u64,
    pub ifi_ipackets: u64,
    pub ifi_ierrors: u64,
    pub ifi_opackets: u64,
    pub ifi_oerrors: u64,
    pub ifi_collisions: u64,
    pub ibytes: u64,
    pub obytes: u64,
    pub ifi_imcasts: u64,
    pub ifi_omcasts: u64,
    pub ifi_iqdrops: u64,
    pub ifi_oqdrops: u64,
    pub ifi_noproto: u64,
    pub ifi_hwassist: u64,
    pub tail: [u64; 3],
}

/// The number in the `width` bytes of a record from `at` on.
pub open spec fn field(record: Seq<u8>, at: int, width: int) -> nat {
    le_value(record.subrange(at, at + width))
}

impl IfData {
    /// Reads a record.
    pub fn decode(record: &[u8; 152]) -> (data: Self)
        ensures
            data.ifi_type == record@[0],
            data.ifi_physical == record@[1],
            data.ifi_addrlen == record@[2],
            data.ifi_hdrlen == record@[3],
            data.ifi_link_state == record@[4],
            data.ifi_vhid == record@[5],
            data.ifi_datalen == field(record@, 6, 2),
            data.ifi_mtu == field(record@, 8, 4),
            data.ifi_metric == field(record@, 12, 4),
            data.ifi_baudrate == field(record@, 16, 8),
            data.ifi_ipackets == field(record@, 24, 8),
            data.ifi_ierrors == field(record@, 32, 8),
            data.ifi_opackets == field(record@, 40, 8),
            data.ifi_oerrors == field(record@, 48, 8),
            data.ifi_collisions == field(record@, 56, 8),
            data.ibytes == field(record@, 64, 8),
            data.obytes == field(record@, 72, 8),
            data.ifi_imcasts == field(record@, 80, 8),
            data.ifi_omcasts == field(record@, 88, 8),
            data.ifi_iqdrops == field(record@, 96, 8),
            data.ifi_oqdrops == field(record@, 104, 8),
            data.ifi_noproto == field(record@, 112, 8),
            data.ifi_hwassist == field(record@, 120, 8),
            data.tail@[0] == field(record@, 128, 8),
            data.tail@[1] == field(record@, 136, 8),
            data.tail@[2] == field(record@, 144, 8),
    {
        let buf: &[u8] = record.as_slice();
        IfData {
            ifi_type: buf[0],
            ifi_physical: buf[1],
            ifi_addrlen: buf[2],
            ifi_hdrlen: buf[3],
            ifi_link_state: buf[4],
            ifi_vhid: buf[5],
            ifi_datalen: le_u16(buf, 6),
            ifi_mtu: le_u32(buf, 8),
            ifi_metric: le_u32(buf, 12),
            ifi_baudrate: le_u64(buf, 16),
            ifi_ipackets: le_u64(buf, 24),
            ifi_ierrors: le_u64(buf, 32),
            ifi_opackets: le_u64(buf, 40),
            ifi_oerrors: le_u64(buf, 48),
            ifi_collisions: le_u64(buf, 56),
            ibytes: le_u64(buf, 64),
            obytes: le_u64(buf, 72),
            ifi_imcasts: le_u64(buf, 80),
            ifi_omcasts: le_u64(buf, 88),
            ifi_iqdrops: le_u64(buf, 96),
            ifi_oqdrops: le_u64(buf, 104),
            ifi_noproto: le_u64(buf, 112),
            ifi_hwassist: le_u64(buf, 120),
            tail: [le_u64(buf, 128), le_u64(buf, 136), le_u64(buf, 144)],
        }
    }
}

/// An address, by its bytes in network order.
#[derive(Clone, Copy, Debug, PartialEq, Eq)]
pub enum IpAddr {
    V4([u8; 4]),
    V6([u8; 16]),
}

/// An address that the machine holds, and whether it keeps it. Those of the first
/// family are stable, and those of the second unless the system made them up to
/// be dropped again.
#[derive(Clone, Copy, Debug, PartialEq, Eq)]
pub struct Held {
    pub ip: IpAddr,
    pub stable: bool,
}

/// What one record of the system's interface list carries: the data record of
/// the link, an address of either family, or something else.
pub enum IfaRecord {
    Link([u8; 152]),
    Inet([u8; 4]),
    Inet6 { octets: [u8; 16], temporary: bool },
    Other,
}

/// One record of the system's interface list, with the bytes of the name of
/// the interface it belongs to.
pub struct IfAddr {
    pub name: Vec<u8>,
    pub record: IfaRecord,
}

/// The name and the bytes received and sent that a link record tells.
pub open spec fn link_counter(entry: IfAddr) -> Option<(Seq<char>, u64, u64)> {
    match entry.record {
        IfaRecord::Link(record) => Some(
            (
                lossy_text(entry.name@),
                field(record@, 64, 8) as u64,
                field(record@, 72, 8) as u64,
            ),
        ),
        _ => None,
    }
}

/// The counters of a list, their names as texts.
pub open spec fn counters(list: Seq<(String, u64, u64)>) -> Seq<(Seq<char>, u64, u64)> {
    list.map_values(|c: (String, u64, u64)| (c.0@, c.1, c.2))
}

/// `(name, rx bytes, tx bytes)` of every link record, unfiltered, in the order
/// of the list. The counters are the kernel's lifetime counters.
pub fn raw_if_counters(list: &Vec<IfAddr>) -> (raw: Vec<(String, u64, u64)>)
    ensures
        counters(raw@) == list@.filter_map(|entry: IfAddr| link_counter(entry)),
{
    let mut raw: Vec<(String, u64, u64)> = Vec::new();
    let ghost tell = |entry: IfAddr| link_counter(entry);
    assert(counters(raw@) =~= list@.take(0).filter_map(tell));
    for i in 0..list.len()
        invariant
            tell == (|entry: IfAddr| link_counter(entry)),
            counters(raw@) == list@.take(i as int).filter_map(tell),
    {
        let ghost so_far = raw@;
        proof {
            list@.lemma_filter_map_take_succ(tell, i as int);
        }
        if let IfaRecord::Link(record) = &list[i].record {
            let data: IfData = IfData::decode(record);
            raw.push((text_of(list[i].name.as_slice()), data.ibytes, data.obytes));
            assert(counters(raw@) =~= counters(so_far) + seq![tell(list[i as int]).unwrap()]);
        }
        assert(counters(raw@) =~= list@.take(i + 1).filter_map(tell));
    }
    assert(list@.take(list.len() as int) =~= list@);
    raw
}

/// The bytes received, over all counters.
pub open spec fn rx_sum(list: Seq<(Seq<char>, u64, u64)>) -> nat
    decreases list.len(),
{
    if list.len() == 0 {
        0
    } else {
        rx_sum(list.drop_last()) + list.last().1 as nat
    }
}

/// The bytes sent, over all counters.
pub open spec fn tx_sum(list: Seq<(Seq<char>, u64, u64)>) -> nat
    decreases list.len(),
{
    if list.len() == 0 {
        0
    } else {
        tx_sum(list.drop_last()) + list.last().2 as nat
    }
}

/// Sums the lifetime byte counters of the counted interfaces, one count per
/// byte on the wire, never wrapping.
pub fn totals(counted: &Vec<(String, u64, u64)>) -> (total: (u64, u64))
    ensures
        total.0 == capped(rx_sum(counters(counted@))),
        total.1 == capped(tx_sum(counters(counted@))),
{
    let mut rx: u64 = 0;
    let mut tx: u64 = 0;
    let ghost all = counters(counted@);
    for i in 0..counted.len()
        invariant
            all == counters(counted@),
            rx == capped(rx_sum(all.take(i as int))),
            tx == capped(tx_sum(all.take(i as int))),
    {
        assert(all.take(i + 1).drop_last() =~= all.take(i as int));
        assert(all.take(i + 1).last() == all[i as int]);
        rx = rx.saturating_add(counted[i].1);
        tx = tx.saturating_add(counted[i].2);
    }
    assert(all.take(counted.len() as int) =~= all);
    (rx, tx)
}

/// Whether an address is of the second family.
pub open spec fn is_v6(ip: IpAddr) -> bool {
    ip is V6
}

/// The addresses that are routed over the whole network: of the first family
/// those outside the private, loopback, link-local, unspecified, shared,
/// assignment, benchmark, multicast and reserved ranges; of the second those
/// that begin with the bits 001.
pub open spec fn is_global(ip: IpAddr) -> bool {
    match ip {
        IpAddr::V4(octets) => {
            let a = octets@[0];
            let b = octets@[1];
            let c = octets@[2];
            !{
                ||| a == 0
                ||| a == 10
                ||| a == 100 && 64 <= b <= 127
                ||| a == 127
                ||| a == 169 && b == 254
                ||| a == 172 && 16 <= b <= 31
                ||| a == 192 && b == 0 && c == 0
                ||| a == 192 && b == 168
                ||| a == 198 && (b == 18 || b == 19)
                ||| a >= 224
            }
        },
        IpAddr::V6(octets) => 0x20 <= octets@[0] <= 0x3f,
    }
}

/// Whether an address is globally routable.
pub fn is_public(ip: IpAddr) -> (yes: bool)
    ensures
        yes == is_global(ip),
{
    match ip {
        IpAddr::V4(octets) => {
            let a: u8 = octets[0];
            let b: u8 = octets[1];
            let c: u8 = octets[2];
            assert((b & 0xc0 == 64) == (64 <= b <= 127)) by (bit_vector);
            assert((b & 0xfe == 18) == (b == 18 || b == 19)) by (bit_vector);
            assert((b & 0xf0 == 16) == (16 <= b <= 31)) by (bit_vector);
            let private: bool = a == 10 || (a == 172 && b & 0xf0 == 16) || (a == 192 && b == 168);
            let loopback: bool = a == 127;
            let link_local: bool = a == 169 && b == 254;
            !(private || loopback || link_local || a == 0 || a >= 224
                || (a == 100 && b & 0xc0 == 64) || (a == 192 && b == 0 && c == 0)
                || (a == 198 && b & 0xfe == 18))
        },
        IpAddr::V6(octets) => {
            let a: u8 = octets[0];
            assert((a & 0xe0 == 0x20) == (0x20 <= a <= 0x3f)) by (bit_vector);
            a & 0xe0 == 0x20
        },
    }
}

/// Whether one address is to be reported rather than another: a public one
/// before any other, and among equally public ones a stable one.
pub open spec fn better(a: Held, b: Held) -> bool {
    ||| is_global(a.ip) && !is_global(b.ip)
    ||| is_global(a.ip) == is_global(b.ip) && a.stable && !b.stable
}

/// Whether none of a list is better than an address.
pub open spec fn is_best(list: Seq<Held>, h: Held) -> bool {
    forall|j: int| 0 <= j < list.len() ==> !better(#[trigger] list[j], h)
}

/// The first of the family to which none of the family is better.
pub open spec fn chosen(held: Seq<Held>, v6: bool) -> Option<IpAddr> {
    let family = held.filter(|h: Held| is_v6(h.ip) == v6);
    let best = family.filter(|h: Held| is_best(family, h));
    if best.len() > 0 {
        Some(best.first().ip)
    } else {
        None
    }
}

/// The address of each family to report: a public one before any other, then a
/// stable one, and the first in the order of the list among equals.
pub fn pick(held: &Vec<Held>) -> (best: (Option<IpAddr>, Option<IpAddr>))
    ensures
        best.0 == chosen(held@, false),
        best.1 == chosen(held@, true),
{
    (best_of(held, false), best_of(held, true))
}

/// Whether one address is to be reported rather than another.
fn is_better(a: &Held, b: &Held) -> (yes: bool)
    ensures
        yes == better(*a, *b),
{
    let a_public: bool = is_public(a.ip);
    let b_public: bool = is_public(b.ip);
    (a_public && !b_public) || (a_public == b_public && a.stable && !b.stable)
}

/// The address of one family to report.
fn best_of(held: &Vec<Held>, v6: bool) -> (best: Option<IpAddr>)
    ensures
        best == chosen(held@, v6),
{
    let mut best: Option<Held> = None;
    let ghost in_family = |h: Held| is_v6(h.ip) == v6;
    let ghost mut at: int = 0;
    reveal(Seq::filter);
    for i in 0..held.len()
        invariant
            in_family == (|h: Held| is_v6(h.ip) == v6),
            match best {
                Some(b) => leads(held@.take(i as int).filter(in_family), at) && b
                    == held@.take(i as int).filter(in_family)[at],
                None => held@.take(i as int).filter(in_family).len() == 0,
            },
    {
        let h: Held = held[i];
        let ghost family = held@.take(i as int).filter(in_family);
        proof {
            assert(held@.take(i + 1) =~= held@.take(i as int).push(h));
            held@.take(i as int).lemma_filter_push(h, in_family);
        }
        let of_family: bool = match h.ip {
            IpAddr::V4(_) => !v6,
            IpAddr::V6(_) => v6,
        };
        if of_family {
            let replaces: bool = match &best {
                Some(b) => is_better(&h, b),
                None => true,
            };
            proof {
                lemma_leader_push(family, at, h);
            }
            if replaces {
                best = Some(h);
                proof {
                    at = family.len() as int;
                }
            }
        }
    }
    assert(held@.take(held.len() as int) =~= held@);
    match best {
        Some(b) => {
            proof {
                lemma_leader_is_first_best(held@.filter(in_family), at);
            }
            Some(b.ip)
        },
        None => None,
    }
}

/// Whether an element of a list is better than all before it, and none is better
/// than it.
spec fn leads(list: Seq<Held>, k: int) -> bool {
    &&& 0 <= k < list.len()
    &&& is_best(list, list[k])
    &&& forall|j: int| 0 <= j < k ==> better(list[k], #[trigger] list[j])
}

/// One more element leads where it is better than the one that led, or the
/// first.
proof fn lemma_leader_push(list: Seq<Held>, k: int, h: Held)
    requires
        list.len() > 0 ==> leads(list, k),
    ensures
        leads(
            list.push(h),
            if list.len() == 0 || better(h, list[k]) {
                list.len() as int
            } else {
                k
            },
        ),
{
    let more = list.push(h);
    if list.len() > 0 {
        assert forall|j: int| 0 <= j < list.len() implies !better(#[trigger] more[j], list[k]) by {
            assert(!better(list[j], list[k]));
        }
        if !better(h, list[k]) {
            assert forall|j: int| 0 <= j < k implies better(list[k], #[trigger] more[j]) by {
                assert(better(list[k], list[j]));
            }
        }
    }
}

/// A list that holds anything has an element that leads it.
proof fn lemma_leader(list: Seq<Held>) -> (k: int)
    requires
        list.len() > 0,
    ensures
        leads(list, k),
    decreases list.len(),
{
    let rest = list.drop_last();
    assert(list =~= rest.push(list.last()));
    let k = if rest.len() > 0 {
        lemma_leader(rest)
    } else {
        0
    };
    lemma_leader_push(rest, k, list.last());
    if rest.len() == 0 || better(list.last(), rest[k]) {
        rest.len() as int
    } else {
        k
    }
}

/// The element that leads a list is the first to which none is better.
proof fn lemma_leader_is_first_best(list: Seq<Held>, k: int)
    requires
        leads(list, k),
    ensures
        list.filter(|h: Held| is_best(list, h)).len() > 0,
        list.filter(|h: Held| is_best(list, h)).first() == list[k],
{
    let pass = |h: Held| is_best(list, h);
    list.lemma_filter_contains(pass, k);
    let i = lemma_first_passing(list, pass);
    assert(i <= k);
    if i < k {
        assert(better(list[k], list[i]));
    }
}

/// The first element that passes a filter is one that passes and has none that
/// passes before it.
proof fn lemma_first_passing<T>(list: Seq<T>, pass: spec_fn(T) -> bool) -> (i: int)
    requires
        list.filter(pass).len() > 0,
    ensures
        0 <= i < list.len(),
        list[i] == list.filter(pass).first(),
        pass(list[i]),
        forall|j: int| 0 <= j < i ==> !pass(#[trigger] list[j]),
    decreases list.len(),
{
    reveal(Seq::filter);
    let rest = list.drop_last();
    if rest.filter(pass).len() > 0 {
        let i = lemma_first_passing(rest, pass);
        assert forall|j: int| 0 <= j < i implies !pass(#[trigger] list[j]) by {
            assert(!pass(rest[j]));
        }
        i
    } else {
        let i = list.len() - 1;
        assert forall|j: int| 0 <= j < i implies !pass(#[trigger] list[j]) by {
            if pass(list[j]) {
                rest.lemma_filter_contains(pass, j);
            }
        }
        i
    }
}

/// One filter after the other is a filter for both.
proof fn lemma_filter_twice<T>(list: Seq<T>, outer: spec_fn(T) -> bool, inner: spec_fn(T) -> bool)
    ensures
        list.filter(outer).filter(inner) == list.filter(|x: T| outer(x) && inner(x)),
    decreases list.len(),
{
    reveal(Seq::filter);
    if list.len() > 0 {
        let rest = list.drop_last();
        lemma_filter_twice(rest, outer, inner);
        rest.filter(outer).lemma_filter_push(list.last(), inner);
    }
}

/// A family that the machine holds an address of is reported by one of its
/// addresses, and one that it holds none of by none.
pub proof fn law_family_reported(held: Seq<Held>, v6: bool)
    ensures
        match chosen(held, v6) {
            Some(best) => is_v6(best) == v6 && exists|i: int|
                0 <= i < held.len() && (#[trigger] held[i]).ip == best,
            None => forall|i: int| 0 <= i < held.len() ==> is_v6((#[trigger] held[i]).ip) != v6,
        },
{
    let in_family = |h: Held| is_v6(h.ip) == v6;
    let family = held.filter(in_family);
    if family.len() > 0 {
        let k = lemma_leader(family);
        lemma_leader_is_first_best(family, k);
        law_public_then_stable_then_list_order(held, v6);
    } else {
        assert forall|i: int| 0 <= i < held.len() implies is_v6((#[trigger] held[i]).ip) != v6 by {
            if in_family(held[i]) {
                held.lemma_filter_contains(in_family, i);
            }
        }
    }
}

/// A public address is reported before any other, then a stable one, and among
/// equals the first in the order of the list: none of the family is better than
/// the reported address, and that one is better than all of the family that stand
/// before it.
pub proof fn law_public_then_stable_then_list_order(held: Seq<Held>, v6: bool)
    requires
        chosen(held, v6) is Some,
    ensures
        exists|i: int|
            {
                &&& 0 <= i < held.len()
                &&& (#[trigger] held[i]).ip == chosen(held, v6)->0
                &&& is_v6(held[i].ip) == v6
                &&& forall|j: int|
                    0 <= j < held.len() && is_v6(held[j].ip) == v6 ==> !better(
                        #[trigger] held[j],
                        held[i],
                    )
                &&& forall|j: int|
                    0 <= j < i && is_v6(held[j].ip) == v6 ==> better(held[i], #[trigger] held[j])
            },
{
    let in_family = |h: Held| is_v6(h.ip) == v6;
    let family = held.filter(in_family);
    let pass = |h: Held| is_best(family, h);
    let both = |h: Held| in_family(h) && pass(h);
    lemma_filter_twice(held, in_family, pass);
    assert(held.filter(both) == held.filter(|h: Held| in_family(h) && pass(h)));
    let i = lemma_first_passing(held, both);
    assert forall|j: int| 0 <= j < held.len() && is_v6(held[j].ip) == v6 implies !better(
        #[trigger] held[j],
        held[i],
    ) by {
        held.lemma_filter_contains(in_family, j);
        let k = family.index_of(held[j]);
        assert(!better(family[k], held[i]));
    }
    assert forall|j: int| 0 <= j < i && is_v6(held[j].ip) == v6 implies better(
        held[i],
        #[trigger] held[j],
    ) by {
        assert(!both(held[j]));
        let k = choose|k: int| 0 <= k < family.len() && better(#[trigger] family[k], held[j]);
        assert(!better(family[k], held[i]));
    }
}

/// The address that a record of an interface holds for this machine: none of an
/// interface that the built-in rules leave out, and no link-local address of the
/// second family, whose scope is noise elsewhere.
pub open spec fn address_on(name: Seq<char>, record: IfaRecord) -> Option<Held> {
    if is_skipped_iface(name) {
        None
    } else {
        match record {
            IfaRecord::Inet(octets) => Some(Held { ip: IpAddr::V4(octets), stable: true }),
            IfaRecord::Inet6 { octets, temporary } => if octets@[0] == 0xfe && 0x80 <= octets@[1]
                <= 0xbf {
                None
            } else {
                Some(Held { ip: IpAddr::V6(octets), stable: !temporary })
            },
            _ => None,
        }
    }
}

/// The address that a record of the interface list holds for this machine.
pub open spec fn held_address(entry: IfAddr) -> Option<Held> {
    address_on(lossy_text(entry.name@), entry.record)
}

/// The address that a record of an interface holds for this machine.
pub fn own_address(name: &str, record: &IfaRecord) -> (own: Option<Held>)
    ensures
        own == address_on(name@, *record),
{
    if skip_iface(name) {
        return None;
    }
    match record {
        IfaRecord::Inet(octets) => Some(Held { ip: IpAddr::V4(*octets), stable: true }),
        IfaRecord::Inet6 { octets, temporary } => {
            let second: u8 = octets[1];
            assert((second & 0xc0 == 0x80) == (0x80 <= second <= 0xbf)) by (bit_vector);
            if octets[0] == 0xfe && second & 0xc0 == 0x80 {
                None
            } else {
                Some(Held { ip: IpAddr::V6(*octets), stable: !*temporary })
            }
        },
        _ => None,
    }
}

/// One address of each family the machine holds, public first, then stable.
pub fn addresses(list: &Vec<IfAddr>) -> (best: (Option<IpAddr>, Option<IpAddr>))
    ensures
        best.0 == chosen(list@.filter_map(|entry: IfAddr| held_address(entry)), false),
        best.1 == chosen(list@.filter_map(|entry: IfAddr| held_address(entry)), true),
{
    let mut held: Vec<Held> = Vec::new();
    let ghost holds = |entry: IfAddr| held_address(entry);
    assert(held@ =~= list@.take(0).filter_map(holds));
    for i in 0..list.len()
        invariant
            holds == (|entry: IfAddr| held_address(entry)),
            held@ == list@.take(i as int).filter_map(holds),
    {
        proof {
            list@.lemma_filter_map_take_succ(holds, i as int);
        }
        let name: String = text_of(list[i].name.as_slice());
        if let Some(own) = own_address(name.as_str(), &list[i].record) {
            held.push(own);
        }
        assert(held@ =~= list@.take(i + 1).filter_map(holds));
    }
    assert(list@.take(list.len() as int) =~= list@);
    pick(&held)
}

/// A link record tells the name of its interface, the bytes received from the
/// eight bytes at 64 and those sent from the eight bytes at 72. No other record
/// tells counters.
pub proof fn law_link_records_tell_counters(entry: IfAddr, record: [u8; 152])
    ensures
        entry.record == IfaRecord::Link(record) ==> link_counter(entry) == Some(
            (
                lossy_text(entry.name@),
                le_value(record@.subrange(64, 72)) as u64,
                le_value(record@.subrange(72, 80)) as u64,
            ),
        ),
        !(entry.record is Link) ==> link_counter(entry) is None,
{
}

/// The counters of a list keep their places and their numbers.
pub proof fn law_counters_keep_their_places(list: Seq<(String, u64, u64)>)
    ensures
        counters(list).len() == list.len(),
        forall|i: int|
            0 <= i < list.len() ==> #[trigger] counters(list)[i] == (
                list[i].0@,
                list[i].1,
                list[i].2,
            ),
{
}

/// The lifetime totals add up: those of two lists are those of the one and those
/// of the other together, and those of one counter are its own.
pub proof fn law_totals_add_up(
    a: Seq<(Seq<char>, u64, u64)>,
    b: Seq<(Seq<char>, u64, u64)>,
    counter: (Seq<char>, u64, u64),
)
    ensures
        rx_sum(Seq::empty()) == 0,
        tx_sum(Seq::empty()) == 0,
        rx_sum(seq![counter]) == counter.1,
        tx_sum(seq![counter]) == counter.2,
        rx_sum(a + b) == rx_sum(a) + rx_sum(b),
        tx_sum(a + b) == tx_sum(a) + tx_sum(b),
    decreases b.len(),
{
    let none: Seq<(Seq<char>, u64, u64)> = Seq::empty();
    assert(seq![counter].drop_last() =~= none);
    assert(rx_sum(none) == 0 && tx_sum(none) == 0);
    if b.len() > 0 {
        law_totals_add_up(a, b.drop_last(), counter);
        assert((a + b).drop_last() =~= a + b.drop_last());
    } else {
        assert(a + b =~= a);
    }
}

/// An address of the first family is public exactly where its 32-bit value lies
/// outside these blocks, each given by its first and last address.
pub proof fn law_public_v4_lies_outside_the_reserved_blocks(octets: [u8; 4])
    ensures
        ({
            let value = octets@[0] * 0x100_0000 + octets@[1] * 0x1_0000 + octets@[2] * 0x100
                + octets@[3];
            is_global(IpAddr::V4(octets)) <==> !{
                // 0.0.0.0 to 0.255.255.255.
                ||| value <= 0x00ff_ffff
                // 10.0.0.0 to 10.255.255.255.
                ||| 0x0a00_0000 <= value <= 0x0aff_ffff
                // 100.64.0.0 to 100.127.255.255.
                ||| 0x6440_0000 <= value <= 0x647f_ffff
                // 127.0.0.0 to 127.255.255.255.
                ||| 0x7f00_0000 <= value <= 0x7fff_ffff
                // 169.254.0.0 to 169.254.255.255.
                ||| 0xa9fe_0000 <= value <= 0xa9fe_ffff
                // 172.16.0.0 to 172.31.255.255.
                ||| 0xac10_0000 <= value <= 0xac1f_ffff
                // 192.0.0.0 to 192.0.0.255.
                ||| 0xc000_0000 <= value <= 0xc000_00ff
                // 192.168.0.0 to 192.168.255.255.
                ||| 0xc0a8_0000 <= value <= 0xc0a8_ffff
                // 198.18.0.0 to 198.19.255.255.
                ||| 0xc612_0000 <= value <= 0xc613_ffff
                // 224.0.0.0 to 255.255.255.255.
                ||| 0xe000_0000 <= value
            }
        }),
{
}

/// An address of the second family is public exactly where its first sixteen bits
/// lie between those of 2000:: and 3fff::.
pub proof fn law_public_v6_begins_with_2000_to_3fff(octets: [u8; 16])
    ensures
        is_global(IpAddr::V6(octets)) <==> 0x2000 <= octets@[0] * 0x100 + octets@[1] <= 0x3fff,
{
}

/// A public address is better than one that is not, whatever else; of two that are
/// equally public a stable one is better than one that is not; and no other is
/// better than another.
pub proof fn law_public_before_stable(a: Held, b: Held)
    ensures
        is_global(a.ip) && !is_global(b.ip) ==> better(a, b) && !better(b, a),
        is_global(a.ip) == is_global(b.ip) && a.stable && !b.stable ==> better(a, b) && !better(
            b,
            a,
        ),
        is_global(a.ip) == is_global(b.ip) && a.stable == b.stable ==> !better(a, b) && !better(
            b,
            a,
        ),
{
}

/// The reported address is one of its family that is held. Where any of the family
/// is public it is public; where any of those that are as public as it is stable it
/// is stable; and none that stands before it is as public and as stable. Without
/// an address of the family none is reported.
pub proof fn law_reported_address(held: Seq<Held>, v6: bool)
    ensures
        match chosen(held, v6) {
            Some(ip) => exists|i: int|
                {
                    &&& 0 <= i < held.len()
                    &&& (#[trigger] held[i]).ip == ip
                    &&& (ip is V6) == v6
                    &&& forall|j: int|
                        0 <= j < held.len() && ((#[trigger] held[j]).ip is V6) == v6 ==> {
                            &&& is_global(held[j].ip) ==> is_global(ip)
                            &&& is_global(held[j].ip) == is_global(ip) && held[j].stable
                                ==> held[i].stable
                            &&& j < i ==> !(is_global(held[j].ip) == is_global(ip)
                                && held[j].stable == held[i].stable)
                        }
                },
            None => forall|j: int|
                0 <= j < held.len() ==> ((#[trigger] held[j]).ip is V6) != v6,
        },
{
    law_family_reported(held, v6);
    if chosen(held, v6) is Some {
        law_public_then_stable_then_list_order(held, v6);
        let i = choose|i: int|
            {
                &&& 0 <= i < held.len()
                &&& (#[trigger] held[i]).ip == chosen(held, v6)->0
                &&& is_v6(held[i].ip) == v6
                &&& forall|j: int|
                    0 <= j < held.len() && is_v6(held[j].ip) == v6 ==> !better(
                        #[trigger] held[j],
                        held[i],
                    )
                &&& forall|j: int|
                    0 <= j < i && is_v6(held[j].ip) == v6 ==> better(held[i], #[trigger] held[j])
            };
        assert(held[i].ip == chosen(held, v6)->0);
        assert forall|j: int| 0 <= j < held.len() && ((#[trigger] held[j]).ip is V6) == v6 implies {
            &&& is_global(held[j].ip) ==> is_global(held[i].ip)
            &&& is_global(held[j].ip) == is_global(held[i].ip) && held[j].stable ==> held[i].stable
            &&& j < i ==> !(is_global(held[j].ip) == is_global(held[i].ip) && held[j].stable
                == held[i].stable)
        } by {
            assert(!better(held[j], held[i]));
            assert(j < i ==> better(held[i], held[j]));
        }
    }
}

/// An interface that the built-in rules leave out holds no address for the machine.
/// Any other holds its addresses of the first family, and those of the second but
/// fe80:: to febf::, which mean nothing elsewhere. What is not temporary is
/// stable.
pub proof fn law_own_addresses(
    entry: IfAddr,
    name: Seq<char>,
    v4: [u8; 4],
    v6: [u8; 16],
    temporary: bool,
)
    ensures
        held_address(entry) == address_on(lossy_text(entry.name@), entry.record),
        is_skipped_iface(name) ==> address_on(name, entry.record) is None,
        !(entry.record is Inet) && !(entry.record is Inet6) ==> address_on(
            name,
            entry.record,
        ) is None,
        !is_skipped_iface(name) ==> address_on(name, IfaRecord::Inet(v4)) == Some(
            Held { ip: IpAddr::V4(v4), stable: true },
        ),
        !is_skipped_iface(name) ==> address_on(
            name,
            (IfaRecord::Inet6 { octets: v6, temporary }),
        ) == if 0xfe80 <= v6@[0] * 0x100 + v6@[1] <= 0xfebf {
            None
        } else {
            Some(Held { ip: IpAddr::V6(v6), stable: !temporary })
        },
{
}

/// A field of a record is the number that its bytes stand for.
pub proof fn law_field_is_its_bytes(head: Seq<u8>, bytes: Seq<u8>, tail: Seq<u8>)
    ensures
        field(head + bytes + tail, head.len() as int, bytes.len() as int) == le_value(bytes),
{
    assert((head + bytes + tail).subrange(head.len() as int, (head.len() + bytes.len()) as int)
        =~= bytes);
}

} // verus!
