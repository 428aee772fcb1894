//! Memory and swap space.

use vstd::prelude::*;

use crate::bytes::{capped, capped_product, left_over};
use crate::sysctl::reading_or;

verus! {

/// The kernel's page counts, each absent where it could not be read.
#[derive(Clone, Copy, Debug, PartialEq, Eq)]
pub struct PageCounts {
    pub page_size: Option<u64>,
    pub page_count: Option<u64>,
    pub free: Option<u64>,
    pub inactive: Option<u64>,
    pub laundry: Option<u64>,
    pub cache: Option<u64>,
}

impl PageCounts {
    /// The bytes of a page: at least one, and 4096 where the kernel tells none.
    pub open spec fn page_bytes(self) -> nat {
        let size = reading_or(self.page_size, 4096);
        if size > 0 {
            size as nat
        } else {
            1
        }
    }

    /// All of the memory.
    pub open spec fn total(self) -> u64 {
        capped(reading_or(self.page_count, 0) as nat * self.page_bytes())
    }

    /// The pages that could be had for something else.
    pub open spec fn reclaimable_pages(self) -> nat {
        reading_or(self.free, 0) as nat + reading_or(self.inactive, 0) as nat + reading_or(
            self.laundry,
            0,
        ) as nat + reading_or(self.cache, 0) as nat
    }

    /// The memory that could be had for something else.
    pub open spec fn reclaimable(self) -> u64 {
        capped(self.reclaimable_pages() * self.page_bytes())
    }
}

/// `(total, used)` bytes of memory. What is active or wired is in use; what is
/// free, inactive, in the laundry or cached is reclaimable.
pub fn memory(pages: &PageCounts) -> (bytes: (u64, u64))
    ensures
        bytes.0 == pages.total(),
        bytes.1 == left_over(pages.total(), pages.reclaimable()),
{
    let size: u64 = value_or(pages.page_size, 4096);
    let page: u64 = if size > 0 { size } else { 1 };
    let total: u64 = capped_product(value_or(pages.page_count, 0), page);
    let free: u64 = value_or(pages.free, 0);
    let inactive: u64 = value_or(pages.inactive, 0);
    let laundry: u64 = value_or(pages.laundry, 0);
    let cache: u64 = value_or(pages.cache, 0);
    let idle: u64 = free.saturating_add(inactive).saturating_add(laundry).saturating_add(cache);
    let reclaimable: u64 = capped_product(idle, page);
    proof {
        let all = pages.reclaimable_pages();
        assert(idle == capped(all));
        if all > u64::MAX {
            assert(all * page as nat > u64::MAX) by (nonlinear_arith)
                requires
                    all > u64::MAX,
                    page >= 1,
            ;
            assert(idle as nat * page as nat >= u64::MAX) by (nonlinear_arith)
                requires
                    idle == u64::MAX,
                    page >= 1,
            ;
        }
    }
    (total, total.saturating_sub(reclaimable))
}

/// The value of a reading, or `otherwise` where there is none.
fn value_or(reading: Option<u64>, otherwise: u64) -> (value: u64)
    ensures
        value == reading_or(reading, otherwise),
{
    match reading {
        Some(value) => value,
        None => otherwise,
    }
}

/// No more memory is in use than there is.
pub proof fn law_used_memory_within_total(pages: PageCounts)
    ensures
        left_over(pages.total(), pages.reclaimable()) <= pages.total(),
{
}

/// The memory in use is the pages that are not reclaimable, where the counts
/// agree with each other and the memory fits a counter.
pub proof fn law_used_memory_is_unreclaimable_pages(pages: PageCounts)
    requires
        pages.reclaimable_pages() <= reading_or(pages.page_count, 0),
        reading_or(pages.page_count, 0) as nat * pages.page_bytes() <= u64::MAX,
    ensures
        left_over(pages.total(), pages.reclaimable()) == (reading_or(pages.page_count, 0)
            - pages.reclaimable_pages()) * pages.page_bytes(),
{
    let all = reading_or(pages.page_count, 0) as nat;
    let idle = pages.reclaimable_pages();
    let page = pages.page_bytes();
    assert(idle * page <= all * page && (all - idle) * page == all * page - idle * page)
        by (nonlinear_arith)
        requires
            idle <= all,
    ;
}

/// The number of swap devices that are asked for.
pub const SWAP_DEVICES: u32 = 16;

/// The version of the device record that is understood.
pub const XSWDEV_VERSION: i32 = 1;

/// The bytes of a block of swap space.
pub const SWAP_BLOCK: u64 = 512;

/// What the kernel's record of a swap device tells: the version of the record,
/// the blocks of the device and those in use.
#[derive(Clone, Copy, Debug, PartialEq, Eq)]
pub struct XswDev {
    pub version: i32,
    pub nblks: i32,
    pub used: i32,
}

/// The bytes in a number of blocks, none where it is negative.
pub open spec fn block_bytes(blocks: i32) -> nat {
    if blocks > 0 {
        (blocks * SWAP_BLOCK) as nat
    } else {
        0
    }
}

/// Whether a reply tells of a device. A version that is not understood guards
/// against a record that the kernel fills differently.
pub open spec fn tells_device(reply: Option<XswDev>) -> bool {
    reply matches Some(dev) && dev.version == XSWDEV_VERSION
}

/// Where a scan of the swap devices stands: how many devices were told, whether
/// every one asked for was, and the bytes of those told and in use.
#[verifier::ext_equal]
pub struct SwapScanView {
    pub told: nat,
    pub open: bool,
    pub total: nat,
    pub used: nat,
}

impl SwapScanView {
    /// A scan at its start.
    pub open spec fn start() -> Self {
        SwapScanView { told: 0, open: true, total: 0, used: 0 }
    }

    /// Whether there is a device left to ask for.
    pub open spec fn goes_on(self) -> bool {
        self.open && self.told < SWAP_DEVICES
    }

    /// The scan after a reply. A reply after its end changes nothing.
    pub open spec fn after(self, reply: Option<XswDev>) -> Self {
        if !self.goes_on() {
            self
        } else if tells_device(reply) {
            SwapScanView {
                told: self.told + 1,
                open: true,
                total: self.total + block_bytes(reply->0.nblks),
                used: self.used + block_bytes(reply->0.used),
            }
        } else {
            SwapScanView { open: false, ..self }
        }
    }
}

/// A scan of the swap devices, which asks for one after the other until one is
/// not told or all were asked for. A jail usually sees no device: the first
/// reply is none.
pub struct SwapScan {
    told: u32,
    open: bool,
    total: u64,
    used: u64,
}

impl View for SwapScan {
    type V = SwapScanView;

    closed spec fn view(&self) -> SwapScanView {
        SwapScanView {
            told: self.told as nat,
            open: self.open,
            total: self.total as nat,
            used: self.used as nat,
        }
    }
}

impl SwapScan {
    /// At most [`SWAP_DEVICES`] are told, each of less than a tebibyte.
    #[verifier::type_invariant]
    spec fn bounded(self) -> bool {
        &&& self.told <= SWAP_DEVICES
        &&& self.total <= self.told * 0x100_0000_0000
        &&& self.used <= self.told * 0x100_0000_0000
    }

    /// A scan at its start.
    pub fn new() -> (scan: Self)
        ensures
            scan@ == SwapScanView::start(),
    {
        SwapScan { told: 0, open: true, total: 0, used: 0 }
    }

    /// The index of the device to ask for, none where the scan is over.
    pub fn next(&self) -> (index: Option<u32>)
        ensures
            index is Some <==> self@.goes_on(),
            index matches Some(i) ==> i == self@.told,
    {
        if self.open && self.told < SWAP_DEVICES {
            Some(self.told)
        } else {
            None
        }
    }

    /// Takes the reply for the device that [`Self::next`] asked for, none where
    /// the kernel refused it.
    pub fn accept(&mut self, reply: Option<XswDev>)
        ensures
            final(self)@ == old(self)@.after(reply),
    {
        proof {
            use_type_invariant(&*self);
        }
        if !self.open || self.told >= SWAP_DEVICES {
            return;
        }
        match reply {
            Some(dev) if dev.version == XSWDEV_VERSION => {
                let blocks: u64 = if dev.nblks > 0 { dev.nblks as u64 } else { 0 };
                let taken: u64 = if dev.used > 0 { dev.used as u64 } else { 0 };
                *self = SwapScan {
                    told: self.told + 1,
                    open: true,
                    total: self.total.saturating_add(blocks * SWAP_BLOCK),
                    used: self.used.saturating_add(taken * SWAP_BLOCK),
                };
            },
            _ => {
                self.open = false;
            },
        }
    }

    /// `(total, used)` bytes of the devices told so far.
    pub fn totals(&self) -> (bytes: (u64, u64))
        ensures
            bytes.0 == self@.total,
            bytes.1 == self@.used,
    {
        (self.total, self.used)
    }
}

/// A scan after a list of replies.
pub open spec fn scan_of(replies: Seq<Option<XswDev>>) -> SwapScanView
    decreases replies.len(),
{
    if replies.len() == 0 {
        SwapScanView::start()
    } else {
        scan_of(replies.drop_last()).after(replies.last())
    }
}

/// The bytes of a list of devices.
pub open spec fn device_bytes(devices: Seq<Option<XswDev>>) -> nat
    decreases devices.len(),
{
    if devices.len() == 0 {
        0
    } else {
        device_bytes(devices.drop_last()) + block_bytes(devices.last()->0.nblks)
    }
}

/// The bytes in use of a list of devices.
pub open spec fn used_device_bytes(devices: Seq<Option<XswDev>>) -> nat
    decreases devices.len(),
{
    if devices.len() == 0 {
        0
    } else {
        used_device_bytes(devices.drop_last()) + block_bytes(devices.last()->0.used)
    }
}

/// A scan sums the devices up to the first that is not told, and no more than
/// [`SWAP_DEVICES`] of them.
pub proof fn law_scan_sums_told_devices(replies: Seq<Option<XswDev>>)
    ensures
        ({
            let told = scan_of(replies).told as int;
            &&& told <= replies.len()
            &&& told <= SWAP_DEVICES
            &&& forall|i: int| 0 <= i < told ==> tells_device(#[trigger] replies[i])
            &&& told < replies.len() && told < SWAP_DEVICES ==> !tells_device(replies[told])
            &&& scan_of(replies).total == device_bytes(replies.take(told))
            &&& scan_of(replies).used == used_device_bytes(replies.take(told))
        }),
{
    lemma_scan(replies);
}

proof fn lemma_scan(replies: Seq<Option<XswDev>>)
    ensures
        ({
            let scan = scan_of(replies);
            let told = scan.told as int;
            &&& told <= replies.len()
            &&& told <= SWAP_DEVICES
            &&& forall|i: int| 0 <= i < told ==> tells_device(#[trigger] replies[i])
            &&& !scan.open ==> told < replies.len() && !tells_device(replies[told])
            &&& scan.goes_on() ==> told == replies.len()
            &&& scan.total == device_bytes(replies.take(told))
            &&& scan.used == used_device_bytes(replies.take(told))
        }),
    decreases replies.len(),
{
    let told = scan_of(replies).told as int;
    if replies.len() > 0 {
        let before = replies.drop_last();
        lemma_scan(before);
        let told_before = scan_of(before).told as int;
        assert(before.take(told_before) =~= replies.take(told_before));
        assert forall|i: int| 0 <= i < told_before implies tells_device(#[trigger] replies[i]) by {
            assert(tells_device(before[i]));
        }
        if scan_of(before).goes_on() && tells_device(replies.last()) {
            assert(replies.take(told).drop_last() =~= replies.take(told_before));
            assert(replies.take(told).last() == replies.last());
        }
    } else {
        assert(replies.take(told) =~= Seq::empty());
    }
}

/// A jail whose first device is not told has no swap space to report.
pub proof fn law_no_device_no_swap(replies: Seq<Option<XswDev>>)
    requires
        replies.len() > 0 ==> !tells_device(replies[0]),
    ensures
        scan_of(replies).total == 0,
        scan_of(replies).used == 0,
{
    lemma_scan(replies);
    assert(scan_of(replies).told == 0) by {
        if scan_of(replies).told > 0 {
            assert(tells_device(replies[0]));
        }
    }
    assert(replies.take(0) =~= Seq::empty());
}

/// Memory is counted in pages: all of it is the number of pages, and what can be
/// had for something else the free, inactive, laundry and cached pages together,
/// each times the bytes of a page, of which a page has at least one.
pub proof fn law_memory_is_counted_in_pages(
    size: u64,
    count: u64,
    free: u64,
    inactive: u64,
    laundry: u64,
    cache: u64,
)
    ensures
        ({
            let pages = PageCounts {
                page_size: Some(size),
                page_count: Some(count),
                free: Some(free),
                inactive: Some(inactive),
                laundry: Some(laundry),
                cache: Some(cache),
            };
            let bytes = if size == 0 {
                1
            } else {
                size as nat
            };
            &&& pages.total() == capped(count as nat * bytes)
            &&& pages.reclaimable() == capped(
                (free as nat + inactive as nat + laundry as nat + cache as nat) * bytes,
            )
        }),
{
}

/// A page size that is not told is as one of 4096 bytes, and a count that is not
/// told as none.
pub proof fn law_counts_not_told_are_none(pages: PageCounts)
    ensures
        ({
            let told = PageCounts {
                page_size: Some(
                    if pages.page_size is Some {
                        pages.page_size->0
                    } else {
                        4096
                    },
                ),
                page_count: Some(
                    if pages.page_count is Some {
                        pages.page_count->0
                    } else {
                        0
                    },
                ),
                free: Some(
                    if pages.free is Some {
                        pages.free->0
                    } else {
                        0
                    },
                ),
                inactive: Some(
                    if pages.inactive is Some {
                        pages.inactive->0
                    } else {
                        0
                    },
                ),
                laundry: Some(
                    if pages.laundry is Some {
                        pages.laundry->0
                    } else {
                        0
                    },
                ),
                cache: Some(
                    if pages.cache is Some {
                        pages.cache->0
                    } else {
                        0
                    },
                ),
            };
            &&& pages.total() == told.total()
            &&& pages.reclaimable() == told.reclaimable()
        }),
{
}

/// A scan asks for a device as long as every one before was told and there were
/// fewer than sixteen. A device that is told, in a record of the first version,
/// adds its blocks of 512 bytes and those in use, none where a number is negative;
/// any other reply ends the scan with what it has, and after that nothing changes
/// it.
pub proof fn law_reply_adds_its_device_or_ends_the_scan(scan: SwapScanView, dev: XswDev)
    ensures
        SwapScanView::start() == (SwapScanView { told: 0, open: true, total: 0, used: 0 }),
        scan.goes_on() <==> scan.open && scan.told < 16,
        scan.goes_on() && dev.version == 1 ==> {
            let next = scan.after(Some(dev));
            &&& next.told == scan.told + 1
            &&& next.open
            &&& next.total - scan.total == if dev.nblks < 0 {
                0
            } else {
                dev.nblks * 512
            }
            &&& next.used - scan.used == if dev.used < 0 {
                0
            } else {
                dev.used * 512
            }
        },
        scan.goes_on() && dev.version != 1 ==> scan.after(Some(dev)) == (SwapScanView {
            open: false,
            ..scan
        }),
        scan.goes_on() ==> scan.after(None) == (SwapScanView { open: false, ..scan }),
        !scan.goes_on() ==> scan.after(Some(dev)) == scan && scan.after(None) == scan,
{
}

/// The bytes of two lists of devices are those of the one and of the other
/// together, and those of one device are its blocks of 512 bytes.
pub proof fn law_device_bytes_add_up(
    a: Seq<Option<XswDev>>,
    b: Seq<Option<XswDev>>,
    dev: XswDev,
)
    ensures
        device_bytes(Seq::empty()) == 0,
        used_device_bytes(Seq::empty()) == 0,
        device_bytes(seq![Some(dev)]) == if dev.nblks < 0 {
            0
        } else {
            dev.nblks * 512
        },
        used_device_bytes(seq![Some(dev)]) == if dev.used < 0 {
            0
        } else {
            dev.used * 512
        },
        device_bytes(a + b) == device_bytes(a) + device_bytes(b),
        used_device_bytes(a + b) == used_device_bytes(a) + used_device_bytes(b),
    decreases b.len(),
{
    let none: Seq<Option<XswDev>> = Seq::empty();
    assert(seq![Some(dev)].drop_last() =~= none);
    assert(device_bytes(none) == 0 && used_device_bytes(none) == 0);
    if b.len() > 0 {
        law_device_bytes_add_up(a, b.drop_last(), dev);
        assert((a + b).drop_last() =~= a + b.drop_last());
    } else {
        assert(a + b =~= a);
    }
}

} // verus!
