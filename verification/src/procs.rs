//! Sockets and processes, counted in the tables that the kernel hands over.

use vstd::prelude::*;

use crate::bytes::{law_four_bytes, le_u32, le_value};

verus! {

/// The length that a record begins with.
pub open spec fn told_len(table: Seq<u8>) -> nat {
    le_value(table.take(4))
}

/// The number of records that a table begins with. Each tells its own length in
/// its first four bytes; a length below those four bytes, or beyond the end of
/// the table, ends the walk.
pub open spec fn record_count(table: Seq<u8>) -> nat
    decreases table.len(),
{
    if table.len() < 4 || told_len(table) < 4 || told_len(table) > table.len() {
        0
    } else {
        1 + record_count(table.skip(told_len(table) as int))
    }
}

/// The number of sockets in a table: its records but the first, which is a
/// header.
pub open spec fn socket_count(table: Seq<u8>) -> nat {
    if record_count(table) > 0 {
        (record_count(table) - 1) as nat
    } else {
        0
    }
}

/// Whether the number of sockets in a table fits a count. That of a table whose
/// length is below sixteen gibibytes does: no record is shorter than four bytes.
pub open spec fn is_countable(table: Seq<u8>) -> bool {
    table.len() / 4 <= u32::MAX || socket_count(table) <= u32::MAX
}

/// The number of sockets in a table of the kernel. It is walked by the length
/// that each record tells, which works whatever the kernel pads between fields.
pub fn inpcb_count(table: &[u8]) -> (count: u32)
    requires
        is_countable(table@),
    ensures
        count == socket_count(table@),
{
    proof {
        law_records_take_four_bytes(table@);
    }
    let mut count: u32 = 0;
    let mut off: usize = 0;
    let mut first: bool = true;
    let len: usize = table.len();
    assert(table@.skip(0) =~= table@);
    while len - off >= 4
        invariant_except_break
            record_count(table@) == (if first {
                0int
            } else {
                count + 1
            }) + record_count(table@.skip(off as int)),
        invariant
            len == table@.len(),
            off <= len,
            first ==> count == 0,
            socket_count(table@) <= u32::MAX,
        ensures
            record_count(table@) == (if first {
                0int
            } else {
                count + 1
            }),
        decreases len - off,
    {
        let rec: usize = le_u32(table, off) as usize;
        let ghost rest = table@.skip(off as int);
        proof {
            assert(rest.take(4) =~= table@.subrange(off as int, off + 4));
            assert(rec == told_len(rest));
        }
        if rec < 4 || rec > len - off {
            break;
        }
        assert(rest.skip(rec as int) =~= table@.skip(off + rec));
        if !first {
            count = count + 1;
        }
        first = false;
        off = off + rec;
    }
    count
}

/// TCP and UDP sockets, from the two tables of the kernel. A table that could
/// not be read is empty.
pub fn conn_counts(tcp: &[u8], udp: &[u8]) -> (counts: (u32, u32))
    requires
        is_countable(tcp@),
        is_countable(udp@),
    ensures
        counts.0 == socket_count(tcp@),
        counts.1 == socket_count(udp@),
{
    (inpcb_count(tcp), inpcb_count(udp))
}

/// Every record takes at least four bytes.
pub proof fn law_records_take_four_bytes(table: Seq<u8>)
    ensures
        4 * record_count(table) <= table.len(),
    decreases table.len(),
{
    if !(table.len() < 4 || told_len(table) < 4 || told_len(table) > table.len()) {
        law_records_take_four_bytes(table.skip(told_len(table) as int));
    }
}

/// The walk counts the records that a table is made of, and goes on with what
/// follows them.
pub proof fn law_walk_counts_records(records: Seq<Seq<u8>>, rest: Seq<u8>)
    requires
        forall|i: int|
            0 <= i < records.len() ==> (#[trigger] records[i]).len() >= 4 && told_len(records[i])
                == records[i].len(),
    ensures
        record_count(records.flatten() + rest) == records.len() + record_count(rest),
    decreases records.len(),
{
    let table = records.flatten() + rest;
    if records.len() > 0 {
        let head = records.first();
        let others = records.drop_first();
        assert(records[0] == head);
        assert forall|i: int| 0 <= i < others.len() implies (#[trigger] others[i]).len() >= 4
            && told_len(others[i]) == others[i].len() by {
            assert(others[i] == records[i + 1]);
        }
        law_walk_counts_records(others, rest);
        assert(table =~= head + (others.flatten() + rest));
        assert(table.take(4) =~= head.take(4));
        assert(table.skip(head.len() as int) =~= others.flatten() + rest);
    } else {
        assert(table =~= rest);
    }
}

/// A table of a header and sockets counts the sockets.
pub proof fn law_header_is_not_counted(header: Seq<u8>, sockets: Seq<Seq<u8>>)
    requires
        header.len() >= 4,
        told_len(header) == header.len(),
        forall|i: int|
            0 <= i < sockets.len() ==> (#[trigger] sockets[i]).len() >= 4 && told_len(sockets[i])
                == sockets[i].len(),
    ensures
        socket_count(header + sockets.flatten()) == sockets.len(),
{
    let none: Seq<u8> = Seq::empty();
    law_walk_counts_records(sockets, none);
    assert(sockets.flatten() + none =~= sockets.flatten());
    let table = header + sockets.flatten();
    assert(table.take(4) =~= header.take(4));
    assert(table.skip(header.len() as int) =~= sockets.flatten());
}

/// The room for processes that start between the probe of the size of the table
/// and its read.
pub const PROC_SLACK: usize = 4096;

/// The number of processes in a table of the kernel, in 32 bits: every record
/// has the size that the first tells. A table too short to tell one is no
/// answer.
pub open spec fn process_count(table: Seq<u8>) -> Option<u32> {
    if table.len() < 4 {
        None
    } else if told_len(table) == 0 {
        Some(0)
    } else {
        Some(((table.len() / told_len(table)) % 0x1_0000_0000) as u32)
    }
}

/// What to do next in a scan of the processes: read the table into a buffer of
/// so many bytes, or report the number.
#[derive(Clone, Copy, Debug, PartialEq, Eq)]
pub enum ProcStep {
    Read(usize),
    Done(u32),
}

/// Where a scan of the processes stands: the expected size of the table, the
/// reads that may still be tried, and the number once it is known.
pub struct ProcScanView {
    pub size: nat,
    pub reads_left: nat,
    pub count: Option<u32>,
}

impl ProcScanView {
    /// A scan at its start, from the size that the kernel told. Without a size
    /// there is nothing to read.
    pub open spec fn start(probe: Option<usize>) -> Self {
        match probe {
            Some(size) => ProcScanView {
                size: size as nat,
                reads_left: if size > 0 {
                    2
                } else {
                    0
                },
                count: None,
            },
            None => ProcScanView { size: 0, reads_left: 0, count: None },
        }
    }

    /// What to do next.
    pub open spec fn step(self) -> ProcStep {
        match self.count {
            Some(count) => ProcStep::Done(count),
            None => if self.reads_left == 0 {
                ProcStep::Done(0)
            } else {
                ProcStep::Read((self.size + PROC_SLACK) as usize)
            },
        }
    }

    /// The scan after a read: the table that came, or none where the kernel
    /// refused it. What does not answer is tried again with twice the size, as
    /// long as a read is left. A
    /// table after the end of the scan changes nothing.
    pub open spec fn after(self, reply: Option<Seq<u8>>) -> Self {
        if self.count is Some || self.reads_left == 0 {
            self
        } else {
            let count = match reply {
                Some(table) => process_count(table),
                None => None,
            };
            match count {
                Some(_) => ProcScanView { count, ..self },
                None => ProcScanView {
                    size: if self.reads_left > 1 {
                        self.size * 2
                    } else {
                        self.size
                    },
                    reads_left: (self.reads_left - 1) as nat,
                    count: None,
                },
            }
        }
    }
}

/// The bytes of a reply.
pub open spec fn reply_bytes(reply: Option<Vec<u8>>) -> Option<Seq<u8>> {
    match reply {
        Some(table) => Some(table@),
        None => None,
    }
}

/// A scan of the processes that are visible to this jail. The table can grow
/// between the probe of its size and the read, so the read is tried once more
/// with a grown buffer, as ps(1) does.
pub struct ProcScan {
    size: usize,
    reads_left: u32,
    count: Option<u32>,
}

impl View for ProcScan {
    type V = ProcScanView;

    closed spec fn view(&self) -> ProcScanView {
        ProcScanView {
            size: self.size as nat,
            reads_left: self.reads_left as nat,
            count: self.count,
        }
    }
}

impl ProcScan {
    /// The buffers of the reads that are left fit the address space.
    #[verifier::type_invariant]
    spec fn fits(self) -> bool {
        &&& self.reads_left <= 2
        &&& self.reads_left == 2 ==> 2 * self.size + PROC_SLACK <= usize::MAX
        &&& self.reads_left == 1 ==> self.size + PROC_SLACK <= usize::MAX
    }

    /// A scan at its start, from the size that the kernel told.
    pub fn new(probe: Option<usize>) -> (scan: Self)
        requires
            probe matches Some(size) ==> 2 * size + PROC_SLACK <= usize::MAX,
        ensures
            scan@ == ProcScanView::start(probe),
    {
        match probe {
            Some(size) => ProcScan {
                size,
                reads_left: if size > 0 {
                    2
                } else {
                    0
                },
                count: None,
            },
            None => ProcScan { size: 0, reads_left: 0, count: None },
        }
    }

    /// What to do next.
    pub fn next(&self) -> (step: ProcStep)
        ensures
            step == self@.step(),
    {
        proof {
            use_type_invariant(&*self);
        }
        match self.count {
            Some(count) => ProcStep::Done(count),
            None => if self.reads_left == 0 {
                ProcStep::Done(0)
            } else {
                ProcStep::Read(self.size + PROC_SLACK)
            },
        }
    }

    /// Takes the table that the read gave, none where the kernel refused it.
    pub fn accept(&mut self, reply: Option<Vec<u8>>)
        ensures
            final(self)@ == old(self)@.after(reply_bytes(reply)),
    {
        proof {
            use_type_invariant(&*self);
        }
        if self.count.is_some() || self.reads_left == 0 {
            return;
        }
        let count: Option<u32> = match &reply {
            Some(table) => count_processes(table.as_slice()),
            None => None,
        };
        if count.is_some() {
            self.count = count;
        } else if self.reads_left == 2 {
            *self = ProcScan { size: self.size * 2, reads_left: 1, count: None };
        } else {
            self.reads_left = 0;
        }
    }
}

/// The number of processes in a table.
fn count_processes(table: &[u8]) -> (count: Option<u32>)
    ensures
        count == process_count(table@),
{
    if table.len() < 4 {
        return None;
    }
    let rec: usize = le_u32(table, 0) as usize;
    assert(table@.take(4) =~= table@.subrange(0, 4));
    if rec == 0 {
        return Some(0);
    }
    let all: usize = table.len() / rec;
    Some((all as u64 % 0x1_0000_0000) as u32)
}

/// A scan reads the table, and once more into a larger buffer where the first
/// read did not answer; the first answer is the number, and without one it is
/// zero.
pub proof fn law_one_retry(size: usize, first: Option<Seq<u8>>, second: Option<Seq<u8>>)
    requires
        size > 0,
        2 * size + PROC_SLACK <= usize::MAX,
    ensures
        ({
            let start = ProcScanView::start(Some(size));
            let answers = |reply: Option<Seq<u8>>| reply is Some && process_count(reply->0) is Some;
            &&& start.step() == ProcStep::Read((size + PROC_SLACK) as usize)
            &&& answers(first) ==> start.after(first).step() == ProcStep::Done(
                process_count(first->0)->0,
            )
            &&& !answers(first) ==> {
                &&& start.after(first).step() == ProcStep::Read((2 * size + PROC_SLACK) as usize)
                &&& start.after(first).after(second).step() == ProcStep::Done(
                    if answers(second) {
                        process_count(second->0)->0
                    } else {
                        0
                    },
                )
            }
        }),
{
}

/// A record tells its length in its first four bytes, least significant first.
pub proof fn law_length_is_in_the_first_four_bytes(table: Seq<u8>)
    requires
        table.len() >= 4,
    ensures
        told_len(table) == table[0] + 0x100 * table[1] + 0x1_0000 * table[2] + 0x100_0000
            * table[3],
{
    law_four_bytes(table.take(4));
}

/// The walk ends where less than a length is left, where the length told is less
/// than its own four bytes, and where it is more than what is left.
pub proof fn law_walk_ends_at_what_is_no_record(table: Seq<u8>)
    ensures
        table.len() < 4 ==> record_count(table) == 0,
        table.len() >= 4 ==> {
            let len = table[0] + 0x100 * table[1] + 0x1_0000 * table[2] + 0x100_0000 * table[3];
            (len < 4 || len > table.len()) ==> record_count(table) == 0
        },
{
    if table.len() >= 4 {
        law_length_is_in_the_first_four_bytes(table);
    }
}

/// The sockets and the header are the records, and without records there are no
/// sockets.
pub proof fn law_sockets_and_header_are_the_records(table: Seq<u8>)
    ensures
        record_count(table) > 0 ==> socket_count(table) + 1 == record_count(table),
        record_count(table) == 0 ==> socket_count(table) == 0,
        table.len() < 0x4_0000_0000 ==> is_countable(table),
        socket_count(table) <= 0xffff_ffff ==> is_countable(table),
{
}

/// The number of processes is how often the size that the first record tells goes
/// into the table, where that fits 32 bits. A size of zero counts none, and a table
/// too short to tell a size is no answer.
pub proof fn law_processes_fill_the_table(table: Seq<u8>)
    ensures
        table.len() < 4 ==> process_count(table) is None,
        table.len() >= 4 ==> {
            let size = table[0] + 0x100 * table[1] + 0x1_0000 * table[2] + 0x100_0000 * table[3];
            &&& process_count(table) matches Some(count)
            &&& size == 0 ==> count == 0
            &&& 0 < size && table.len() < 0x1_0000_0000 * size ==> count * size <= table.len() < (
            count + 1) * size
            &&& 0 < size ==> (table.len() as int / size - count) % 0x1_0000_0000 == 0
        },
{
    if table.len() >= 4 {
        law_length_is_in_the_first_four_bytes(table);
        let size = told_len(table);
        let len = table.len();
        if size > 0 {
            let all = len / size;
            assert(all * size <= len < (all + 1) * size) by (nonlinear_arith)
                requires
                    size > 0,
                    all == len / size,
            ;
            if len < 0x1_0000_0000 * size {
                assert(all < 0x1_0000_0000) by (nonlinear_arith)
                    requires
                        all * size <= len,
                        len < 0x1_0000_0000 * size,
                        size > 0,
                ;
            }
        }
    }
}

/// A scan without a size, or with a size of zero, counts none without a read. One
/// with a size reads with 4096 bytes to spare, and once more with twice the size
/// where the first read gave no answer. Once the number is known, nothing changes
/// it.
pub proof fn law_reads_have_room_to_spare(
    size: usize,
    scan: ProcScanView,
    reply: Option<Seq<u8>>,
)
    requires
        size > 0,
        2 * size + 4096 <= usize::MAX,
    ensures
        ProcScanView::start(None).step() == ProcStep::Done(0),
        ProcScanView::start(Some(0)).step() == ProcStep::Done(0),
        ProcScanView::start(Some(size)).step() == ProcStep::Read((size + 4096) as usize),
        ProcScanView::start(Some(size)).after(None).step() == ProcStep::Read(
            (2 * size + 4096) as usize,
        ),
        scan.step() is Done ==> scan.after(reply) == scan,
{
}

} // verus!
