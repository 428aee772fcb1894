//! Processor time.

use vstd::prelude::*;

use crate::bytes::{capped, left_over};

verus! {

/// The number of states that the kernel keeps a clock for, per processor.
pub const CPU_STATES: usize = 5;

/// The state in which a processor idles.
pub const CPU_IDLE: usize = 4;

/// The ticks of one clock. The kernel's type allows for a negative reading,
/// which counts for nothing.
pub open spec fn ticks(clock: i64) -> nat {
    if clock > 0 {
        clock as nat
    } else {
        0
    }
}

/// The ticks of all clocks.
pub open spec fn all_ticks(clocks: Seq<i64>) -> nat
    decreases clocks.len(),
{
    if clocks.len() == 0 {
        0
    } else {
        all_ticks(clocks.drop_last()) + ticks(clocks.last())
    }
}

/// The ticks of the clocks of the idle state, one in each row of states.
pub open spec fn idle_ticks(clocks: Seq<i64>) -> nat
    decreases clocks.len(),
{
    if clocks.len() == 0 {
        0
    } else if (clocks.len() - 1) % CPU_STATES as int == CPU_IDLE {
        idle_ticks(clocks.drop_last()) + ticks(clocks.last())
    } else {
        idle_ticks(clocks.drop_last())
    }
}

/// `(total, idle)` ticks of rows of clocks. Less than a row is no reading.
pub open spec fn times_of(clocks: Seq<i64>) -> Option<(u64, u64)> {
    if clocks.len() < CPU_STATES {
        None
    } else {
        Some((capped(all_ticks(clocks)), capped(idle_ticks(clocks))))
    }
}

/// `(total, idle)` ticks of a reply of the kernel, none where it gave none.
pub open spec fn reply_times(reply: Option<Vec<i64>>) -> Option<(u64, u64)> {
    match reply {
        Some(clocks) => times_of(clocks@),
        None => None,
    }
}

/// `(total, idle)` ticks across all processors, from rows of clocks: user, nice,
/// system, interrupt and idle, in that order. Everything but the last is work the
/// machine did. Less than a row is no reading.
pub fn cpu_times(clocks: &Vec<i64>) -> (times: Option<(u64, u64)>)
    ensures
        times == times_of(clocks@),
{
    if clocks.len() < CPU_STATES {
        return None;
    }
    let mut total: u64 = 0;
    let mut idle: u64 = 0;
    for i in 0..clocks.len()
        invariant
            total == capped(all_ticks(clocks@.take(i as int))),
            idle == capped(idle_ticks(clocks@.take(i as int))),
    {
        assert(clocks@.take(i + 1).drop_last() =~= clocks@.take(i as int));
        let spent: u64 = if clocks[i] > 0 { clocks[i] as u64 } else { 0 };
        total = total.saturating_add(spent);
        if i % CPU_STATES == CPU_IDLE {
            idle = idle.saturating_add(spent);
        }
    }
    assert(clocks@.take(clocks.len() as int) =~= clocks@);
    Some((total, idle))
}

/// `(total, idle)` ticks across all processors: from the row in which the kernel
/// sums them or, where that is less than a row, from the row of each.
pub fn machine_times(summed: &Option<Vec<i64>>, rows: &Option<Vec<i64>>) -> (times: Option<
    (u64, u64),
>)
    ensures
        times == if reply_times(*summed) is Some {
            reply_times(*summed)
        } else {
            reply_times(*rows)
        },
{
    if let Some(clocks) = summed {
        if let Some(times) = cpu_times(clocks) {
            return Some(times);
        }
    }
    match rows {
        Some(clocks) => cpu_times(clocks),
        None => None,
    }
}

/// The ticks that passed between two readings, and those of them that were
/// idle.
#[derive(Clone, Copy, Debug, PartialEq, Eq)]
pub struct CpuInterval {
    pub total: u64,
    pub idle: u64,
}

/// What passed between two `(total, idle)` readings. Clocks that stood still or
/// went backwards tell nothing.
pub open spec fn interval_between(prev: (u64, u64), now: (u64, u64)) -> Option<CpuInterval> {
    if now.0 > prev.0 {
        Some(CpuInterval { total: (now.0 - prev.0) as u64, idle: left_over(now.1, prev.1) })
    } else {
        None
    }
}

/// What passed between two `(total, idle)` readings: the busy share is what is
/// not idle of the total. Without an interval it is nothing.
pub fn busy_interval(prev: (u64, u64), now: (u64, u64)) -> (interval: Option<CpuInterval>)
    ensures
        interval == interval_between(prev, now),
{
    if now.0 <= prev.0 {
        return None;
    }
    Some(CpuInterval { total: now.0 - prev.0, idle: now.1.saturating_sub(prev.1) })
}

/// The idle time is a part of the total.
pub proof fn law_idle_within_total(clocks: Seq<i64>)
    ensures
        capped(idle_ticks(clocks)) <= capped(all_ticks(clocks)),
{
    lemma_idle_within_total(clocks);
}

proof fn lemma_idle_within_total(clocks: Seq<i64>)
    ensures
        idle_ticks(clocks) <= all_ticks(clocks),
    decreases clocks.len(),
{
    if clocks.len() > 0 {
        lemma_idle_within_total(clocks.drop_last());
    }
}

/// The ticks of two lists of clocks are those of the one and of the other together,
/// and a clock that is not below zero counts what it shows, else nothing.
pub proof fn law_ticks_add_up(a: Seq<i64>, b: Seq<i64>, clock: i64)
    ensures
        all_ticks(Seq::empty()) == 0,
        clock >= 0 ==> all_ticks(seq![clock]) == clock,
        clock <= 0 ==> all_ticks(seq![clock]) == 0,
        all_ticks(a + b) == all_ticks(a) + all_ticks(b),
    decreases b.len(),
{
    let none: Seq<i64> = Seq::empty();
    assert(seq![clock].drop_last() =~= none);
    assert(all_ticks(none) == 0);
    if b.len() > 0 {
        law_ticks_add_up(a, b.drop_last(), clock);
        assert((a + b).drop_last() =~= a + b.drop_last());
    } else {
        assert(a + b =~= a);
    }
}

/// The idle ticks of a row are those of its fifth clock, less than a row has none,
/// and a row adds its own to those of what follows it.
pub proof fn law_fifth_clock_of_each_row_is_idle(row: Seq<i64>, rest: Seq<i64>)
    requires
        row.len() == 5,
    ensures
        forall|n: int| 0 <= n < 5 ==> idle_ticks(#[trigger] row.take(n)) == 0,
        row[4] >= 0 ==> idle_ticks(row) == row[4],
        row[4] <= 0 ==> idle_ticks(row) == 0,
        idle_ticks(row + rest) == idle_ticks(row) + idle_ticks(rest),
{
    reveal_with_fuel(idle_ticks, 6);
    assert forall|n: int| 0 <= n < 5 implies idle_ticks(#[trigger] row.take(n)) == 0 by {
        lemma_less_than_a_row(row.take(n));
    }
    assert(row.drop_last() =~= row.take(4));
    lemma_idle_after_a_row(row, rest);
}

proof fn lemma_less_than_a_row(clocks: Seq<i64>)
    requires
        clocks.len() < 5,
    ensures
        idle_ticks(clocks) == 0,
    decreases clocks.len(),
{
    if clocks.len() > 0 {
        lemma_less_than_a_row(clocks.drop_last());
    }
}

proof fn lemma_idle_after_a_row(row: Seq<i64>, rest: Seq<i64>)
    requires
        row.len() == 5,
    ensures
        idle_ticks(row + rest) == idle_ticks(row) + idle_ticks(rest),
    decreases rest.len(),
{
    if rest.len() > 0 {
        lemma_idle_after_a_row(row, rest.drop_last());
        assert((row + rest).drop_last() =~= row + rest.drop_last());
    } else {
        assert(row + rest =~= row);
    }
}

/// Five clocks or more are a reading of the ticks and of the idle ticks, fewer are
/// none, and no reply is none.
pub proof fn law_reading_takes_a_row(clocks: Seq<i64>, reply: Vec<i64>)
    ensures
        clocks.len() < 5 ==> times_of(clocks) is None,
        clocks.len() >= 5 ==> times_of(clocks) == Some(
            (capped(all_ticks(clocks)), capped(idle_ticks(clocks))),
        ),
        reply_times(Some(reply)) == times_of(reply@),
        reply_times(None) is None,
{
}

/// Between two readings pass the ticks by which the clocks went on, and those of
/// them were idle by which the idle clocks did. Clocks that did not go on tell
/// nothing.
pub proof fn law_interval_is_the_difference(prev: (u64, u64), now: (u64, u64))
    ensures
        now.0 <= prev.0 ==> interval_between(prev, now) is None,
        now.0 > prev.0 ==> {
            &&& interval_between(prev, now) matches Some(interval)
            &&& prev.0 + interval.total == now.0
            &&& now.1 >= prev.1 ==> prev.1 + interval.idle == now.1
            &&& now.1 <= prev.1 ==> interval.idle == 0
        },
{
}

} // verus!
