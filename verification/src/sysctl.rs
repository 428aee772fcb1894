//! What the kernel's state variables say, and the identity of the machine that
//! they tell.

use vstd::prelude::*;
use vstd::utf8::{decode_utf8, valid_utf8};

use crate::bytes::{left_over, utf8_text};
use crate::text::{chars_of, first_line, lemma_run_before};

verus! {

/// The bytes of a reply without the zeros at its end.
pub open spec fn unpadded(reply: Seq<u8>) -> Seq<u8>
    decreases reply.len(),
{
    if reply.len() > 0 && reply.last() == 0 {
        unpadded(reply.drop_last())
    } else {
        reply
    }
}

/// The text of a state variable, from the bytes that the kernel answered. The
/// kernel ends a text with a zero byte. An empty answer holds no text, not even
/// an empty one.
pub fn sysctl_string(reply: Vec<u8>) -> (text: Option<String>)
    ensures
        match text {
            Some(s) => {
                &&& reply@.len() > 0
                &&& valid_utf8(unpadded(reply@))
                &&& s@ == decode_utf8(unpadded(reply@))
            },
            None => reply@.len() == 0 || !valid_utf8(unpadded(reply@)),
        },
{
    if reply.len() == 0 {
        return None;
    }
    let mut bytes: Vec<u8> = reply;
    let ghost whole = bytes@;
    while bytes.len() > 0 && bytes[bytes.len() - 1] == 0
        invariant
            unpadded(bytes@) == unpadded(whole),
        decreases bytes.len(),
    {
        bytes.pop();
    }
    utf8_text(bytes)
}

/// The number in a state variable, from the kernel's signed one. What is below
/// zero counts as zero; no answer is no number.
pub fn sysctl_u64(reply: Option<i64>) -> (value: Option<u64>)
    ensures
        value == match reply {
            Some(v) => Some(
                if v > 0 {
                    v as u64
                } else {
                    0
                },
            ),
            None => None,
        },
{
    match reply {
        Some(v) => Some(if v > 0 { v as u64 } else { 0 }),
        None => None,
    }
}

/// When the machine was booted, in seconds since 1970, from the seconds of the
/// kernel's clock. A time before that is no answer.
pub open spec fn boot_time(sec: Option<i64>) -> Option<u64> {
    match sec {
        Some(s) => if s >= 0 {
            Some(s as u64)
        } else {
            None
        },
        None => None,
    }
}

/// When the machine was booted, in seconds since 1970.
pub fn sysctl_boottime_secs(sec: Option<i64>) -> (secs: Option<u64>)
    ensures
        secs == boot_time(sec),
{
    match sec {
        Some(s) => if s >= 0 {
            Some(s as u64)
        } else {
            None
        },
        None => None,
    }
}

/// The value of a reading, or what stands for it where there is none.
pub open spec fn reading_or<T>(reading: Option<T>, otherwise: T) -> T {
    match reading {
        Some(value) => value,
        None => otherwise,
    }
}

/// The seconds since boot. The boot time is a stamp of the wall clock, so this
/// is the time now less that stamp, and never negative.
pub fn uptime(boot: Option<u64>, now: u64) -> (secs: u64)
    ensures
        secs == left_over(now, reading_or(boot, 0)),
{
    let since: u64 = match boot {
        Some(secs) => secs,
        None => 0,
    };
    now.saturating_sub(since)
}

/// The text of a reading, or what stands for it where there is none.
pub open spec fn text_or(reading: Option<String>, otherwise: Seq<char>) -> Seq<char> {
    match reading {
        Some(text) => text@,
        None => otherwise,
    }
}

/// The text of a reading, or `otherwise` where there is none.
pub(crate) fn string_or(reading: Option<String>, otherwise: &str) -> (text: String)
    ensures
        text@ == text_or(reading, otherwise@),
{
    match reading {
        Some(text) => text,
        None => otherwise.to_owned(),
    }
}

/// The name of the system: the first line of its version text.
pub open spec fn system_name(version: Option<String>) -> Seq<char> {
    match version {
        Some(text) => match first_line(text@) {
            Some(line) => line,
            None => "FreeBSD"@,
        },
        None => "FreeBSD"@,
    }
}

/// The name of the system, from its version text.
pub fn os_name(version: Option<String>) -> (name: String)
    ensures
        name@ == system_name(version),
{
    let text: String = match version {
        Some(text) => text,
        None => {
            return "FreeBSD".to_owned();
        },
    };
    let chars: Vec<char> = chars_of(text.as_str());
    if chars.len() == 0 {
        return "FreeBSD".to_owned();
    }
    let mut n: usize = 0;
    while n < chars.len() && chars[n] != '\n'
        invariant
            chars@ == text@,
            n <= chars.len(),
            forall|i: int| 0 <= i < n ==> chars[i] != '\n',
        decreases chars.len() - n,
    {
        n = n + 1;
    }
    proof {
        lemma_run_before(text@, '\n', n as nat);
    }
    if n < chars.len() && n > 0 && chars[n - 1] == '\r' {
        n = n - 1;
    }
    let line: &str = text.as_str().substring_char(0, n);
    assert(first_line(text@) matches Some(l) && l =~= line@);
    line.to_owned()
}

/// The number of processors to report: the kernel's, in 32 bits, and one where
/// it tells none.
pub open spec fn core_count(cores: Option<u64>) -> u32 {
    match cores {
        Some(n) => if n > 0 {
            (n % 0x1_0000_0000) as u32
        } else {
            1
        },
        None => 1,
    }
}

/// The name and the number of the processors.
pub fn cpu_info(model: Option<String>, cores: Option<u64>) -> (info: (String, u32))
    ensures
        info.0@ == text_or(model, "unknown"@),
        info.1 == core_count(cores),
{
    let count: u32 = match cores {
        Some(n) => if n > 0 {
            (n % 0x1_0000_0000) as u32
        } else {
            1
        },
        None => 1,
    };
    (string_or(model, "unknown"), count)
}

/// The hypervisor that the machine runs on, in the kernel's words.
pub fn virtualization(guest: Option<String>) -> (name: String)
    ensures
        name@ == text_or(guest, "none"@),
{
    string_or(guest, "none")
}

/// The zeros at the end of a reply are dropped, and nothing else.
pub proof fn law_padding_is_dropped(text: Seq<u8>, zeros: Seq<u8>)
    requires
        text.len() > 0 ==> text.last() != 0,
        forall|i: int| 0 <= i < zeros.len() ==> #[trigger] zeros[i] == 0,
    ensures
        unpadded(text + zeros) == text,
    decreases zeros.len(),
{
    if zeros.len() > 0 {
        let rest = zeros.drop_last();
        assert((text + zeros).last() == zeros[zeros.len() - 1]);
        assert forall|i: int| 0 <= i < rest.len() implies #[trigger] rest[i] == 0 by {
            assert(rest[i] == zeros[i]);
        }
        law_padding_is_dropped(text, rest);
        assert((text + zeros).drop_last() =~= text + rest);
    } else {
        assert(text + zeros =~= text);
    }
}

/// A boot time is the seconds that were told, where they are not below zero.
pub proof fn law_boot_time_is_not_below_zero(sec: i64)
    ensures
        sec >= 0 ==> (boot_time(Some(sec)) matches Some(secs) && secs == sec),
        sec < 0 ==> boot_time(Some(sec)) is None,
        boot_time(None) is None,
{
}

/// A reading stands for itself, and what stands in for it does so only where there
/// is none.
pub proof fn law_readings_stand_for_themselves<T>(
    value: T,
    otherwise: T,
    text: String,
    instead: Seq<char>,
)
    ensures
        reading_or(Some(value), otherwise) == value,
        reading_or(None, otherwise) == otherwise,
        text_or(Some(text), instead) == text@,
        text_or(None, instead) == instead,
{
}

/// The system is named by the first line of its version text, and as FreeBSD where
/// there is none.
pub proof fn law_system_is_named_by_its_first_line(version: String)
    ensures
        system_name(None) == "FreeBSD"@,
        version@.len() == 0 ==> system_name(Some(version)) == "FreeBSD"@,
        version@.len() > 0 ==> first_line(version@) == Some(system_name(Some(version))),
{
}

/// A number of processors that fits 32 bits is reported as told, one of more by its
/// low 32 bits, and none or no answer as one.
pub proof fn law_cores_are_told_or_one(n: u64, high: u64)
    requires
        n < 0x1_0000_0000,
        0 < high < 0x1_0000_0000,
    ensures
        n > 0 ==> core_count(Some(n)) == n,
        core_count(Some((high * 0x1_0000_0000 + n) as u64)) == n,
        core_count(Some(0)) == 1,
        core_count(None) == 1,
{
}

} // verus!
