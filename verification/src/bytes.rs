//! Bytes as the kernel hands them over: text in them, little-endian numbers,
//! and arithmetic that stops at the ends of a counter.

use vstd::arithmetic::power::{lemma_pow0, lemma_pow1, lemma_pow_adds, pow};
use vstd::prelude::*;
use vstd::utf8::{
    decode_utf8, encode_utf8, encode_utf8_decode_utf8, encode_utf8_valid_utf8, valid_utf8,
};

verus! {

/// What the standard library makes of bytes that are not UTF-8: it puts
/// replacement characters where they are malformed.
pub uninterp spec fn repaired(bytes: Seq<u8>) -> Seq<char>;

/// Bytes as text: what they encode where they are UTF-8, else [`repaired`].
pub open spec fn lossy_text(bytes: Seq<u8>) -> Seq<char> {
    if valid_utf8(bytes) {
        decode_utf8(bytes)
    } else {
        repaired(bytes)
    }
}

/// `String::from_utf8_lossy`: bytes that are UTF-8 become the text they encode;
/// of other bytes the result is a function of them, named [`repaired`]. Where
/// the replacement characters go is left unsaid.
#[verifier::external_body]
pub(crate) fn text_of(bytes: &[u8]) -> (text: String)
    ensures
        valid_utf8(bytes@) ==> text@ == decode_utf8(bytes@),
        !valid_utf8(bytes@) ==> text@ == repaired(bytes@),
{
    String::from_utf8_lossy(bytes).into_owned()
}

/// `String::from_utf8`: the text that the bytes encode, or an error exactly
/// where they are not UTF-8.
#[verifier::external_body]
pub(crate) fn utf8_text(bytes: Vec<u8>) -> (text: Option<String>)
    ensures
        match text {
            Some(s) => valid_utf8(bytes@) && s@ == decode_utf8(bytes@),
            None => !valid_utf8(bytes@),
        },
{
    String::from_utf8(bytes).ok()
}

/// The number that bytes stand for, least significant byte first.
pub open spec fn le_value(bytes: Seq<u8>) -> nat
    decreases bytes.len(),
{
    if bytes.len() == 0 {
        0
    } else {
        bytes.first() as nat + 256 * le_value(bytes.drop_first())
    }
}

/// Two bytes of a buffer as a number.
pub(crate) fn le_u16(buf: &[u8], at: usize) -> (value: u16)
    requires
        at + 2 <= buf@.len(),
    ensures
        value == le_value(buf@.subrange(at as int, at + 2)),
{
    let ghost part = buf@.subrange(at as int, at + 2);
    proof {
        reveal_with_fuel(le_value, 3);
        assert(part.drop_first()[0] == part[1]);
    }
    buf[at] as u16 + 256 * (buf[at + 1] as u16)
}

/// Four bytes of a buffer as a number.
pub(crate) fn le_u32(buf: &[u8], at: usize) -> (value: u32)
    requires
        at + 4 <= buf@.len(),
    ensures
        value == le_value(buf@.subrange(at as int, at + 4)),
{
    let ghost part = buf@.subrange(at as int, at + 4);
    proof {
        reveal_with_fuel(le_value, 5);
        assert(part.drop_first()[0] == part[1]);
        assert(part.drop_first().drop_first()[0] == part[2]);
        assert(part.drop_first().drop_first().drop_first()[0] == part[3]);
    }
    buf[at] as u32 + 0x100 * (buf[at + 1] as u32) + 0x1_0000 * (buf[at + 2] as u32) + 0x100_0000 * (
    buf[at + 3] as u32)
}

/// Eight bytes of a buffer as a number.
pub(crate) fn le_u64(buf: &[u8], at: usize) -> (value: u64)
    requires
        at + 8 <= buf@.len(),
    ensures
        value == le_value(buf@.subrange(at as int, at + 8)),
{
    assert(buf@.len() == buf.len());
    let low: u32 = le_u32(buf, at);
    let high: u32 = le_u32(buf, at + 4);
    let ghost whole = buf@.subrange(at as int, at + 8);
    proof {
        reveal_with_fuel(le_value, 5);
        let head = buf@.subrange(at as int, at + 4);
        let tail = buf@.subrange(at + 4, at + 8);
        assert(whole.drop_first().drop_first().drop_first().drop_first() =~= tail);
        assert(head.drop_first()[0] == whole.drop_first()[0]);
        assert(head.drop_first().drop_first()[0] == whole.drop_first().drop_first()[0]);
        assert(head.drop_first().drop_first().drop_first()[0]
            == whole.drop_first().drop_first().drop_first()[0]);
    }
    low as u64 + 0x1_0000_0000 * (high as u64)
}

/// A count as a counter shows it that stops at its largest value.
pub open spec fn capped(n: nat) -> u64 {
    if n > u64::MAX {
        u64::MAX
    } else {
        n as u64
    }
}

/// What is left of `a` after `b`, nothing where `b` is the larger.
pub open spec fn left_over(a: u64, b: u64) -> u64 {
    if a > b {
        (a - b) as u64
    } else {
        0
    }
}

/// The product of two counts.
pub(crate) fn capped_product(a: u64, b: u64) -> (product: u64)
    ensures
        product == capped(a as nat * b as nat),
{
    match a.checked_mul(b) {
        Some(product) => product,
        None => u64::MAX,
    }
}

/// A text that was encoded reads back as itself. Bytes that encode no text are
/// [`repaired`].
pub proof fn law_encoded_text_reads_back(text: Seq<char>, bytes: Seq<u8>)
    ensures
        lossy_text(encode_utf8(text)) == text,
        !valid_utf8(bytes) ==> lossy_text(bytes) == repaired(bytes),
{
    encode_utf8_valid_utf8(text);
    encode_utf8_decode_utf8(text);
}

/// A byte stands for itself, and each further byte weighs 256 times the one
/// before it: bytes that follow others are worth their own number times 256 for
/// every byte before them.
pub proof fn law_later_bytes_weigh_more(low: Seq<u8>, high: Seq<u8>, byte: u8)
    ensures
        le_value(Seq::empty()) == 0,
        le_value(seq![byte]) == byte,
        le_value(low + high) == le_value(low) + pow(256, low.len()) * le_value(high),
    decreases low.len(),
{
    let one = seq![byte];
    assert(one.drop_first() =~= Seq::empty());
    lemma_pow0(256);
    if low.len() == 0 {
        assert(low + high =~= high);
    } else {
        let rest = low.drop_first();
        law_later_bytes_weigh_more(rest, high, byte);
        assert((low + high).drop_first() =~= rest + high);
        lemma_pow1(256);
        lemma_pow_adds(256, 1, rest.len());
        let weight = pow(256, rest.len());
        let more = le_value(high) as int;
        assert(256 * (weight * more) == (256 * weight) * more) by (nonlinear_arith);
    }
}

/// Four bytes by their weights.
pub proof fn law_four_bytes(bytes: Seq<u8>)
    requires
        bytes.len() == 4,
    ensures
        le_value(bytes) == bytes[0] + 0x100 * bytes[1] + 0x1_0000 * bytes[2] + 0x100_0000
            * bytes[3],
{
    reveal_with_fuel(le_value, 5);
    assert(bytes.drop_first()[0] == bytes[1]);
    assert(bytes.drop_first().drop_first()[0] == bytes[2]);
    assert(bytes.drop_first().drop_first().drop_first()[0] == bytes[3]);
}

/// A counter shows what was counted up to its largest value and then stays there,
/// and adding to what it shows is as good as adding to what was counted.
pub proof fn law_counter_stops_at_its_end(n: nat, more: nat)
    ensures
        n <= 0xffff_ffff_ffff_ffff ==> capped(n) == n,
        n >= 0xffff_ffff_ffff_ffff ==> capped(n) == 0xffff_ffff_ffff_ffff,
        capped(capped(n) as nat + more) == capped(n + more),
{
}

/// What is left over and what was taken away are the whole, and nothing is left
/// where more was taken away than there was.
pub proof fn law_left_over_and_taken_are_the_whole(whole: u64, taken: u64)
    ensures
        taken <= whole ==> left_over(whole, taken) + taken == whole,
        taken >= whole ==> left_over(whole, taken) == 0,
{
}

} // verus!
