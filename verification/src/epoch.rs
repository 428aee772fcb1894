//! The span over which counter readings are comparable.

use vstd::prelude::*;
use vstd::relations::{sorted_by, total_ordering};
use vstd::seq_lib::{
    lemma_sorted_unique, to_multiset_build, to_multiset_contains, to_multiset_len,
    to_multiset_remove,
};
use vstd::utf8::{char_u32_cast, decode_utf8, encode_scalar, encode_utf8, encode_utf8_decode_utf8};

use crate::text::{
    decimal, hex, joined, law_split_undoes_join, lemma_decimal_injective, lemma_hex_injective,
    lemma_hex_len, push_decimal, push_hex, split, texts,
};

verus! {

/// Whether `a` comes before `b`, or is `b`, byte by byte.
pub open spec fn bytes_le(a: Seq<u8>, b: Seq<u8>) -> bool
    decreases a.len(),
{
    if a.len() == 0 {
        true
    } else if b.len() == 0 {
        false
    } else if a.first() != b.first() {
        a.first() < b.first()
    } else {
        bytes_le(a.drop_first(), b.drop_first())
    }
}

/// `x` put after those of an ordered list that do not come after it.
pub open spec fn placed(list: Seq<Seq<u8>>, x: Seq<u8>) -> Seq<Seq<u8>>
    decreases list.len(),
{
    if list.len() == 0 || bytes_le(list.last(), x) {
        list.push(x)
    } else {
        placed(list.drop_last(), x).push(list.last())
    }
}

/// A list in byte order.
pub open spec fn ordered(list: Seq<Seq<u8>>) -> Seq<Seq<u8>>
    decreases list.len(),
{
    if list.len() == 0 {
        list
    } else {
        placed(ordered(list.drop_last()), list.last())
    }
}

/// The names as bytes.
pub open spec fn encoded(names: Seq<Seq<char>>) -> Seq<Seq<u8>> {
    names.map_values(|name: Seq<char>| encode_utf8(name))
}

/// The bytes that stand for a set of interfaces: their names in byte order,
/// each on a line of its own.
pub open spec fn name_lines(names: Seq<Seq<char>>) -> Seq<u8> {
    joined(ordered(encoded(names)), 10u8)
}

pub const FNV_BASIS: u64 = 0xcbf2_9ce4_8422_2325;

pub const FNV_PRIME: u64 = 0x0100_0000_01b3;

/// The 64-bit FNV-1a hash.
pub open spec fn fnv1a(bytes: Seq<u8>) -> u64
    decreases bytes.len(),
{
    if bytes.len() == 0 {
        FNV_BASIS
    } else {
        (((fnv1a(bytes.drop_last()) ^ (bytes.last() as u64)) * FNV_PRIME)
            % 0x1_0000_0000_0000_0000) as u64
    }
}

/// The text that names the span: the boot time, then the hash of the names.
pub open spec fn epoch_text(boot_time: u64, names: Seq<Seq<char>>) -> Seq<char> {
    decimal(boot_time as nat) + "/"@ + hex(fnv1a(name_lines(names)) as nat, 16)
}

/// Names the span over which the counters of a set of interfaces are
/// comparable. The names are sorted, since the system lists a recreated
/// interface in a new position without the set having changed.
pub fn epoch(boot_time: u64, names: &Vec<String>) -> (id: String)
    ensures
        id@ == epoch_text(boot_time, texts(names@)),
{
    let sorted: Vec<Vec<u8>> = sort_names(names);
    let digest: u64 = digest_lines(&sorted);
    let mut id: String = String::new();
    push_decimal(&mut id, boot_time);
    id.append("/");
    push_hex(&mut id, digest, 16);
    assert(id@ =~= epoch_text(boot_time, texts(names@)));
    id
}

/// The byte strings of a list.
spec fn byte_views(list: Seq<Vec<u8>>) -> Seq<Seq<u8>> {
    list.map_values(|b: Vec<u8>| b@)
}

/// Whether `a` comes before `b`, or is `b`.
fn comes_before(a: &Vec<u8>, b: &Vec<u8>) -> (yes: bool)
    ensures
        yes == bytes_le(a@, b@),
{
    let mut i: usize = 0;
    assert(a@.skip(0) =~= a@);
    assert(b@.skip(0) =~= b@);
    while i < a.len()
        invariant
            i <= a.len(),
            i <= b.len(),
            bytes_le(a@.skip(i as int), b@.skip(i as int)) == bytes_le(a@, b@),
        decreases a.len() - i,
    {
        if i >= b.len() {
            return false;
        }
        if a[i] != b[i] {
            return a[i] < b[i];
        }
        assert(a@.skip(i as int).drop_first() =~= a@.skip(i + 1));
        assert(b@.skip(i as int).drop_first() =~= b@.skip(i + 1));
        i = i + 1;
    }
    true
}

/// Putting `x` at `at` is placing it, where all from `at` on come after it.
proof fn lemma_placed(list: Seq<Seq<u8>>, x: Seq<u8>, at: int)
    requires
        0 <= at <= list.len(),
        forall|k: int| at <= k < list.len() ==> !bytes_le(#[trigger] list[k], x),
        at > 0 ==> bytes_le(list[at - 1], x),
    ensures
        placed(list, x) == list.insert(at, x),
    decreases list.len(),
{
    if at < list.len() {
        assert(!bytes_le(list[list.len() - 1], x));
        lemma_placed(list.drop_last(), x, at);
        assert(list.drop_last().insert(at, x).push(list.last()) =~= list.insert(at, x));
    } else {
        assert(list.push(x) =~= list.insert(at, x));
    }
}

/// The names as bytes, in order.
fn sort_names(names: &Vec<String>) -> (sorted: Vec<Vec<u8>>)
    ensures
        byte_views(sorted@) == ordered(encoded(texts(names@))),
{
    let mut sorted: Vec<Vec<u8>> = Vec::new();
    let ghost all = encoded(texts(names@));
    assert(all.take(0) =~= Seq::empty());
    assert(byte_views(sorted@) =~= ordered(all.take(0)));
    for i in 0..names.len()
        invariant
            all == encoded(texts(names@)),
            byte_views(sorted@) == ordered(all.take(i as int)),
    {
        let name: Vec<u8> = names[i].as_str().as_bytes_vec();
        assert(texts(names@)[i as int] == names[i as int]@);
        assert(name@ == all[i as int]);
        let mut at: usize = sorted.len();
        while at > 0 && !comes_before(&sorted[at - 1], &name)
            invariant
                at <= sorted.len(),
                forall|k: int|
                    at <= k < sorted.len() ==> !bytes_le(#[trigger] byte_views(sorted@)[k], name@),
            decreases at,
        {
            assert(byte_views(sorted@)[at - 1] == sorted[at - 1]@);
            at = at - 1;
        }
        let ghost so_far = byte_views(sorted@);
        proof {
            assert(at > 0 ==> so_far[at - 1] == sorted[at - 1]@);
            lemma_placed(so_far, name@, at as int);
            assert(all.take(i + 1).drop_last() =~= all.take(i as int));
        }
        sorted.insert(at, name);
        assert(byte_views(sorted@) =~= so_far.insert(at as int, all[i as int]));
    }
    assert(all.take(names.len() as int) =~= all);
    sorted
}

/// The hash of a text that goes on after what `hash` is of.
fn digest_more(hash: u64, bytes: &Vec<u8>, Ghost(start): Ghost<Seq<u8>>) -> (more: u64)
    requires
        hash == fnv1a(start),
    ensures
        more == fnv1a(start + bytes@),
{
    let mut more: u64 = hash;
    assert(start + bytes@.take(0) =~= start);
    for i in 0..bytes.len()
        invariant
            more == fnv1a(start + bytes@.take(i as int)),
    {
        let ghost longer = start + bytes@.take(i + 1);
        assert(longer.drop_last() =~= start + bytes@.take(i as int));
        more = (more ^ (bytes[i] as u64)).wrapping_mul(FNV_PRIME);
    }
    assert(bytes@.take(bytes.len() as int) =~= bytes@);
    more
}

/// The hash of a list, each of it on a line of its own.
fn digest_lines(list: &Vec<Vec<u8>>) -> (digest: u64)
    ensures
        digest == fnv1a(joined(byte_views(list@), 10u8)),
{
    let mut digest: u64 = FNV_BASIS;
    let ghost all = byte_views(list@);
    assert(all.take(0) =~= Seq::empty());
    for i in 0..list.len()
        invariant
            all == byte_views(list@),
            digest == fnv1a(joined(all.take(i as int), 10u8)),
    {
        let ghost so_far = joined(all.take(i as int), 10u8);
        assert(all.take(i + 1).drop_last() =~= all.take(i as int));
        if i > 0 {
            assert(so_far.push(10u8).drop_last() =~= so_far);
            digest = (digest ^ 10).wrapping_mul(FNV_PRIME);
            digest = digest_more(digest, &list[i], Ghost(so_far.push(10u8)));
        } else {
            digest = digest_more(digest, &list[i], Ghost(so_far));
            assert(so_far + all[0] =~= all[0]);
        }
    }
    assert(all.take(list.len() as int) =~= all);
    digest
}

proof fn lemma_le_total(a: Seq<u8>, b: Seq<u8>)
    ensures
        bytes_le(a, b) || bytes_le(b, a),
        bytes_le(a, b) && bytes_le(b, a) ==> a == b,
    decreases a.len(),
{
    if a.len() > 0 && b.len() > 0 {
        lemma_le_total(a.drop_first(), b.drop_first());
        if a.first() == b.first() && a.drop_first() == b.drop_first() {
            assert(a =~= seq![a.first()] + a.drop_first());
            assert(b =~= seq![b.first()] + b.drop_first());
        }
    } else if a.len() == 0 && b.len() == 0 {
        assert(a =~= b);
    }
}

proof fn lemma_le_transitive(a: Seq<u8>, b: Seq<u8>, c: Seq<u8>)
    requires
        bytes_le(a, b),
        bytes_le(b, c),
    ensures
        bytes_le(a, c),
    decreases a.len(),
{
    if a.len() > 0 && a.first() == b.first() && b.first() == c.first() {
        lemma_le_transitive(a.drop_first(), b.drop_first(), c.drop_first());
    }
}

/// Byte order is a total order.
proof fn lemma_le_order()
    ensures
        total_ordering(|a: Seq<u8>, b: Seq<u8>| bytes_le(a, b)),
{
    let le = |a: Seq<u8>, b: Seq<u8>| bytes_le(a, b);
    assert forall|a: Seq<u8>| #[trigger] le(a, a) by {
        lemma_le_total(a, a);
    }
    assert forall|a: Seq<u8>, b: Seq<u8>| #[trigger] le(a, b) && #[trigger] le(b, a) implies a
        == b by {
        lemma_le_total(a, b);
    }
    assert forall|a: Seq<u8>, b: Seq<u8>| #[trigger] le(a, b) || #[trigger] le(b, a) by {
        lemma_le_total(a, b);
    }
    assert forall|a: Seq<u8>, b: Seq<u8>, c: Seq<u8>| #[trigger]
        le(a, b) && #[trigger] le(b, c) implies le(a, c) by {
        lemma_le_transitive(a, b, c);
    }
}

/// Placing keeps a list ordered and adds the one element.
proof fn lemma_placed_ordered(list: Seq<Seq<u8>>, x: Seq<u8>)
    requires
        sorted_by(list, |a: Seq<u8>, b: Seq<u8>| bytes_le(a, b)),
    ensures
        sorted_by(placed(list, x), |a: Seq<u8>, b: Seq<u8>| bytes_le(a, b)),
        placed(list, x).to_multiset() == list.to_multiset().insert(x),
        forall|y: Seq<u8>| #[trigger] placed(list, x).contains(y) ==> y == x || list.contains(y),
    decreases list.len(),
{
    let le = |a: Seq<u8>, b: Seq<u8>| bytes_le(a, b);
    to_multiset_build(list, x);
    if list.len() == 0 || bytes_le(list.last(), x) {
        let out = list.push(x);
        assert forall|i: int, j: int| 0 <= i < j < out.len() implies #[trigger] le(
            out[i],
            out[j],
        ) by {
            if j == list.len() {
                if i < list.len() - 1 {
                    assert(le(list[i], list[list.len() - 1]));
                    lemma_le_transitive(list[i], list.last(), x);
                }
            } else {
                assert(le(list[i], list[j]));
            }
        }
        assert forall|y: Seq<u8>| #[trigger] placed(list, x).contains(y) implies y == x
            || list.contains(y) by {
            let i = out.index_of(y);
            if i < list.len() {
                assert(list[i] == y);
            }
        }
    } else {
        let shorter = list.drop_last();
        assert forall|i: int, j: int| 0 <= i < j < shorter.len() implies #[trigger] le(
            shorter[i],
            shorter[j],
        ) by {
            assert(le(list[i], list[j]));
        }
        lemma_placed_ordered(shorter, x);
        let inner = placed(shorter, x);
        let out = inner.push(list.last());
        to_multiset_build(inner, list.last());
        to_multiset_build(shorter, list.last());
        assert(shorter.push(list.last()) =~= list);
        assert(shorter.to_multiset().insert(x).insert(list.last())
            =~= shorter.to_multiset().insert(list.last()).insert(x));
        assert forall|y: Seq<u8>| inner.contains(y) implies bytes_le(y, list.last()) by {
            if y == x {
                lemma_le_total(x, list.last());
            } else {
                let k = shorter.index_of(y);
                assert(le(list[k], list[list.len() - 1]));
            }
        }
        assert forall|i: int, j: int| 0 <= i < j < out.len() implies #[trigger] le(
            out[i],
            out[j],
        ) by {
            if j == inner.len() {
                assert(inner.contains(inner[i]));
            } else {
                assert(le(inner[i], inner[j]));
            }
        }
        assert forall|y: Seq<u8>| #[trigger] placed(list, x).contains(y) implies y == x
            || list.contains(y) by {
            let i = out.index_of(y);
            if i < inner.len() {
                assert(inner.contains(y));
                if y != x {
                    let k = shorter.index_of(y);
                    assert(list[k] == y);
                }
            } else {
                assert(list[list.len() - 1] == y);
            }
        }
    }
}

/// A list in order is sorted and has the elements of the list.
pub proof fn law_ordered_is_sorted(list: Seq<Seq<u8>>)
    ensures
        sorted_by(ordered(list), |a: Seq<u8>, b: Seq<u8>| bytes_le(a, b)),
        ordered(list).to_multiset() == list.to_multiset(),
    decreases list.len(),
{
    if list.len() > 0 {
        law_ordered_is_sorted(list.drop_last());
        lemma_placed_ordered(ordered(list.drop_last()), list.last());
        to_multiset_build(list.drop_last(), list.last());
        assert(list.drop_last().push(list.last()) =~= list);
    }
}

/// The same elements in another order have the same images.
proof fn lemma_map_same_elements<A, B>(a: Seq<A>, b: Seq<A>, f: spec_fn(A) -> B)
    requires
        a.to_multiset() == b.to_multiset(),
    ensures
        a.map_values(f).to_multiset() == b.map_values(f).to_multiset(),
    decreases a.len(),
{
    to_multiset_len(a);
    to_multiset_len(b);
    if a.len() == 0 {
        assert(a.map_values(f) =~= b.map_values(f));
    } else {
        let x = a.last();
        assert(a.contains(a[a.len() - 1]));
        to_multiset_contains(a, x);
        to_multiset_contains(b, x);
        let k = b.index_of(x);
        let rest = a.remove(a.len() - 1);
        to_multiset_remove(a, a.len() - 1);
        to_multiset_remove(b, k);
        lemma_map_same_elements(rest, b.remove(k), f);
        to_multiset_build(rest.map_values(f), f(x));
        assert(rest.map_values(f).push(f(x)) =~= a.map_values(f));
        to_multiset_remove(b.map_values(f), k);
        assert(b.map_values(f).remove(k) =~= b.remove(k).map_values(f));
        let all = b.map_values(f).to_multiset();
        to_multiset_contains(b.map_values(f), f(x));
        assert(b.map_values(f)[k] == f(x));
        assert(all.remove(f(x)).insert(f(x)) =~= all);
    }
}

/// The order in which the interfaces are listed does not change the name of
/// the span.
pub proof fn law_epoch_ignores_order(boot_time: u64, a: Seq<Seq<char>>, b: Seq<Seq<char>>)
    requires
        a.to_multiset() == b.to_multiset(),
    ensures
        epoch_text(boot_time, a) == epoch_text(boot_time, b),
{
    let le = |x: Seq<u8>, y: Seq<u8>| bytes_le(x, y);
    lemma_map_same_elements(a, b, |name: Seq<char>| encode_utf8(name));
    law_ordered_is_sorted(encoded(a));
    law_ordered_is_sorted(encoded(b));
    lemma_le_order();
    lemma_sorted_unique(ordered(encoded(a)), ordered(encoded(b)), le);
}

/// A name without a newline is encoded without the byte of one.
proof fn lemma_encoded_without_newline(name: Seq<char>)
    requires
        !name.contains('\n'),
    ensures
        !encode_utf8(name).contains(10u8),
    decreases name.len(),
{
    if name.len() > 0 {
        let rest = name.drop_first();
        assert forall|i: int| 0 <= i < rest.len() implies rest[i] != '\n' by {
            assert(name[i + 1] != '\n');
        }
        lemma_encoded_without_newline(rest);
        assert(name[0] != '\n');
        let c = name[0] as u32;
        let head = encode_scalar(c);
        char_u32_cast(name[0], c);
        assert(c != 10);
        assert(c <= 0x7f ==> (c & 0x7f) as u8 != 10) by (bit_vector)
            requires
                c != 10,
        ;
        assert(forall|v: u8| #[trigger] (0xc0 | v) != 10u8) by (bit_vector);
        assert(forall|v: u8| #[trigger] (0xe0 | v) != 10u8) by (bit_vector);
        assert(forall|v: u8| #[trigger] (0xf0 | v) != 10u8) by (bit_vector);
        assert(forall|v: u8| #[trigger] (0x80 | v) != 10u8) by (bit_vector);
        assert forall|i: int| 0 <= i < head.len() implies head[i] != 10u8 by {}
        let all = head + encode_utf8(rest);
        assert forall|i: int| 0 <= i < all.len() implies all[i] != 10u8 by {
            if i >= head.len() {
                assert(encode_utf8(rest)[i - head.len()] != 10u8);
            }
        }
    }
}

/// The names of two sets of interfaces, each name on a line of its own, are the
/// same bytes only where the sets are the same. A newline cannot occur in a
/// name; the empty set and the set of one empty name are the pair that this
/// cannot tell apart.
pub proof fn law_names_join_apart(a: Seq<Seq<char>>, b: Seq<Seq<char>>)
    requires
        forall|i: int| 0 <= i < a.len() ==> !(#[trigger] a[i]).contains('\n'),
        forall|i: int| 0 <= i < b.len() ==> !(#[trigger] b[i]).contains('\n'),
        !(a.len() == 0 && b == seq![Seq::<char>::empty()]),
        !(b.len() == 0 && a == seq![Seq::<char>::empty()]),
        name_lines(a) == name_lines(b),
    ensures
        a.to_multiset() == b.to_multiset(),
{
    lemma_lines(a);
    lemma_lines(b);
    let la = ordered(encoded(a));
    let lb = ordered(encoded(b));
    law_ordered_is_sorted(encoded(a));
    law_ordered_is_sorted(encoded(b));
    lemma_decoded(a);
    lemma_decoded(b);
    if a.len() > 0 && b.len() > 0 {
        assert(la == lb);
        lemma_map_same_elements(encoded(a), encoded(b), |bytes: Seq<u8>| decode_utf8(bytes));
    } else if a.len() == 0 && b.len() == 0 {
        assert(a =~= b);
    } else if a.len() == 0 {
        lemma_no_line(b);
    } else {
        lemma_no_line(a);
    }
}

/// The lines of the names are their encodings in order.
proof fn lemma_lines(names: Seq<Seq<char>>)
    requires
        forall|i: int| 0 <= i < names.len() ==> !(#[trigger] names[i]).contains('\n'),
    ensures
        ordered(encoded(names)).len() == names.len(),
        names.len() > 0 ==> split(name_lines(names), 10u8) == ordered(encoded(names)),
{
    let list = encoded(names);
    law_ordered_is_sorted(list);
    to_multiset_len(list);
    to_multiset_len(ordered(list));
    if names.len() > 0 {
        assert forall|i: int| 0 <= i < list.len() implies !(#[trigger] ordered(list)[i]).contains(
            10u8,
        ) by {
            let line = ordered(list)[i];
            assert(ordered(list).contains(line));
            to_multiset_contains(ordered(list), line);
            to_multiset_contains(list, line);
            let k = list.index_of(line);
            lemma_encoded_without_newline(names[k]);
        }
        law_split_undoes_join(ordered(list), 10u8);
    }
}

/// Names whose lines are no bytes at all are one empty name.
proof fn lemma_no_line(names: Seq<Seq<char>>)
    requires
        names.len() > 0,
        forall|i: int| 0 <= i < names.len() ==> !(#[trigger] names[i]).contains('\n'),
        name_lines(names).len() == 0,
    ensures
        names == seq![Seq::<char>::empty()],
{
    lemma_lines(names);
    let lines = ordered(encoded(names));
    assert(name_lines(names) =~= Seq::empty());
    assert(lines =~= seq![Seq::<u8>::empty()]);
    assert(names.len() == 1);
    assert(encoded(names).drop_last() =~= Seq::empty());
    assert(lines =~= seq![encode_utf8(names[0])]);
    assert(encode_utf8(names[0]) =~= lines[0]);
    encode_utf8_decode_utf8(names[0]);
    encode_utf8_decode_utf8(Seq::<char>::empty());
    assert(encode_utf8(Seq::<char>::empty()) =~= Seq::<u8>::empty());
    assert(names =~= seq![Seq::<char>::empty()]);
}

/// Decoding gives the names back.
proof fn lemma_decoded(names: Seq<Seq<char>>)
    ensures
        encoded(names).map_values(|bytes: Seq<u8>| decode_utf8(bytes)) == names,
{
    let back = encoded(names).map_values(|bytes: Seq<u8>| decode_utf8(bytes));
    assert forall|i: int| 0 <= i < names.len() implies back[i] == names[i] by {
        encode_utf8_decode_utf8(names[i]);
    }
    assert(back =~= names);
}

/// Equal names of spans mean the same boot time and the same hash of names.
pub proof fn law_epoch_holds_boot_time_and_digest(
    boot_a: u64,
    a: Seq<Seq<char>>,
    boot_b: u64,
    b: Seq<Seq<char>>,
)
    requires
        epoch_text(boot_a, a) == epoch_text(boot_b, b),
    ensures
        boot_a == boot_b,
        fnv1a(name_lines(a)) == fnv1a(name_lines(b)),
{
    let da = decimal(boot_a as nat);
    let db = decimal(boot_b as nat);
    let ha = hex(fnv1a(name_lines(a)) as nat, 16);
    let hb = hex(fnv1a(name_lines(b)) as nat, 16);
    lemma_hex_len(fnv1a(name_lines(a)) as nat, 16);
    lemma_hex_len(fnv1a(name_lines(b)) as nat, 16);
    reveal_strlit("/");
    assert(epoch_text(boot_a, a).len() == da.len() + 17);
    assert(epoch_text(boot_b, b).len() == db.len() + 17);
    assert(da =~= epoch_text(boot_a, a).take(da.len() as int));
    assert(db =~= epoch_text(boot_b, b).take(da.len() as int));
    assert(ha =~= epoch_text(boot_a, a).skip((da.len() + 1) as int));
    assert(hb =~= epoch_text(boot_b, b).skip((da.len() + 1) as int));
    lemma_decimal_injective(boot_a as nat, boot_b as nat);
    lemma_hex_injective(fnv1a(name_lines(a)) as nat, fnv1a(name_lines(b)) as nat);
}

/// A change of the boot time changes the name of the span, and so does a change
/// of the set of interfaces, unless the hash is the same for both sets. (The
/// sets that [`law_names_join_apart`] cannot tell apart are left out.)
pub proof fn law_epoch_changes(
    boot_a: u64,
    a: Seq<Seq<char>>,
    boot_b: u64,
    b: Seq<Seq<char>>,
)
    requires
        forall|i: int| 0 <= i < a.len() ==> !(#[trigger] a[i]).contains('\n'),
        forall|i: int| 0 <= i < b.len() ==> !(#[trigger] b[i]).contains('\n'),
        !(a.len() == 0 && b == seq![Seq::<char>::empty()]),
        !(b.len() == 0 && a == seq![Seq::<char>::empty()]),
        fnv1a(name_lines(a)) == fnv1a(name_lines(b)) ==> name_lines(a) == name_lines(b),
        boot_a != boot_b || a.to_multiset() != b.to_multiset(),
    ensures
        epoch_text(boot_a, a) != epoch_text(boot_b, b),
{
    if epoch_text(boot_a, a) == epoch_text(boot_b, b) {
        law_epoch_holds_boot_time_and_digest(boot_a, a, boot_b, b);
        law_names_join_apart(a, b);
    }
}

/// The boot time leads the name of the span.
pub proof fn law_boot_time_leads(boot_time: u64, names: Seq<Seq<char>>)
    ensures
        (decimal(boot_time as nat) + "/"@).is_prefix_of(epoch_text(boot_time, names)),
{
    let lead = decimal(boot_time as nat) + "/"@;
    assert(lead =~= epoch_text(boot_time, names).subrange(0, lead.len() as int));
}

/// Bytes are compared from the front: what both begin with does not matter, then
/// the smaller byte comes first, and what has ended comes before what goes on.
pub proof fn law_byte_order_from_the_front(common: Seq<u8>, a: Seq<u8>, b: Seq<u8>)
    ensures
        bytes_le(common + a, common + b) == bytes_le(a, b),
        a.len() == 0 ==> bytes_le(a, b),
        a.len() > 0 && b.len() == 0 ==> !bytes_le(a, b),
        a.len() > 0 && b.len() > 0 && a[0] != b[0] ==> bytes_le(a, b) == (a[0] < b[0]),
    decreases common.len(),
{
    if common.len() == 0 {
        assert(common + a =~= a);
        assert(common + b =~= b);
    } else {
        law_byte_order_from_the_front(common.drop_first(), a, b);
        assert((common + a).drop_first() =~= common.drop_first() + a);
        assert((common + b).drop_first() =~= common.drop_first() + b);
    }
}

/// Each byte is mixed into the hash by an exclusive or and a multiplication in 64
/// bits.
pub proof fn law_hash_byte_by_byte(bytes: Seq<u8>, byte: u8)
    ensures
        fnv1a(Seq::empty()) == 0xcbf2_9ce4_8422_2325,
        fnv1a(bytes.push(byte)) == ((fnv1a(bytes) ^ (byte as u64)) * 0x100_0000_01b3)
            % 0x1_0000_0000_0000_0000,
{
    assert(bytes.push(byte).drop_last() =~= bytes);
}

/// The bytes that are hashed are the encoded names in byte order with a newline
/// between neighbours, in whatever order the names are listed.
pub proof fn law_names_are_hashed_in_byte_order(names: Seq<Seq<char>>, lines: Seq<Seq<u8>>)
    requires
        lines.to_multiset() == names.map_values(
            |name: Seq<char>| encode_utf8(name),
        ).to_multiset(),
        forall|i: int, j: int|
            0 <= i < j < lines.len() ==> #[trigger] bytes_le(lines[i], lines[j]),
    ensures
        name_lines(names) == joined(lines, 0xau8),
{
    let le = |x: Seq<u8>, y: Seq<u8>| bytes_le(x, y);
    assert forall|i: int, j: int| 0 <= i < j < lines.len() implies #[trigger] le(
        lines[i],
        lines[j],
    ) by {
        assert(bytes_le(lines[i], lines[j]));
    }
    assert(encoded(names) =~= names.map_values(|name: Seq<char>| encode_utf8(name)));
    law_ordered_is_sorted(encoded(names));
    lemma_le_order();
    lemma_sorted_unique(ordered(encoded(names)), lines, le);
}

/// The name of a span is the boot time, a slash and the sixteen digits of the
/// hash.
pub proof fn law_epoch_is_boot_time_slash_hash(boot_time: u64, names: Seq<Seq<char>>)
    ensures
        epoch_text(boot_time, names) == decimal(boot_time as nat).push('/') + hex(
            fnv1a(name_lines(names)) as nat,
            16,
        ),
{
    reveal_strlit("/");
    assert(epoch_text(boot_time, names) =~= decimal(boot_time as nat).push('/') + hex(
        fnv1a(name_lines(names)) as nat,
        16,
    ));
}

} // verus!
