//! Text as the agent reads and writes it: sequences of characters, their
//! pieces, and the numbers printed in them.

use vstd::arithmetic::power::{lemma_pow0, lemma_pow1, lemma_pow_adds, pow};
use vstd::prelude::*;

verus! {

/// The characters that carry the Unicode property White_Space.
pub open spec fn is_white_space(c: char) -> bool {
    ||| '\u{9}' <= c <= '\u{d}'
    ||| c == ' '
    ||| c == '\u{85}'
    ||| c == '\u{a0}'
    ||| c == '\u{1680}'
    ||| '\u{2000}' <= c <= '\u{200a}'
    ||| c == '\u{2028}'
    ||| c == '\u{2029}'
    ||| c == '\u{202f}'
    ||| c == '\u{205f}'
    ||| c == '\u{3000}'
}

/// `char::is_whitespace` is true of exactly the characters with the property
/// White_Space, which [`is_white_space`] lists.
pub assume_specification[ char::is_whitespace ](c: char) -> (yes: bool)
    ensures
        yes == is_white_space(c),
;

/// The texts of a list of strings.
pub open spec fn texts(list: Seq<String>) -> Seq<Seq<char>> {
    list.map_values(|s: String| s@)
}

/// The number of elements of `s` that come before the first `stop`, all of
/// them where `stop` does not occur.
pub open spec fn run_before<T>(s: Seq<T>, stop: T) -> nat
    decreases s.len(),
{
    if s.len() == 0 || s.first() == stop {
        0
    } else {
        1 + run_before(s.drop_first(), stop)
    }
}

/// What comes before the first `stop`.
pub open spec fn before<T>(s: Seq<T>, stop: T) -> Seq<T> {
    s.take(run_before(s, stop) as int)
}

/// `s` cut at every `sep`, which is dropped. A text without `sep` is its own
/// only piece.
pub open spec fn split<T>(s: Seq<T>, sep: T) -> Seq<Seq<T>>
    decreases s.len(),
{
    if s.len() == 0 {
        seq![Seq::empty()]
    } else {
        let cut = split(s.drop_last(), sep);
        if s.last() == sep {
            cut.push(Seq::empty())
        } else {
            cut.drop_last().push(cut.last().push(s.last()))
        }
    }
}

/// The pieces in order with one `sep` between neighbours.
pub open spec fn joined<T>(pieces: Seq<Seq<T>>, sep: T) -> Seq<T>
    decreases pieces.len(),
{
    if pieces.len() == 0 {
        Seq::empty()
    } else if pieces.len() == 1 {
        pieces[0]
    } else {
        joined(pieces.drop_last(), sep).push(sep) + pieces.last()
    }
}

/// `s` without the white space at its two ends.
pub open spec fn trimmed(s: Seq<char>) -> Seq<char>
    decreases s.len(),
{
    if s.len() > 0 && is_white_space(s.first()) {
        trimmed(s.drop_first())
    } else if s.len() > 0 && is_white_space(s.last()) {
        trimmed(s.drop_last())
    } else {
        s
    }
}

/// The first line of a text, without the line feed that ends it or the
/// carriage return before that line feed. An empty text has no line.
pub open spec fn first_line(s: Seq<char>) -> Option<Seq<char>> {
    let line = before(s, '\n');
    if s.len() == 0 {
        None
    } else if line.len() < s.len() && line.len() > 0 && line.last() == '\r' {
        Some(line.drop_last())
    } else {
        Some(line)
    }
}

/// The digit for `d`, one of `0` to `9` and `a` to `f`.
pub open spec fn digit(d: int) -> char
    recommends
        0 <= d < 16,
{
    if d < 10 {
        (48 + d) as char
    } else {
        (87 + d) as char
    }
}

/// `n` in decimal, without leading zeros.
pub open spec fn decimal(n: nat) -> Seq<char>
    decreases n,
{
    if n < 10 {
        seq![digit(n as int)]
    } else {
        decimal(n / 10).push(digit((n % 10) as int))
    }
}

/// The last `width` hexadecimal digits of `n`.
pub open spec fn hex(n: nat, width: nat) -> Seq<char>
    decreases width,
{
    if width == 0 {
        Seq::empty()
    } else {
        hex(n / 16, (width - 1) as nat).push(digit((n % 16) as int))
    }
}

/// `n` elements that are not `stop`, with `stop` or the end after them, are
/// the run before `stop`.
pub(crate) proof fn lemma_run_before<T>(s: Seq<T>, stop: T, n: nat)
    requires
        n <= s.len(),
        forall|i: int| 0 <= i < n ==> s[i] != stop,
        n < s.len() ==> s[n as int] == stop,
    ensures
        run_before(s, stop) == n,
    decreases s.len(),
{
    if n > 0 {
        lemma_run_before(s.drop_first(), stop, (n - 1) as nat);
    }
}

/// What comes before the first `stop` does not hold it.
pub(crate) proof fn lemma_before_lacks<T>(s: Seq<T>, stop: T)
    ensures
        run_before(s, stop) <= s.len(),
        !before(s, stop).contains(stop),
    decreases s.len(),
{
    if s.len() > 0 && s.first() != stop {
        lemma_before_lacks(s.drop_first(), stop);
        let rest = before(s.drop_first(), stop);
        assert forall|i: int| 0 <= i < before(s, stop).len() implies before(s, stop)[i] != stop by {
            if i > 0 {
                assert(rest[i - 1] == s[i]);
                assert(!rest.contains(stop));
            }
        }
    }
}

/// No piece of a cut holds the separator, and there is at least one piece.
pub(crate) proof fn lemma_split_pieces<T>(s: Seq<T>, sep: T)
    ensures
        split(s, sep).len() > 0,
        forall|i: int|
            0 <= i < split(s, sep).len() ==> !(#[trigger] split(s, sep)[i]).contains(sep),
    decreases s.len(),
{
    if s.len() > 0 {
        let cut = split(s.drop_last(), sep);
        lemma_split_pieces(s.drop_last(), sep);
        assert(!cut.last().contains(sep));
        if s.last() != sep {
            let longer = cut.last().push(s.last());
            assert forall|i: int| 0 <= i < longer.len() implies longer[i] != sep by {
                if i < cut.last().len() {
                    assert(longer[i] == cut.last()[i]);
                }
            }
        }
    }
}

/// A text without the separator is its own only piece.
proof fn lemma_split_whole<T>(s: Seq<T>, sep: T)
    requires
        !s.contains(sep),
    ensures
        split(s, sep) == seq![s],
    decreases s.len(),
{
    if s.len() > 0 {
        assert forall|i: int| 0 <= i < s.len() - 1 implies s.drop_last()[i] != sep by {
            assert(s[i] != sep);
        }
        lemma_split_whole(s.drop_last(), sep);
        assert(s.drop_last().push(s.last()) =~= s);
        assert(split(s, sep) =~= seq![s]);
    } else {
        assert(s =~= Seq::empty());
    }
}

/// A separator and a text without it add one piece to a cut.
proof fn lemma_split_append<T>(s: Seq<T>, sep: T, piece: Seq<T>)
    requires
        !piece.contains(sep),
    ensures
        split(s.push(sep) + piece, sep) == split(s, sep).push(piece),
    decreases piece.len(),
{
    let whole = s.push(sep) + piece;
    if piece.len() == 0 {
        assert(whole =~= s.push(sep));
        assert(s.push(sep).drop_last() =~= s);
        assert(piece =~= Seq::empty());
    } else {
        let shorter = piece.drop_last();
        assert forall|i: int| 0 <= i < shorter.len() implies shorter[i] != sep by {
            assert(piece[i] != sep);
        }
        lemma_split_append(s, sep, shorter);
        assert(whole.drop_last() =~= s.push(sep) + shorter);
        assert(whole.last() == piece.last());
        assert(piece[piece.len() - 1] != sep);
        assert(split(s, sep).push(shorter).drop_last() =~= split(s, sep));
        assert(shorter.push(piece.last()) =~= piece);
    }
}

/// Cutting undoes joining, for at least one piece and pieces without the
/// separator.
pub proof fn law_split_undoes_join<T>(pieces: Seq<Seq<T>>, sep: T)
    requires
        pieces.len() > 0,
        forall|i: int| 0 <= i < pieces.len() ==> !(#[trigger] pieces[i]).contains(sep),
    ensures
        split(joined(pieces, sep), sep) == pieces,
    decreases pieces.len(),
{
    assert(!pieces.last().contains(sep));
    if pieces.len() == 1 {
        lemma_split_whole(pieces[0], sep);
        assert(seq![pieces[0]] =~= pieces);
    } else {
        law_split_undoes_join(pieces.drop_last(), sep);
        lemma_split_append(joined(pieces.drop_last(), sep), sep, pieces.last());
        assert(pieces.drop_last().push(pieces.last()) =~= pieces);
    }
}

/// Joining undoes cutting.
pub proof fn law_join_undoes_split<T>(s: Seq<T>, sep: T)
    ensures
        joined(split(s, sep), sep) == s,
    decreases s.len(),
{
    if s.len() > 0 {
        let cut = split(s.drop_last(), sep);
        law_join_undoes_split(s.drop_last(), sep);
        lemma_split_pieces(s.drop_last(), sep);
        if s.last() == sep {
            assert(cut.push(Seq::empty()).drop_last() =~= cut);
            assert(joined(cut.push(Seq::empty()), sep) =~= s);
        } else {
            let longer = cut.drop_last().push(cut.last().push(s.last()));
            assert(longer.drop_last() =~= cut.drop_last());
            assert(joined(longer, sep) =~= joined(cut, sep).push(s.last()));
            assert(s.drop_last().push(s.last()) =~= s);
        }
    } else {
        assert(joined(split(s, sep), sep) =~= s);
    }
}

/// A filtered list holds the elements of the list that pass.
pub(crate) proof fn lemma_filter_member<T>(s: Seq<T>, pass: spec_fn(T) -> bool, x: T)
    ensures
        s.filter(pass).contains(x) <==> s.contains(x) && pass(x),
{
    let left = s.filter(pass);
    if left.contains(x) {
        s.lemma_filter_contains_rev(pass, x);
        let i = left.index_of(x);
        s.lemma_filter_pred(pass, i);
    }
    if s.contains(x) && pass(x) {
        let i = s.index_of(x);
        s.lemma_filter_contains(pass, i);
    }
}

/// A filter that all elements pass keeps them all.
pub(crate) proof fn lemma_filter_all<T>(s: Seq<T>, pass: spec_fn(T) -> bool)
    requires
        forall|i: int| 0 <= i < s.len() ==> pass(#[trigger] s[i]),
    ensures
        s.filter(pass) == s,
    decreases s.len(),
{
    reveal(Seq::filter);
    if s.len() > 0 {
        lemma_filter_all(s.drop_last(), pass);
        assert(s.drop_last().push(s.last()) =~= s);
        assert(pass(s[s.len() - 1]));
    }
}

/// A trimmed text is a part of the text and has nothing left to trim.
pub(crate) proof fn lemma_trimmed(s: Seq<char>)
    ensures
        trimmed(trimmed(s)) == trimmed(s),
        forall|c: char| #[trigger] trimmed(s).contains(c) ==> s.contains(c),
    decreases s.len(),
{
    if s.len() > 0 && is_white_space(s.first()) {
        lemma_trimmed(s.drop_first());
        assert forall|c: char| #[trigger] trimmed(s).contains(c) implies s.contains(c) by {
            assert(trimmed(s.drop_first()).contains(c));
            assert(s.drop_first().contains(c));
            let i = s.drop_first().index_of(c);
            assert(s[i + 1] == c);
        }
    } else if s.len() > 0 && is_white_space(s.last()) {
        lemma_trimmed(s.drop_last());
        assert forall|c: char| #[trigger] trimmed(s).contains(c) implies s.contains(c) by {
            assert(trimmed(s.drop_last()).contains(c));
            assert(s.drop_last().contains(c));
            let i = s.drop_last().index_of(c);
            assert(s[i] == c);
        }
    }
}

/// Digits are as different as what they stand for.
proof fn lemma_digit(a: int, b: int)
    requires
        0 <= a < 16,
        0 <= b < 16,
        digit(a) == digit(b),
    ensures
        a == b,
{
}

/// Different numbers have different decimals.
pub(crate) proof fn lemma_decimal_injective(a: nat, b: nat)
    requires
        decimal(a) == decimal(b),
    ensures
        a == b,
    decreases a,
{
    lemma_decimal_len(a);
    lemma_decimal_len(b);
    assert(decimal(a).last() == decimal(b).last());
    lemma_digit((a % 10) as int, (b % 10) as int);
    if a >= 10 {
        assert(decimal(a).drop_last() =~= decimal(a / 10));
        assert(decimal(b).drop_last() =~= decimal(b / 10));
        lemma_decimal_injective(a / 10, b / 10);
    }
}

proof fn lemma_decimal_len(n: nat)
    ensures
        decimal(n).len() > 0,
        decimal(n).len() == 1 <==> n < 10,
        decimal(n).last() == digit((n % 10) as int),
    decreases n,
{
    if n >= 10 {
        lemma_decimal_len(n / 10);
    }
}

pub(crate) proof fn lemma_hex_len(n: nat, width: nat)
    ensures
        hex(n, width).len() == width,
    decreases width,
{
    if width > 0 {
        lemma_hex_len(n / 16, (width - 1) as nat);
    }
}

/// The last digits of two numbers are the same only where the numbers leave the
/// same remainder.
proof fn lemma_hex_remainder(a: nat, b: nat, width: nat)
    requires
        hex(a, width) == hex(b, width),
        a < pow(16, width),
        b < pow(16, width),
    ensures
        a == b,
    decreases width,
{
    lemma_pow0(16);
    if width > 0 {
        lemma_pow1(16);
        let rest = (width - 1) as nat;
        lemma_pow_adds(16, 1, rest);
        assert(hex(a, width).last() == digit((a % 16) as int));
        assert(hex(b, width).last() == digit((b % 16) as int));
        lemma_digit((a % 16) as int, (b % 16) as int);
        assert(hex(a, width).drop_last() =~= hex(a / 16, rest));
        assert(hex(b, width).drop_last() =~= hex(b / 16, rest));
        lemma_hex_remainder(a / 16, b / 16, rest);
    }
}

/// Different numbers of at most sixteen hexadecimal digits print differently.
pub(crate) proof fn lemma_hex_injective(a: nat, b: nat)
    requires
        a < 0x1_0000_0000_0000_0000,
        b < 0x1_0000_0000_0000_0000,
        hex(a, 16) == hex(b, 16),
    ensures
        a == b,
{
    assert(pow(16, 16) == 0x1_0000_0000_0000_0000) by {
        reveal_with_fuel(pow, 17);
    }
    lemma_hex_remainder(a, b, 16);
}

/// The characters of a text, in order.
pub(crate) fn chars_of(s: &str) -> (chars: Vec<char>)
    ensures
        chars@ == s@,
{
    let mut chars: Vec<char> = Vec::new();
    for c in it: s.chars()
        invariant
            chars@ == it.seq().take(it.index() as int),
    {
        chars.push(c);
    }
    chars
}

/// Whether two texts are the same. They are compared as owned strings, whose
/// equality has a contract.
pub(crate) fn same_text(a: &str, b: &str) -> (yes: bool)
    ensures
        yes == (a@ == b@),
{
    a.to_owned() == b.to_owned()
}

/// Whether `prefix` begins `s`.
pub(crate) fn starts_with(s: &str, prefix: &str) -> (yes: bool)
    ensures
        yes == prefix@.is_prefix_of(s@),
{
    let whole: Vec<char> = chars_of(s);
    let start: Vec<char> = chars_of(prefix);
    if start.len() > whole.len() {
        return false;
    }
    for i in 0..start.len()
        invariant
            start@ == prefix@,
            whole@ == s@,
            start.len() <= whole.len(),
            forall|j: int| 0 <= j < i ==> start[j] == whole[j],
    {
        if start[i] != whole[i] {
            return false;
        }
    }
    assert(prefix@ =~= s@.subrange(0, prefix@.len() as int));
    true
}

/// Whether `name` is one of `list`.
pub(crate) fn listed(list: &Vec<String>, name: &str) -> (yes: bool)
    ensures
        yes == texts(list@).contains(name@),
{
    for i in 0..list.len()
        invariant
            forall|j: int| 0 <= j < i ==> texts(list@)[j] != name@,
    {
        assert(texts(list@)[i as int] == list[i as int]@);
        if same_text(list[i].as_str(), name) {
            return true;
        }
    }
    false
}

/// What comes before the first `stop` in a text.
pub(crate) fn text_before(s: &str, stop: char) -> (start: &str)
    ensures
        start@ == before(s@, stop),
{
    let chars: Vec<char> = chars_of(s);
    let mut n: usize = 0;
    while n < chars.len() && chars[n] != stop
        invariant
            chars@ == s@,
            n <= chars.len(),
            forall|i: int| 0 <= i < n ==> chars[i] != stop,
        decreases chars.len() - n,
    {
        n = n + 1;
    }
    proof {
        lemma_run_before(s@, stop, n as nat);
        assert(before(s@, stop) =~= s@.subrange(0, n as int));
    }
    s.substring_char(0, n)
}

/// The trimmed part of `chars[start..end]`, by its bounds.
pub(crate) fn trimmed_range(chars: &Vec<char>, start: usize, end: usize) -> (bounds: (usize, usize))
    requires
        start <= end <= chars.len(),
    ensures
        start <= bounds.0 <= bounds.1 <= end,
        chars@.subrange(bounds.0 as int, bounds.1 as int) == trimmed(
            chars@.subrange(start as int, end as int),
        ),
{
    let mut lo: usize = start;
    let mut hi: usize = end;
    let ghost whole = chars@.subrange(start as int, end as int);
    while lo < hi && chars[lo].is_whitespace()
        invariant
            start <= lo <= hi == end <= chars.len(),
            trimmed(chars@.subrange(lo as int, hi as int)) == trimmed(whole),
        decreases hi - lo,
    {
        assert(chars@.subrange(lo as int, hi as int).drop_first() =~= chars@.subrange(
            lo + 1,
            hi as int,
        ));
        lo = lo + 1;
    }
    while lo < hi && chars[hi - 1].is_whitespace()
        invariant
            start <= lo <= hi <= end <= chars.len(),
            lo < hi ==> !is_white_space(chars[lo as int]),
            trimmed(chars@.subrange(lo as int, hi as int)) == trimmed(whole),
        decreases hi - lo,
    {
        assert(chars@.subrange(lo as int, hi as int).drop_last() =~= chars@.subrange(
            lo as int,
            hi - 1,
        ));
        hi = hi - 1;
    }
    (lo, hi)
}

/// The pieces in order with a comma between neighbours.
pub(crate) fn join_commas(pieces: &Vec<String>) -> (all: String)
    ensures
        all@ == joined(texts(pieces@), ','),
{
    let mut all: String = String::new();
    let ghost whole = texts(pieces@);
    assert(whole.take(0) =~= Seq::empty());
    for i in 0..pieces.len()
        invariant
            whole == texts(pieces@),
            all@ == joined(whole.take(i as int), ','),
    {
        assert(whole.take(i + 1).drop_last() =~= whole.take(i as int));
        let ghost start = all@;
        if i > 0 {
            proof {
                reveal_strlit(",");
            }
            all.append(",");
            assert(all@ =~= start.push(','));
        }
        all.append(pieces[i].as_str());
        assert(i == 0 ==> all@ =~= pieces[0]@);
    }
    assert(whole.take(pieces.len() as int) =~= whole);
    all
}

/// The digit for `d`, as a text.
fn digit_text(d: u64) -> (text: &'static str)
    requires
        d < 16,
    ensures
        text@ == seq![digit(d as int)],
{
    proof {
        reveal_strlit("0");
        reveal_strlit("1");
        reveal_strlit("2");
        reveal_strlit("3");
        reveal_strlit("4");
        reveal_strlit("5");
        reveal_strlit("6");
        reveal_strlit("7");
        reveal_strlit("8");
        reveal_strlit("9");
        reveal_strlit("a");
        reveal_strlit("b");
        reveal_strlit("c");
        reveal_strlit("d");
        reveal_strlit("e");
        reveal_strlit("f");
    }
    let text: &'static str = match d {
        0 => "0",
        1 => "1",
        2 => "2",
        3 => "3",
        4 => "4",
        5 => "5",
        6 => "6",
        7 => "7",
        8 => "8",
        9 => "9",
        10 => "a",
        11 => "b",
        12 => "c",
        13 => "d",
        14 => "e",
        _ => "f",
    };
    assert(text@ =~= seq![digit(d as int)]);
    text
}

/// Appends `n` in decimal.
pub(crate) fn push_decimal(out: &mut String, n: u64)
    ensures
        final(out)@ == old(out)@ + decimal(n as nat),
    decreases n,
{
    if n >= 10 {
        push_decimal(out, n / 10);
    }
    out.append(digit_text(n % 10));
    assert(out@ =~= old(out)@ + decimal(n as nat));
}

/// Appends the last `width` hexadecimal digits of `n`.
pub(crate) fn push_hex(out: &mut String, n: u64, width: u32)
    ensures
        final(out)@ == old(out)@ + hex(n as nat, width as nat),
    decreases width,
{
    if width > 0 {
        push_hex(out, n / 16, width - 1);
        out.append(digit_text(n % 16));
    }
    assert(out@ =~= old(out)@ + hex(n as nat, width as nat));
}

/// The texts of a list are those of its strings, one for one.
pub proof fn law_texts_keep_their_places(list: Seq<String>)
    ensures
        texts(list).len() == list.len(),
        forall|i: int| 0 <= i < list.len() ==> #[trigger] texts(list)[i] == list[i]@,
{
}

/// White space by its code points.
pub proof fn law_white_space_by_code_point(c: char)
    ensures
        is_white_space(c) <==> {
            ||| 0x9 <= c as u32 <= 0xd
            ||| c as u32 == 0x20
            ||| c as u32 == 0x85
            ||| c as u32 == 0xa0
            ||| c as u32 == 0x1680
            ||| 0x2000 <= c as u32 <= 0x200a
            ||| c as u32 == 0x2028
            ||| c as u32 == 0x2029
            ||| c as u32 == 0x202f
            ||| c as u32 == 0x205f
            ||| c as u32 == 0x3000
        },
{
}

/// What comes before the first `stop` is the start that does not hold it,
/// whatever follows.
pub proof fn law_before_is_the_start_without_stop<T>(start: Seq<T>, stop: T, rest: Seq<T>)
    requires
        !start.contains(stop),
    ensures
        before(start, stop) == start,
        before(start.push(stop) + rest, stop) == start,
{
    let whole = start.push(stop) + rest;
    assert forall|i: int| 0 <= i < start.len() implies start[i] != stop && whole[i] != stop by {
        assert(start.contains(start[i]));
    }
    lemma_run_before(start, stop, start.len());
    lemma_run_before(whole, stop, start.len());
    assert(before(start, stop) =~= start);
    assert(before(whole, stop) =~= start);
}

/// A text without the separator is its own only piece, and a separator parts the
/// pieces of what stands before it from those of what stands after it.
pub proof fn law_separator_parts_the_pieces<T>(a: Seq<T>, sep: T, b: Seq<T>)
    ensures
        !a.contains(sep) ==> split(a, sep) == seq![a],
        split(a.push(sep) + b, sep) == split(a, sep) + split(b, sep),
    decreases b.len(),
{
    if !a.contains(sep) {
        lemma_split_whole(a, sep);
    }
    let whole = a.push(sep) + b;
    lemma_split_pieces(b, sep);
    if b.len() == 0 {
        assert(whole =~= a.push(sep));
        assert(a.push(sep).drop_last() =~= a);
        assert(split(b, sep) =~= seq![Seq::empty()]);
        assert(split(whole, sep) =~= split(a, sep) + split(b, sep));
    } else {
        law_separator_parts_the_pieces(a, sep, b.drop_last());
        let cut = split(b.drop_last(), sep);
        lemma_split_pieces(b.drop_last(), sep);
        assert(whole.drop_last() =~= a.push(sep) + b.drop_last());
        assert(whole.last() == b.last());
        assert((split(a, sep) + cut).last() == cut.last());
        assert((split(a, sep) + cut).drop_last() =~= split(a, sep) + cut.drop_last());
        assert(split(whole, sep) =~= split(a, sep) + split(b, sep));
    }
}

/// Nothing joined is nothing, a piece joined with nothing is itself, and two
/// lists joined are what each joins to with a separator between.
pub proof fn law_joined_lists_meet_at_a_separator<T>(
    a: Seq<Seq<T>>,
    b: Seq<Seq<T>>,
    sep: T,
    piece: Seq<T>,
)
    ensures
        joined(Seq::<Seq<T>>::empty(), sep) == Seq::<T>::empty(),
        joined(seq![piece], sep) == piece,
        a.len() > 0 && b.len() > 0 ==> joined(a + b, sep) == joined(a, sep).push(sep) + joined(
            b,
            sep,
        ),
    decreases b.len(),
{
    if a.len() > 0 && b.len() > 0 {
        let rest = b.drop_last();
        assert((a + b).drop_last() =~= a + rest);
        assert((a + b).last() == b.last());
        if rest.len() > 0 {
            law_joined_lists_meet_at_a_separator(a, rest, sep, piece);
            assert(joined(a + b, sep) =~= joined(a, sep).push(sep) + joined(b, sep));
        } else {
            assert(a + rest =~= a);
            assert(b[0] == b.last());
            assert(joined(a + b, sep) =~= joined(a, sep).push(sep) + joined(b, sep));
        }
    }
}

/// Trimming takes the white space off both ends and nothing else.
pub proof fn law_trimming_leaves_the_core(lead: Seq<char>, core: Seq<char>, tail: Seq<char>)
    requires
        forall|i: int| 0 <= i < lead.len() ==> is_white_space(#[trigger] lead[i]),
        forall|i: int| 0 <= i < tail.len() ==> is_white_space(#[trigger] tail[i]),
        core.len() > 0 ==> !is_white_space(core.first()) && !is_white_space(core.last()),
    ensures
        trimmed(lead + core + tail) == core,
    decreases lead.len() + tail.len(),
{
    let whole = lead + core + tail;
    if lead.len() > 0 {
        let rest = lead.drop_first();
        assert(whole.first() == lead[0]);
        assert forall|i: int| 0 <= i < rest.len() implies is_white_space(#[trigger] rest[i]) by {
            assert(rest[i] == lead[i + 1]);
        }
        law_trimming_leaves_the_core(rest, core, tail);
        assert(whole.drop_first() =~= rest + core + tail);
    } else if tail.len() > 0 {
        if core.len() == 0 {
            let rest = tail.drop_first();
            assert(whole =~= tail);
            assert(tail.first() == tail[0]);
            assert forall|i: int| 0 <= i < rest.len() implies is_white_space(
                #[trigger] rest[i],
            ) by {
                assert(rest[i] == tail[i + 1]);
            }
            law_trimming_leaves_the_core(lead, core, rest);
            assert(whole.drop_first() =~= lead + core + rest);
        } else {
            let rest = tail.drop_last();
            assert(whole.first() == core.first());
            assert(whole.last() == tail[tail.len() - 1]);
            assert forall|i: int| 0 <= i < rest.len() implies is_white_space(
                #[trigger] rest[i],
            ) by {
                assert(rest[i] == tail[i]);
            }
            law_trimming_leaves_the_core(lead, core, rest);
            assert(whole.drop_last() =~= lead + core + rest);
        }
    } else {
        assert(whole =~= core);
    }
}

/// The first line ends before the first line feed, or before a carriage return
/// and that line feed; without a line feed it is the whole text. An empty text has
/// none.
pub proof fn law_first_line_ends_at_a_line_feed(line: Seq<char>, rest: Seq<char>)
    requires
        !line.contains('\n'),
    ensures
        first_line(Seq::empty()) is None,
        line.len() > 0 ==> first_line(line) == Some(line),
        line.len() == 0 || line.last() != '\r' ==> first_line(line.push('\n') + rest) == Some(line),
        first_line(line.push('\r').push('\n') + rest) == Some(line),
{
    let with_return = line.push('\r');
    law_before_is_the_start_without_stop(line, '\n', rest);
    assert forall|i: int| 0 <= i < with_return.len() implies with_return[i] != '\n' by {
        if i < line.len() {
            assert(line.contains(line[i]));
        }
    }
    law_before_is_the_start_without_stop(with_return, '\n', rest);
    assert(with_return.drop_last() =~= line);
}

/// A digit prints as itself, and a number with a further digit as the number
/// followed by the digit.
pub proof fn law_decimal_digit_by_digit(n: nat, d: nat)
    requires
        d < 10,
    ensures
        decimal(d) == seq![(0x30 + d) as char],
        n > 0 ==> decimal(10 * n + d) == decimal(n).push((0x30 + d) as char),
{
    assert((10 * n + d) / 10 == n);
    assert((10 * n + d) % 10 == d);
}

/// The last digits of a number with a further hexadecimal digit are those of the
/// number followed by the digit, a letter from ten on.
pub proof fn law_hex_digit_by_digit(n: nat, d: nat, width: nat)
    requires
        d < 16,
    ensures
        hex(n, 0) == Seq::<char>::empty(),
        hex(16 * n + d, width + 1) == hex(n, width).push(
            if d < 10 {
                (0x30 + d) as char
            } else {
                (0x61 + (d - 10)) as char
            },
        ),
{
    assert((16 * n + d) / 16 == n);
    assert((16 * n + d) % 16 == d);
}

} // verus!
