//! Which network interfaces the traffic totals include.

use vstd::prelude::*;

use crate::text::{
    chars_of, is_white_space, join_commas, joined, law_separator_parts_the_pieces,
    law_split_undoes_join, law_trimming_leaves_the_core, lemma_filter_all, lemma_filter_member,
    lemma_split_pieces, lemma_trimmed, listed, split, starts_with, texts, trimmed, trimmed_range,
};

verus! {

/// Interfaces that carry neither this machine's traffic nor its identity, by
/// the start of their names: the loopback, tunnels, bridges, the virtual pairs
/// of jails, and the packet filter's own.
pub const SKIP_IFACES: [&'static str; 16] = [
    "lo",
    "tun",
    "tap",
    "wg",
    "bridge",
    "epair",
    "vnet",
    "pflog",
    "pfsync",
    "enc",
    "gif",
    "stf",
    "fwe",
    "vmnet",
    "tailscale",
    "zt",
];

/// Whether the built-in rules leave an interface out: its name begins with one
/// of [`SKIP_IFACES`].
pub open spec fn is_skipped_iface(name: Seq<char>) -> bool {
    exists|i: int|
        0 <= i < SKIP_IFACES@.len() && (#[trigger] SKIP_IFACES@[i])@.is_prefix_of(name)
}

/// Whether the built-in rules leave an interface out.
pub fn skip_iface(name: &str) -> (yes: bool)
    ensures
        yes == is_skipped_iface(name@),
{
    for i in 0..SKIP_IFACES.len()
        invariant
            forall|j: int| 0 <= j < i ==> !(#[trigger] SKIP_IFACES@[j])@.is_prefix_of(name@),
    {
        if starts_with(name, SKIP_IFACES[i]) {
            return true;
        }
    }
    false
}

/// What [`Ifaces`] stands for: the entries it was made of, joined by commas,
/// the names that were listed and the names that were excluded.
#[verifier::ext_equal]
pub struct IfacesView {
    pub spec: Seq<char>,
    pub only: Seq<Seq<char>>,
    pub skip: Seq<Seq<char>>,
}

impl IfacesView {
    /// Whether the traffic of an interface is counted. An excluded name never
    /// is; where names are listed, exactly those are; otherwise the built-in
    /// rules decide.
    pub open spec fn counts(self, name: Seq<char>) -> bool {
        if self.skip.contains(name) {
            false
        } else if self.only.len() > 0 {
            self.only.contains(name)
        } else {
            !is_skipped_iface(name)
        }
    }
}

/// The entries of a filter: what stands between its commas, trimmed, without
/// the empty ones.
pub open spec fn entries(spec: Seq<char>) -> Seq<Seq<char>> {
    kept(split(spec, ','))
}

/// The pieces that say something once they are trimmed.
pub open spec fn kept(pieces: Seq<Seq<char>>) -> Seq<Seq<char>> {
    pieces.map_values(|p: Seq<char>| trimmed(p)).filter(|e: Seq<char>| e.len() > 0)
}

/// Whether an entry excludes the interface it names.
pub open spec fn is_exclusion(entry: Seq<char>) -> bool {
    entry.len() > 0 && entry.first() == '-'
}

/// The interface that an entry names.
pub open spec fn entry_name(entry: Seq<char>) -> Seq<char> {
    if is_exclusion(entry) {
        entry.drop_first()
    } else {
        entry
    }
}

/// Whether a text can be the name of an interface.
pub open spec fn is_iface_name(name: Seq<char>) -> bool {
    &&& name.len() > 0
    &&& name.first() != '-'
    &&& forall|i: int| 0 <= i < name.len() ==> !is_white_space(#[trigger] name[i])
}

/// The first entry that does not name an interface.
pub open spec fn first_malformed(entries: Seq<Seq<char>>) -> Option<Seq<char>>
    decreases entries.len(),
{
    if entries.len() == 0 {
        None
    } else if !is_iface_name(entry_name(entries.first())) {
        Some(entries.first())
    } else {
        first_malformed(entries.drop_first())
    }
}

/// The names of the entries that list an interface.
pub open spec fn listed_names(entries: Seq<Seq<char>>) -> Seq<Seq<char>> {
    entries.filter(|e: Seq<char>| !is_exclusion(e))
}

/// The names of the entries that exclude an interface.
pub open spec fn excluded_names(entries: Seq<Seq<char>>) -> Seq<Seq<char>> {
    entries.filter(|e: Seq<char>| is_exclusion(e)).map_values(|e: Seq<char>| entry_name(e))
}

/// What a filter without malformed entries stands for.
pub open spec fn parsed(spec: Seq<char>) -> IfacesView {
    IfacesView {
        spec: joined(entries(spec), ','),
        only: listed_names(entries(spec)),
        skip: excluded_names(entries(spec)),
    }
}

/// How the standard library prints a text in quotes, with escapes where it
/// deems them needed.
pub uninterp spec fn quoted(text: Seq<char>) -> Seq<char>;

/// `<str as Debug>::fmt`, called through `format!`: the result is a function of
/// the text alone, named [`quoted`]. Which characters it escapes is left unsaid.
#[verifier::external_body]
fn quote(text: &str) -> (printed: String)
    ensures
        printed@ == quoted(text@),
{
    format!("{:?}", text)
}

/// What is said of a malformed entry, given how it is printed.
pub open spec fn refusal_text(printed: Seq<char>) -> Seq<char> {
    "--iface: "@ + printed + " is not an interface name; give full names separated by commas"@
}

/// The answer to a malformed entry.
pub open spec fn rejection(entry: Seq<char>) -> Seq<char> {
    refusal_text(quoted(entry))
}

/// What is said of a malformed entry, given how it is printed.
pub fn refusal(printed: &str) -> (message: String)
    ensures
        message@ == refusal_text(printed@),
{
    let mut message: String = "--iface: ".to_owned();
    message.append(printed);
    message.append(" is not an interface name; give full names separated by commas");
    message
}

/// The traffic filter set by `--iface`: full interface names separated by
/// commas.
///
/// A plain entry makes the list the whole answer: nothing unlisted is counted.
/// Only the machine's owner knows which port carries the counted traffic. A
/// listed name is counted whatever the built-in rules say. An entry starting
/// with `-` removes that interface from what is counted otherwise. Exclusions
/// win over inclusions.
pub struct Ifaces {
    spec: String,
    only: Vec<String>,
    skip: Vec<String>,
}

impl View for Ifaces {
    type V = IfacesView;

    closed spec fn view(&self) -> IfacesView {
        IfacesView { spec: self.spec@, only: texts(self.only@), skip: texts(self.skip@) }
    }
}

impl Default for Ifaces {
    /// The filter without entries: the built-in rules decide.
    fn default() -> (ifaces: Self)
        ensures
            ifaces@ == (IfacesView {
                spec: Seq::empty(),
                only: Seq::empty(),
                skip: Seq::empty(),
            }),
    {
        let ifaces: Ifaces = Ifaces { spec: String::new(), only: Vec::new(), skip: Vec::new() };
        assert(texts(ifaces.only@) =~= Seq::empty());
        ifaces
    }
}

impl Ifaces {
    /// Reads a filter. It is refused for the first entry that does not name an
    /// interface.
    pub fn parse(spec: &str) -> (parse: Result<Self, String>)
        ensures
            match parse {
                Ok(ifaces) => {
                    &&& first_malformed(entries(spec@)) is None
                    &&& ifaces@ == parsed(spec@)
                },
                Err(message) => {
                    &&& first_malformed(entries(spec@)) matches Some(entry)
                    &&& message@ == rejection(entry)
                },
            },
    {
        let list: Vec<String> = entry_list(spec);
        let ghost all = entries(spec@);
        let mut only: Vec<String> = Vec::new();
        let mut skip: Vec<String> = Vec::new();
        proof {
            assert(all.take(0) =~= Seq::empty());
            assert(all.skip(0) =~= all);
            assert(texts(only@) =~= listed_names(all.take(0)));
            assert(texts(skip@) =~= excluded_names(all.take(0)));
        }
        for i in 0..list.len()
            invariant
                all == entries(spec@),
                all == texts(list@),
                texts(only@) == listed_names(all.take(i as int)),
                texts(skip@) == excluded_names(all.take(i as int)),
                first_malformed(all.skip(i as int)) == first_malformed(all),
        {
            let entry: &str = list[i].as_str();
            proof {
                assert(all[i as int] == entry@);
                assert(all.take(i + 1) =~= all.take(i as int).push(entry@));
                assert(all.skip(i as int).first() == entry@);
                assert(all.skip(i as int).drop_first() =~= all.skip(i + 1));
                lemma_names_push(all.take(i as int), entry@);
            }
            let chars: Vec<char> = chars_of(entry);
            let excludes: bool = chars.len() > 0 && chars[0] == '-';
            let start: usize = if excludes { 1 } else { 0 };
            let name: &str = entry.substring_char(start, chars.len());
            assert(name@ =~= entry_name(entry@));
            if !names_iface(name) {
                return Err(refusal(quote(entry).as_str()));
            }
            let ghost only_before = only@;
            let ghost skip_before = skip@;
            if excludes {
                skip.push(name.to_owned());
                assert(texts(skip@) =~= texts(skip_before).push(name@));
            } else {
                only.push(name.to_owned());
                assert(texts(only@) =~= texts(only_before).push(name@));
            }
        }
        proof {
            assert(all.take(list.len() as int) =~= all);
        }
        Ok(Ifaces { spec: join_commas(&list), only, skip })
    }

    /// Whether the traffic of an interface is counted.
    pub fn counts(&self, name: &str) -> (yes: bool)
        ensures
            yes == self@.counts(name@),
    {
        if listed(&self.skip, name) {
            return false;
        }
        if self.only.len() > 0 {
            return listed(&self.only, name);
        }
        !skip_iface(name)
    }

    /// The entries the filter was made of, joined by commas. Empty for the
    /// default rules.
    pub(crate) fn spec(&self) -> (spec: &str)
        ensures
            spec@ == self@.spec,
    {
        self.spec.as_str()
    }
}

/// The entries of a filter.
fn entry_list(spec: &str) -> (list: Vec<String>)
    ensures
        texts(list@) == entries(spec@),
{
    let chars: Vec<char> = chars_of(spec);
    let mut list: Vec<String> = Vec::new();
    let mut start: usize = 0;
    let ghost mut cut: Seq<Seq<char>> = Seq::empty();
    proof {
        assert(spec@.take(0) =~= Seq::empty());
        assert(spec@.subrange(0, 0) =~= Seq::empty());
        assert(cut.push(Seq::empty()) =~= seq![Seq::empty()]);
        assert(texts(list@) =~= kept(cut));
    }
    for i in 0..chars.len()
        invariant
            chars@ == spec@,
            start <= i,
            split(spec@.take(i as int), ',') == cut.push(
                spec@.subrange(start as int, i as int),
            ),
            texts(list@) == kept(cut),
    {
        proof {
            assert(spec@.take(i + 1).drop_last() =~= spec@.take(i as int));
            assert(cut.push(spec@.subrange(start as int, i as int)).drop_last() =~= cut);
        }
        if chars[i] == ',' {
            push_entry(&mut list, spec, &chars, start, i, Ghost(cut));
            proof {
                cut = cut.push(spec@.subrange(start as int, i as int));
                assert(spec@.subrange(i + 1, i + 1) =~= Seq::empty());
            }
            start = i + 1;
        } else {
            assert(spec@.subrange(start as int, i as int).push(spec@[i as int])
                =~= spec@.subrange(start as int, i + 1));
        }
    }
    push_entry(&mut list, spec, &chars, start, chars.len(), Ghost(cut));
    assert(spec@.take(chars.len() as int) =~= spec@);
    list
}

/// Adds the piece `spec[start..end]` to the entries of the pieces before it.
fn push_entry(
    list: &mut Vec<String>,
    spec: &str,
    chars: &Vec<char>,
    start: usize,
    end: usize,
    Ghost(cut): Ghost<Seq<Seq<char>>>,
)
    requires
        chars@ == spec@,
        start <= end <= chars.len(),
        texts(old(list)@) == kept(cut),
    ensures
        texts(final(list)@) == kept(cut.push(spec@.subrange(start as int, end as int))),
{
    let (lo, hi) = trimmed_range(chars, start, end);
    let ghost piece = spec@.subrange(start as int, end as int);
    proof {
        lemma_kept_push(cut, piece);
    }
    if lo < hi {
        list.push(spec.substring_char(lo, hi).to_owned());
        assert(texts(list@) =~= texts(old(list)@).push(trimmed(piece)));
    }
}

/// Whether a text can be the name of an interface.
fn names_iface(name: &str) -> (yes: bool)
    ensures
        yes == is_iface_name(name@),
{
    let chars: Vec<char> = chars_of(name);
    if chars.len() == 0 || chars[0] == '-' {
        return false;
    }
    for i in 0..chars.len()
        invariant
            chars@ == name@,
            forall|j: int| 0 <= j < i ==> !is_white_space(name@[j]),
    {
        if chars[i].is_whitespace() {
            assert(is_white_space(name@[i as int]));
            return false;
        }
    }
    true
}

/// One more piece adds its trimmed text where there is any.
proof fn lemma_kept_push(pieces: Seq<Seq<char>>, piece: Seq<char>)
    ensures
        kept(pieces.push(piece)) == if trimmed(piece).len() > 0 {
            kept(pieces).push(trimmed(piece))
        } else {
            kept(pieces)
        },
{
    let trim = |p: Seq<char>| trimmed(p);
    let says = |e: Seq<char>| e.len() > 0;
    assert(pieces.push(piece).map_values(trim) =~= pieces.map_values(trim).push(trimmed(piece)));
    pieces.map_values(trim).lemma_filter_push(trimmed(piece), says);
}

/// One more entry adds the name it lists or excludes.
proof fn lemma_names_push(entries: Seq<Seq<char>>, entry: Seq<char>)
    ensures
        listed_names(entries.push(entry)) == if is_exclusion(entry) {
            listed_names(entries)
        } else {
            listed_names(entries).push(entry_name(entry))
        },
        excluded_names(entries.push(entry)) == if is_exclusion(entry) {
            excluded_names(entries).push(entry_name(entry))
        } else {
            excluded_names(entries)
        },
{
    let lists = |e: Seq<char>| !is_exclusion(e);
    let excludes = |e: Seq<char>| is_exclusion(e);
    let name = |e: Seq<char>| entry_name(e);
    entries.lemma_filter_push(entry, lists);
    entries.lemma_filter_push(entry, excludes);
    assert(entries.filter(excludes).push(entry).map_values(name) =~= entries.filter(
        excludes,
    ).map_values(name).push(entry_name(entry)));
}

/// The filter that the agent reports, read again, has the same entries.
proof fn lemma_entries_again(spec: Seq<char>)
    ensures
        entries(joined(entries(spec), ',')) == entries(spec),
{
    let trim = |p: Seq<char>| trimmed(p);
    let says = |e: Seq<char>| e.len() > 0;
    let cut = split(spec, ',').map_values(trim);
    let all = entries(spec);
    lemma_split_pieces(spec, ',');
    assert forall|i: int| 0 <= i < all.len() implies says(#[trigger] all[i]) && !all[i].contains(
        ',',
    ) && trimmed(all[i]) == all[i] by {
        assert(all.contains(all[i]));
        lemma_filter_member(cut, says, all[i]);
        let k = choose|k: int| 0 <= k < cut.len() && cut[k] == all[i];
        lemma_trimmed(split(spec, ',')[k]);
    }
    assert(all.map_values(trim) =~= all);
    assert(all.filter(says) == all) by {
        lemma_filter_all(all, says);
    }
    if all.len() > 0 {
        law_split_undoes_join(all, ',');
    } else {
        let none: Seq<Seq<char>> = Seq::empty();
        assert(all =~= none);
        assert(joined(all, ',') =~= Seq::empty());
        let cut_again = split(joined(all, ','), ',');
        assert(cut_again =~= none.push(Seq::empty()));
        lemma_kept_push(none, Seq::empty());
        assert(kept(none) =~= none);
    }
}

/// The filter that the agent reports, read again, is accepted where the first
/// was and stands for the same.
pub proof fn law_reported_filter_reads_back(spec: Seq<char>)
    ensures
        first_malformed(entries(parsed(spec).spec)) == first_malformed(entries(spec)),
        parsed(parsed(spec).spec) == parsed(spec),
{
    lemma_entries_again(spec);
}

/// A filter is accepted exactly where every entry names an interface.
pub proof fn law_accepted_where_all_entries_name(entries: Seq<Seq<char>>)
    ensures
        first_malformed(entries) is None <==> forall|i: int|
            0 <= i < entries.len() ==> is_iface_name(entry_name(#[trigger] entries[i])),
    decreases entries.len(),
{
    if entries.len() > 0 {
        let rest = entries.drop_first();
        law_accepted_where_all_entries_name(rest);
        if first_malformed(entries) is None {
            assert forall|i: int| 0 <= i < entries.len() implies is_iface_name(
                entry_name(#[trigger] entries[i]),
            ) by {
                if i > 0 {
                    assert(entries[i] == rest[i - 1]);
                }
            }
        } else if is_iface_name(entry_name(entries[0])) {
            let k = choose|k: int|
                0 <= k < rest.len() && !is_iface_name(entry_name(#[trigger] rest[k]));
            assert(entries[k + 1] == rest[k]);
        }
    }
}

/// A plain entry makes the list the whole answer: what is counted is what is
/// listed and not excluded, whatever the built-in rules say.
pub proof fn law_list_is_the_whole_answer(spec: Seq<char>, plain: Seq<char>, name: Seq<char>)
    requires
        entries(spec).contains(plain),
        !is_exclusion(plain),
    ensures
        parsed(spec).counts(name) <==> {
            &&& entries(spec).contains(name)
            &&& !is_exclusion(name)
            &&& !entries(spec).contains(seq!['-'] + name)
        },
{
    lemma_listed(spec, plain);
    lemma_listed(spec, name);
    lemma_excluded(spec, name);
    assert(parsed(spec).only.contains(plain));
}

/// Without a plain entry, what is counted is what the built-in rules leave in
/// and no entry excludes.
pub proof fn law_exclusions_narrow_the_default(spec: Seq<char>, name: Seq<char>)
    requires
        forall|entry: Seq<char>| #[trigger]
            entries(spec).contains(entry) ==> is_exclusion(entry),
    ensures
        parsed(spec).counts(name) <==> {
            &&& !is_skipped_iface(name)
            &&& !entries(spec).contains(seq!['-'] + name)
        },
{
    lemma_excluded(spec, name);
    if parsed(spec).only.len() > 0 {
        let first = parsed(spec).only[0];
        assert(parsed(spec).only.contains(first));
        lemma_listed(spec, first);
    }
}

/// An excluded interface is not counted, listed or not.
pub proof fn law_exclusions_win(spec: Seq<char>, name: Seq<char>)
    requires
        entries(spec).contains(seq!['-'] + name),
    ensures
        !parsed(spec).counts(name),
{
    lemma_excluded(spec, name);
}

/// The listed names are the plain entries.
proof fn lemma_listed(spec: Seq<char>, name: Seq<char>)
    ensures
        parsed(spec).only.contains(name) <==> entries(spec).contains(name) && !is_exclusion(name),
{
    lemma_filter_member(entries(spec), |e: Seq<char>| !is_exclusion(e), name);
}

/// The excluded names are those with a minus before them among the entries.
proof fn lemma_excluded(spec: Seq<char>, name: Seq<char>)
    ensures
        parsed(spec).skip.contains(name) <==> entries(spec).contains(seq!['-'] + name),
{
    let excludes = |e: Seq<char>| is_exclusion(e);
    let with_minus = seq!['-'] + name;
    let found = entries(spec).filter(excludes);
    assert(entry_name(with_minus) =~= name);
    lemma_filter_member(entries(spec), excludes, with_minus);
    if parsed(spec).skip.contains(name) {
        let i = parsed(spec).skip.index_of(name);
        assert(found.contains(found[i]));
        lemma_filter_member(entries(spec), excludes, found[i]);
        assert(found[i] =~= with_minus);
    }
    if entries(spec).contains(with_minus) {
        let i = found.index_of(with_minus);
        assert(parsed(spec).skip[i] == name);
    }
}

/// The built-in rules leave out the names that begin with one of these, and no
/// others.
pub proof fn law_built_in_rules_go_by_prefix(name: Seq<char>)
    ensures
        is_skipped_iface(name) <==> {
            ||| "lo"@.is_prefix_of(name)
            ||| "tun"@.is_prefix_of(name)
            ||| "tap"@.is_prefix_of(name)
            ||| "wg"@.is_prefix_of(name)
            ||| "bridge"@.is_prefix_of(name)
            ||| "epair"@.is_prefix_of(name)
            ||| "vnet"@.is_prefix_of(name)
            ||| "pflog"@.is_prefix_of(name)
            ||| "pfsync"@.is_prefix_of(name)
            ||| "enc"@.is_prefix_of(name)
            ||| "gif"@.is_prefix_of(name)
            ||| "stf"@.is_prefix_of(name)
            ||| "fwe"@.is_prefix_of(name)
            ||| "vmnet"@.is_prefix_of(name)
            ||| "tailscale"@.is_prefix_of(name)
            ||| "zt"@.is_prefix_of(name)
        },
{
    let list = SKIP_IFACES@;
    assert(list[0]@ == "lo"@ && list[1]@ == "tun"@ && list[2]@ == "tap"@ && list[3]@ == "wg"@);
    assert(list[4]@ == "bridge"@ && list[5]@ == "epair"@ && list[6]@ == "vnet"@);
    assert(list[7]@ == "pflog"@ && list[8]@ == "pfsync"@ && list[9]@ == "enc"@);
    assert(list[10]@ == "gif"@ && list[11]@ == "stf"@ && list[12]@ == "fwe"@);
    assert(list[13]@ == "vmnet"@ && list[14]@ == "tailscale"@ && list[15]@ == "zt"@);
}

/// A comma parts the entries of what stands before it from those of what stands
/// after it.
pub proof fn law_comma_parts_the_entries(a: Seq<char>, b: Seq<char>)
    ensures
        entries(a.push(',') + b) == entries(a) + entries(b),
{
    let trim = |p: Seq<char>| trimmed(p);
    let says = |e: Seq<char>| e.len() > 0;
    let left = split(a, ',').map_values(trim);
    let right = split(b, ',').map_values(trim);
    law_separator_parts_the_pieces(a, ',', b);
    assert((split(a, ',') + split(b, ',')).map_values(trim) =~= left + right);
    Seq::filter_distributes_over_add(left, right, says);
}

/// What stands between commas is one entry without the white space round it, and
/// none where it is white space alone.
pub proof fn law_entry_is_what_white_space_surrounds(
    lead: Seq<char>,
    core: Seq<char>,
    tail: Seq<char>,
)
    requires
        forall|i: int| 0 <= i < lead.len() ==> is_white_space(#[trigger] lead[i]),
        forall|i: int| 0 <= i < tail.len() ==> is_white_space(#[trigger] tail[i]),
        core.len() > 0 ==> !is_white_space(core.first()) && !is_white_space(core.last()),
        !core.contains(','),
    ensures
        entries(lead + core + tail) == if core.len() > 0 {
            seq![core]
        } else {
            Seq::empty()
        },
{
    let whole = lead + core + tail;
    let none: Seq<Seq<char>> = Seq::empty();
    assert forall|i: int| 0 <= i < whole.len() implies whole[i] != ',' by {
        if i < lead.len() {
            assert(is_white_space(lead[i]));
        } else if i < lead.len() + core.len() {
            assert(core.contains(core[i - lead.len()]));
        } else {
            assert(is_white_space(tail[i - lead.len() - core.len()]));
        }
    }
    assert(!whole.contains(','));
    law_separator_parts_the_pieces(whole, ',', whole);
    law_trimming_leaves_the_core(lead, core, tail);
    assert(seq![whole] =~= none.push(whole));
    lemma_kept_push(none, whole);
    assert(kept(none) =~= none);
    assert(none.push(core) =~= seq![core]);
}

/// An entry with a minus in front excludes what follows the minus, any other names
/// itself.
pub proof fn law_minus_excludes(entry: Seq<char>, name: Seq<char>)
    requires
        entry.len() > 0,
        entry[0] != '-',
    ensures
        is_exclusion(seq!['-'] + name),
        entry_name(seq!['-'] + name) == name,
        !is_exclusion(entry),
        entry_name(entry) == entry,
        !is_exclusion(Seq::empty()),
        entry_name(Seq::empty()) == Seq::<char>::empty(),
{
    assert((seq!['-'] + name).drop_first() =~= name);
}

/// One character names an interface unless it is a minus or white space, and a
/// name goes on with anything but white space. Nothing names none.
pub proof fn law_names_character_by_character(name: Seq<char>, c: char)
    ensures
        !is_iface_name(Seq::empty()),
        is_iface_name(seq![c]) <==> c != '-' && !is_white_space(c),
        name.len() > 0 ==> (is_iface_name(name.push(c)) <==> is_iface_name(name)
            && !is_white_space(c)),
{
    let one = seq![c];
    if c != '-' && !is_white_space(c) {
        assert(is_iface_name(one));
    } else {
        assert(one[0] == c);
    }
    if name.len() > 0 {
        let more = name.push(c);
        if is_iface_name(more) {
            assert(more[name.len() as int] == c);
            assert forall|i: int| 0 <= i < name.len() implies !is_white_space(
                #[trigger] name[i],
            ) by {
                assert(more[i] == name[i]);
            }
        }
        if is_iface_name(name) && !is_white_space(c) {
            assert forall|i: int| 0 <= i < more.len() implies !is_white_space(
                #[trigger] more[i],
            ) by {
                if i < name.len() {
                    assert(more[i] == name[i]);
                }
            }
        }
    }
}

/// A filter is refused for the first entry that names no interface, whatever
/// follows it.
pub proof fn law_refused_for_the_first_malformed_entry(
    good: Seq<Seq<char>>,
    bad: Seq<char>,
    rest: Seq<Seq<char>>,
)
    requires
        forall|i: int| 0 <= i < good.len() ==> is_iface_name(entry_name(#[trigger] good[i])),
        !is_iface_name(entry_name(bad)),
    ensures
        first_malformed(good) is None,
        first_malformed(good.push(bad) + rest) == Some(bad),
    decreases good.len(),
{
    let all = good.push(bad) + rest;
    if good.len() > 0 {
        let others = good.drop_first();
        assert(is_iface_name(entry_name(good[0])));
        assert forall|i: int| 0 <= i < others.len() implies is_iface_name(
            entry_name(#[trigger] others[i]),
        ) by {
            assert(others[i] == good[i + 1]);
        }
        law_refused_for_the_first_malformed_entry(others, bad, rest);
        assert(all.first() == good[0]);
        assert(all.drop_first() =~= others.push(bad) + rest);
    } else {
        assert(all.first() == bad);
    }
}

/// The answer to a malformed entry is the printed entry between two fixed texts,
/// and so the same of no two printed entries.
pub proof fn law_refusal_names_the_entry(printed: Seq<char>, other: Seq<char>)
    ensures
        refusal_text(printed) == "--iface: "@ + printed
            + " is not an interface name; give full names separated by commas"@,
        rejection(printed) == refusal_text(quoted(printed)),
        refusal_text(printed) == refusal_text(other) ==> printed == other,
{
    let start = "--iface: "@.len() as int;
    if refusal_text(printed) == refusal_text(other) {
        let text = refusal_text(printed);
        let fixed = start + " is not an interface name; give full names separated by commas"@.len();
        assert(text.len() == fixed + printed.len());
        assert(refusal_text(other).len() == fixed + other.len());
        assert(printed =~= text.subrange(start, start + printed.len()));
        assert(other =~= text.subrange(start, start + other.len()));
    }
}

/// Excluded names are never counted, and where names are listed exactly those are
/// of the others; only without listed names the built-in rules decide.
pub proof fn law_exclusions_then_list_then_rules(filter: IfacesView, name: Seq<char>)
    ensures
        filter.skip.contains(name) ==> !filter.counts(name),
        !filter.skip.contains(name) && filter.only.len() > 0 ==> (filter.counts(name)
            <==> filter.only.contains(name)),
        !filter.skip.contains(name) && filter.only.len() == 0 ==> (filter.counts(name)
            <==> !is_skipped_iface(name)),
{
}

/// A filter lists its entries that have no minus in front, excludes what follows
/// the minus in the others, and reports the entries with commas between.
pub proof fn law_filter_stands_for_its_entries(spec: Seq<char>, name: Seq<char>)
    ensures
        parsed(spec).only.contains(name) <==> entries(spec).contains(name) && !(name.len() > 0
            && name[0] == '-'),
        parsed(spec).skip.contains(name) <==> entries(spec).contains(seq!['-'] + name),
        parsed(spec).spec == joined(entries(spec), ','),
{
    lemma_listed(spec, name);
    lemma_excluded(spec, name);
}

} // verus!
