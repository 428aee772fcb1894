//! Disk space: which mounts are counted, and what they sum to.

use vstd::prelude::*;

use crate::bytes::{capped, lossy_text, text_of};
use crate::text::{
    before, law_before_is_the_start_without_stop, lemma_before_lacks, lemma_run_before, listed,
    same_text, starts_with, text_before, texts,
};

verus! {

/// Filesystem types that must not count toward disk totals, by the start of
/// their names: what a jail mounts of its own, mirrors of storage that is
/// counted through its real mount, and network filesystems. `zfs` is not here:
/// the root of a jail usually is one, and its datasets are counted once per
/// pool.
pub const SKIP_FSTYPES: [&'static str; 13] = [
    "devfs",
    "procfs",
    "fdescfs",
    "tmpfs",
    "nullfs",
    "linprocfs",
    "linsysfs",
    "unionfs",
    "fusefs",
    "nfs",
    "nfs4",
    "cifs",
    "smbfs",
];

/// Whether a filesystem type does not count: its name begins with one of
/// [`SKIP_FSTYPES`].
pub open spec fn is_skipped_fstype(fstype: Seq<char>) -> bool {
    exists|i: int|
        0 <= i < SKIP_FSTYPES@.len() && (#[trigger] SKIP_FSTYPES@[i])@.is_prefix_of(fstype)
}

/// Whether a filesystem type does not count.
pub fn skip_fstype(fstype: &str) -> (yes: bool)
    ensures
        yes == is_skipped_fstype(fstype@),
{
    for i in 0..SKIP_FSTYPES.len()
        invariant
            forall|j: int| 0 <= j < i ==> !(#[trigger] SKIP_FSTYPES@[j])@.is_prefix_of(fstype@),
    {
        if starts_with(fstype, SKIP_FSTYPES[i]) {
            return true;
        }
    }
    false
}

/// The text of a field of the mount table: what comes before its first zero
/// byte.
pub fn f2s(field: &[u8]) -> (text: String)
    ensures
        text@ == lossy_text(before(field@, 0u8)),
{
    let mut n: usize = 0;
    let mut bytes: Vec<u8> = Vec::new();
    while n < field.len() && field[n] != 0
        invariant
            n <= field@.len(),
            bytes@ == field@.take(n as int),
            forall|i: int| 0 <= i < n ==> field@[i] != 0,
        decreases field@.len() - n,
    {
        bytes.push(field[n]);
        assert(bytes@ =~= field@.take(n + 1));
        n = n + 1;
    }
    proof {
        lemma_run_before(field@, 0u8, n as nat);
    }
    text_of(bytes.as_slice())
}

/// A row of the mount table: the type of the filesystem, what is mounted and
/// the point it is mounted on.
#[derive(Debug, PartialEq, Eq)]
pub struct Mount {
    pub fstype: String,
    pub from: String,
    pub on: String,
}

/// A row of the mount table, as texts.
#[verifier::ext_equal]
pub struct MountView {
    pub fstype: Seq<char>,
    pub from: Seq<char>,
    pub on: Seq<char>,
}

impl View for Mount {
    type V = MountView;

    open spec fn view(&self) -> MountView {
        MountView { fstype: self.fstype@, from: self.from@, on: self.on@ }
    }
}

impl Mount {
    /// Reads a row from its fields, each of which ends at its first zero byte.
    pub fn decode(fstype: &[u8], from: &[u8], on: &[u8]) -> (mount: Self)
        ensures
            mount@ == (MountView {
                fstype: lossy_text(before(fstype@, 0u8)),
                from: lossy_text(before(from@, 0u8)),
                on: lossy_text(before(on@, 0u8)),
            }),
    {
        Mount { fstype: f2s(fstype), from: f2s(from), on: f2s(on) }
    }
}

impl MountView {
    /// Whether this is a dataset of a pool.
    pub open spec fn is_zfs(self) -> bool {
        self.fstype == "zfs"@
    }

    /// The pool of a dataset: the first part of its path.
    pub open spec fn pool(self) -> Seq<char> {
        before(self.from, '/')
    }

    /// What this mount is known by once it is counted: a dataset by its pool,
    /// which is the storage its datasets share, any other by its mount point.
    pub open spec fn key(self) -> Seq<char> {
        if self.is_zfs() {
            self.pool()
        } else {
            self.on
        }
    }
}

/// The rows of a table, as texts.
pub open spec fn rows(table: Seq<Mount>) -> Seq<MountView> {
    table.map_values(|m: Mount| m@)
}

/// The mount points of a list.
pub open spec fn points(mounts: Seq<MountView>) -> Seq<Seq<char>> {
    mounts.map_values(|m: MountView| m.on)
}

/// The keys of a list.
pub open spec fn keys(mounts: Seq<MountView>) -> Seq<Seq<char>> {
    mounts.map_values(|m: MountView| m.key())
}

/// The mounts of a table that can be seen. The table lists in mount order, and of
/// several mounts on one point only the last is visible: it takes the place of
/// the one before it.
pub open spec fn visible(table: Seq<MountView>) -> Seq<MountView>
    decreases table.len(),
{
    if table.len() == 0 {
        table
    } else {
        let shown = visible(table.drop_last());
        if points(shown).contains(table.last().on) {
            shown.update(points(shown).index_of(table.last().on), table.last())
        } else {
            shown.push(table.last())
        }
    }
}

/// Whether a mount counts besides those already counted: its type does, and
/// neither its mount point nor its key is the key of one of them.
pub open spec fn counts_besides(counted: Seq<MountView>, mount: MountView) -> bool {
    &&& !is_skipped_fstype(mount.fstype)
    &&& forall|i: int|
        0 <= i < counted.len() ==> (#[trigger] counted[i]).key() != mount.on && counted[i].key()
            != mount.key()
}

/// Those that count of mounts that can all be seen.
pub open spec fn counted_of(shown: Seq<MountView>) -> Seq<MountView>
    decreases shown.len(),
{
    if shown.len() == 0 {
        shown
    } else {
        let counted = counted_of(shown.drop_last());
        if counts_besides(counted, shown.last()) {
            counted.push(shown.last())
        } else {
            counted
        }
    }
}

/// The mounts of a table that count.
pub open spec fn counted_mounts(table: Seq<MountView>) -> Seq<MountView> {
    counted_of(visible(table))
}

/// The mount points whose filesystems are counted, in the order in which the
/// table first names them.
///
/// Some jails hide the mount table entirely. The root of the jail then stands
/// in: one real filesystem is better than reporting no capacity.
pub fn real_mount_points(table: &Vec<Mount>) -> (counted: Vec<String>)
    ensures
        texts(counted@) == if table@.len() == 0 {
            seq!["/"@]
        } else {
            points(counted_mounts(rows(table@)))
        },
{
    let mut out: Vec<String> = Vec::new();
    if table.len() == 0 {
        out.push("/".to_owned());
        assert(texts(out@) =~= seq!["/"@]);
        return out;
    }
    let shown: Vec<&Mount> = visible_rows(table);
    let mut seen: Vec<String> = Vec::new();
    let ghost all = views(shown@);
    proof {
        assert(all.take(0) =~= Seq::empty());
        assert(texts(out@) =~= points(counted_of(all.take(0))));
        assert(texts(seen@) =~= keys(counted_of(all.take(0))));
    }
    for i in 0..shown.len()
        invariant
            all == views(shown@),
            texts(out@) == points(counted_of(all.take(i as int))),
            texts(seen@) == keys(counted_of(all.take(i as int))),
    {
        let row: &Mount = shown[i];
        let ghost counted = counted_of(all.take(i as int));
        proof {
            assert(all.take(i + 1).drop_last() =~= all.take(i as int));
            assert(all.take(i + 1).last() == row@);
        }
        let key: &str = if same_text(row.fstype.as_str(), "zfs") {
            text_before(row.from.as_str(), '/')
        } else {
            row.on.as_str()
        };
        let fresh: bool = !skip_fstype(row.fstype.as_str()) && !listed(&seen, row.on.as_str())
            && !listed(&seen, key);
        proof {
            assert(key@ == row@.key());
            lemma_fresh(counted, row@);
        }
        if fresh {
            let ghost seen_before = seen@;
            let ghost out_before = out@;
            seen.push(key.to_owned());
            out.push(row.on.clone());
            proof {
                assert(texts(seen@) =~= texts(seen_before).push(row@.key()));
                assert(texts(out@) =~= texts(out_before).push(row@.on));
                assert(keys(counted.push(row@)) =~= keys(counted).push(row@.key()));
                assert(points(counted.push(row@)) =~= points(counted).push(row@.on));
            }
        }
    }
    assert(all.take(shown.len() as int) =~= all);
    out
}

/// Borrowed rows, as texts.
spec fn views(list: Seq<&Mount>) -> Seq<MountView> {
    list.map_values(|m: &Mount| m@)
}

/// The rows of a table that can be seen.
fn visible_rows(table: &Vec<Mount>) -> (shown: Vec<&Mount>)
    ensures
        views(shown@) == visible(rows(table@)),
{
    let mut shown: Vec<&Mount> = Vec::new();
    let ghost all = rows(table@);
    proof {
        assert(all.take(0) =~= Seq::empty());
        assert(views(shown@) =~= visible(all.take(0)));
    }
    for i in 0..table.len()
        invariant
            all == rows(table@),
            views(shown@) == visible(all.take(i as int)),
    {
        let row: &Mount = &table[i];
        let ghost so_far = shown@;
        proof {
            assert(all.take(i + 1).drop_last() =~= all.take(i as int));
            assert(all.take(i + 1).last() == row@);
            lemma_visible_apart(all.take(i as int));
        }
        match position_on(&shown, row.on.as_str()) {
            Some(k) => {
                shown[k] = row;
                proof {
                    assert(points(views(so_far))[k as int] == row@.on);
                    assert(points(views(so_far)).index_of(row@.on) == k);
                    assert(views(shown@) =~= views(so_far).update(k as int, row@));
                }
            },
            None => {
                shown.push(row);
                assert(views(shown@) =~= views(so_far).push(row@));
            },
        }
    }
    assert(all.take(table.len() as int) =~= all);
    shown
}

/// Where in a list the mount on a point stands.
fn position_on(shown: &Vec<&Mount>, on: &str) -> (found: Option<usize>)
    ensures
        match found {
            Some(k) => k < shown.len() && views(shown@)[k as int].on == on@,
            None => !points(views(shown@)).contains(on@),
        },
{
    for k in 0..shown.len()
        invariant
            forall|j: int| 0 <= j < k ==> points(views(shown@))[j] != on@,
    {
        assert(points(views(shown@))[k as int] == shown[k as int]@.on);
        if same_text(shown[k].on.as_str(), on) {
            return Some(k);
        }
    }
    None
}

/// No two mounts that can be seen are on one point.
proof fn lemma_visible_apart(table: Seq<MountView>)
    ensures
        points(visible(table)).no_duplicates(),
    decreases table.len(),
{
    if table.len() > 0 {
        let shown = visible(table.drop_last());
        let on = table.last().on;
        lemma_visible_apart(table.drop_last());
        if points(shown).contains(on) {
            assert(points(visible(table)) =~= points(shown));
        } else {
            assert(points(visible(table)) =~= points(shown).push(on));
        }
    }
}

/// Whether a row of a table has none on its point after it.
pub open spec fn is_last_on_its_point(table: Seq<MountView>, i: int) -> bool {
    &&& 0 <= i < table.len()
    &&& forall|j: int| i < j < table.len() ==> (#[trigger] table[j]).on != table[i].on
}

/// A mount can be seen exactly where it is a row of the table with none on its
/// point after it.
pub proof fn law_last_on_a_point_is_visible(table: Seq<MountView>, mount: MountView)
    ensures
        visible(table).contains(mount) <==> exists|i: int|
            is_last_on_its_point(table, i) && table[i] == mount,
    decreases table.len(),
{
    if table.len() > 0 {
        let rest = table.drop_last();
        let shown = visible(rest);
        let now = visible(table);
        let last = table.last();
        let end = table.len() - 1;
        law_last_on_a_point_is_visible(rest, mount);
        lemma_visible_apart(rest);
        lemma_visible_apart(table);
        assert(is_last_on_its_point(table, end));
        // The last row is shown.
        let at = if points(shown).contains(last.on) {
            points(shown).index_of(last.on)
        } else {
            shown.len() as int
        };
        assert(now[at] == last);
        assert(points(now)[at] == last.on);
        if now.contains(mount) && mount != last {
            let k = now.index_of(mount);
            assert(shown[k] == mount);
            assert(points(now)[k] == mount.on);
            let i = choose|i: int| is_last_on_its_point(rest, i) && rest[i] == mount;
            assert forall|j: int| i < j < table.len() implies (#[trigger] table[j]).on
                != table[i].on by {
                if j < end {
                    assert(rest[j].on != rest[i].on);
                }
            }
            assert(is_last_on_its_point(table, i));
        }
        if exists|i: int| is_last_on_its_point(table, i) && table[i] == mount {
            let i = choose|i: int| is_last_on_its_point(table, i) && table[i] == mount;
            if i < end {
                assert(table[end].on != mount.on);
                assert(is_last_on_its_point(rest, i));
                let k = shown.index_of(mount);
                assert(points(shown)[k] == mount.on);
                assert(now[k] == mount);
            }
        }
    }
}

/// A mount counts besides others where its type does and the keys of the others
/// hold neither its mount point nor its key.
proof fn lemma_fresh(counted: Seq<MountView>, mount: MountView)
    ensures
        counts_besides(counted, mount) <==> {
            &&& !is_skipped_fstype(mount.fstype)
            &&& !keys(counted).contains(mount.on)
            &&& !keys(counted).contains(mount.key())
        },
{
    if !keys(counted).contains(mount.on) && !keys(counted).contains(mount.key()) {
        assert forall|i: int| 0 <= i < counted.len() implies (#[trigger] counted[i]).key()
            != mount.on && counted[i].key() != mount.key() by {
            assert(keys(counted)[i] == counted[i].key());
        }
    }
    if keys(counted).contains(mount.on) {
        let i = keys(counted).index_of(mount.on);
        assert(counted[i].key() == mount.on);
    }
    if keys(counted).contains(mount.key()) {
        let i = keys(counted).index_of(mount.key());
        assert(counted[i].key() == mount.key());
    }
}

/// What counts is some of what is shown, and of a type that counts.
proof fn lemma_counted_of(shown: Seq<MountView>, i: int) -> (k: int)
    requires
        0 <= i < counted_of(shown).len(),
    ensures
        0 <= k < shown.len(),
        counted_of(shown)[i] == shown[k],
        !is_skipped_fstype(shown[k].fstype),
    decreases shown.len(),
{
    let counted = counted_of(shown.drop_last());
    if i < counted.len() {
        lemma_counted_of(shown.drop_last(), i)
    } else {
        shown.len() - 1
    }
}

/// Every counted mount is a row of the table with none on its point after it, and
/// its type counts. So the system, which answers for the last mount on a point,
/// answers for the counted one, and a network filesystem, whose server may be
/// dead, is not asked for its size by its mount point.
pub proof fn law_counted_mounts_are_real(table: Seq<MountView>, i: int)
    requires
        0 <= i < counted_mounts(table).len(),
    ensures
        exists|k: int|
            is_last_on_its_point(table, k) && #[trigger] table[k] == counted_mounts(table)[i],
        !is_skipped_fstype(counted_mounts(table)[i].fstype),
{
    let k = lemma_counted_of(visible(table), i);
    law_last_on_a_point_is_visible(table, counted_mounts(table)[i]);
    assert(visible(table).contains(visible(table)[k]));
}

/// A later counted mount has not the key of an earlier one.
proof fn lemma_keys_apart(shown: Seq<MountView>, i: int, j: int)
    requires
        0 <= i < j < counted_of(shown).len(),
    ensures
        counted_of(shown)[i].key() != counted_of(shown)[j].key(),
    decreases shown.len(),
{
    let counted = counted_of(shown.drop_last());
    if j < counted.len() {
        lemma_keys_apart(shown.drop_last(), i, j);
    } else {
        assert(counted[i].key() != shown.last().key());
    }
}

/// The datasets of a pool are counted once.
pub proof fn law_pool_counted_once(table: Seq<MountView>, i: int, j: int)
    requires
        0 <= i < j < counted_mounts(table).len(),
        counted_mounts(table)[i].is_zfs(),
        counted_mounts(table)[j].is_zfs(),
    ensures
        counted_mounts(table)[i].pool() != counted_mounts(table)[j].pool(),
{
    lemma_keys_apart(visible(table), i, j);
}

/// Mounts that count are on different points where those shown are.
proof fn lemma_points_apart(shown: Seq<MountView>, i: int, j: int)
    requires
        0 <= i < j < counted_of(shown).len(),
        points(shown).no_duplicates(),
    ensures
        counted_of(shown)[i].on != counted_of(shown)[j].on,
    decreases shown.len(),
{
    let rest = shown.drop_last();
    assert(points(rest) =~= points(shown).drop_last());
    if j < counted_of(rest).len() {
        lemma_points_apart(rest, i, j);
    } else {
        let k = lemma_counted_of(rest, i);
        assert(points(shown)[k] == shown[k].on);
        assert(points(shown)[shown.len() - 1] == shown.last().on);
    }
}

/// A mount point is counted once, so the visible filesystem on it is not summed
/// twice.
pub proof fn law_mount_point_counted_once(table: Seq<MountView>, i: int, j: int)
    requires
        0 <= i < j < counted_mounts(table).len(),
    ensures
        counted_mounts(table)[i].on != counted_mounts(table)[j].on,
{
    lemma_visible_apart(table);
    lemma_points_apart(visible(table), i, j);
}

/// No storage is missed, where every mount point is a path: a visible mount whose
/// type counts is counted itself, or it is a dataset and a counted one is of its
/// pool.
pub proof fn law_no_storage_missed(table: Seq<MountView>, i: int)
    requires
        is_last_on_its_point(table, i),
        !is_skipped_fstype(table[i].fstype),
        forall|j: int| 0 <= j < table.len() ==> (#[trigger] table[j]).on.contains('/'),
    ensures
        exists|k: int|
            {
                &&& 0 <= k < counted_mounts(table).len()
                &&& {
                    ||| #[trigger] counted_mounts(table)[k] == table[i]
                    ||| table[i].is_zfs() && counted_mounts(table)[k].is_zfs()
                        && counted_mounts(table)[k].pool() == table[i].pool()
                }
            },
{
    let shown = visible(table);
    lemma_visible_apart(table);
    law_last_on_a_point_is_visible(table, table[i]);
    assert forall|j: int| 0 <= j < shown.len() implies (#[trigger] shown[j]).on.contains('/') by {
        law_last_on_a_point_is_visible(table, shown[j]);
        assert(shown.contains(shown[j]));
    }
    lemma_no_storage_missed(shown, shown.index_of(table[i]));
    let k = choose|k: int|
        {
            &&& 0 <= k < counted_of(shown).len()
            &&& {
                ||| #[trigger] counted_of(shown)[k] == table[i]
                ||| table[i].is_zfs() && counted_of(shown)[k].is_zfs()
                    && counted_of(shown)[k].pool() == table[i].pool()
            }
        };
    assert(counted_mounts(table)[k] == counted_of(shown)[k]);
}

proof fn lemma_no_storage_missed(shown: Seq<MountView>, i: int)
    requires
        0 <= i < shown.len(),
        !is_skipped_fstype(shown[i].fstype),
        points(shown).no_duplicates(),
        forall|j: int| 0 <= j < shown.len() ==> (#[trigger] shown[j]).on.contains('/'),
    ensures
        exists|k: int|
            {
                &&& 0 <= k < counted_of(shown).len()
                &&& {
                    ||| #[trigger] counted_of(shown)[k] == shown[i]
                    ||| shown[i].is_zfs() && counted_of(shown)[k].is_zfs()
                        && counted_of(shown)[k].pool() == shown[i].pool()
                }
            },
    decreases shown.len(),
{
    let rest = shown.drop_last();
    let counted = counted_of(rest);
    assert(points(rest) =~= points(shown).drop_last());
    if i < rest.len() {
        assert forall|j: int| 0 <= j < rest.len() implies (#[trigger] rest[j]).on.contains('/') by {
            assert(rest[j] == shown[j]);
        }
        lemma_no_storage_missed(rest, i);
        let k = choose|k: int|
            {
                &&& 0 <= k < counted.len()
                &&& {
                    ||| #[trigger] counted[k] == rest[i]
                    ||| rest[i].is_zfs() && counted[k].is_zfs() && counted[k].pool()
                        == rest[i].pool()
                }
            };
        assert(counted_of(shown)[k] == counted[k]);
    } else if counts_besides(counted, shown[i]) {
        assert(counted_of(shown)[counted.len() as int] == shown[i]);
    } else {
        let k = choose|k: int|
            0 <= k < counted.len() && ((#[trigger] counted[k]).key() == shown[i].on
                || counted[k].key() == shown[i].key());
        let at = lemma_counted_of(rest, k);
        assert(points(shown)[at] == shown[at].on);
        assert(points(shown)[i] == shown[i].on);
        assert(shown[at] == counted[k]);
        // A pool has no slash in its name, a mount point has.
        lemma_before_lacks(shown[at].from, '/');
        lemma_before_lacks(shown[i].from, '/');
        assert(counted_of(shown)[k] == counted[k]);
    }
}

/// What the system tells of the size of a filesystem: the size of a fragment
/// and of a block, and the number of blocks and of free blocks.
#[derive(Clone, Copy, Debug, PartialEq, Eq)]
pub struct FsStat {
    pub frsize: u64,
    pub bsize: u64,
    pub blocks: u64,
    pub bfree: u64,
}

impl FsStat {
    /// The unit that the blocks are counted in.
    pub open spec fn unit(self) -> nat {
        if self.frsize > 0 {
            self.frsize as nat
        } else {
            self.bsize as nat
        }
    }

    /// The bytes of the filesystem.
    pub open spec fn total(self) -> nat {
        self.blocks as nat * self.unit()
    }

    /// The bytes of it that are not free.
    pub open spec fn used(self) -> nat {
        (self.blocks - self.bfree) as nat * self.unit()
    }

    /// No more is free than there is, and the size fits a counter.
    pub open spec fn is_sane(self) -> bool {
        self.bfree <= self.blocks && self.total() <= u64::MAX
    }

    /// Whether no more is free than there is, and the size fits a counter.
    pub fn sane(&self) -> (yes: bool)
        ensures
            yes == self.is_sane(),
    {
        let unit: u64 = if self.frsize > 0 { self.frsize } else { self.bsize };
        self.bfree <= self.blocks && self.blocks.checked_mul(unit).is_some()
    }
}

/// The bytes of all filesystems that answered.
pub open spec fn total_bytes(stats: Seq<Option<FsStat>>) -> nat
    decreases stats.len(),
{
    if stats.len() == 0 {
        0
    } else {
        total_bytes(stats.drop_last()) + match stats.last() {
            Some(stat) => stat.total(),
            None => 0,
        }
    }
}

/// The bytes in use of all filesystems that answered.
pub open spec fn used_bytes(stats: Seq<Option<FsStat>>) -> nat
    decreases stats.len(),
{
    if stats.len() == 0 {
        0
    } else {
        used_bytes(stats.drop_last()) + match stats.last() {
            Some(stat) => stat.used(),
            None => 0,
        }
    }
}

/// Whether every answer is sane.
pub open spec fn all_sane(stats: Seq<Option<FsStat>>) -> bool {
    forall|i: int|
        0 <= i < stats.len() ==> ((#[trigger] stats[i]) matches Some(stat) ==> stat.is_sane())
}

/// `(total, used)` bytes of the filesystems that answered; what is used is what
/// is not free, exactly what df reports.
pub fn disk_usage(stats: &Vec<Option<FsStat>>) -> (bytes: (u64, u64))
    requires
        all_sane(stats@),
    ensures
        bytes.0 == capped(total_bytes(stats@)),
        bytes.1 == capped(used_bytes(stats@)),
{
    let mut total: u64 = 0;
    let mut used: u64 = 0;
    for i in 0..stats.len()
        invariant
            all_sane(stats@),
            total == capped(total_bytes(stats@.take(i as int))),
            used == capped(used_bytes(stats@.take(i as int))),
    {
        assert(stats@.take(i + 1).drop_last() =~= stats@.take(i as int));
        assert(stats@.take(i + 1).last() == stats@[i as int]);
        if let Some(stat) = &stats[i] {
            let unit: u64 = if stat.frsize > 0 { stat.frsize } else { stat.bsize };
            proof {
                lemma_used_within_total(*stat);
            }
            total = total.saturating_add(stat.blocks * unit);
            used = used.saturating_add((stat.blocks - stat.bfree) * unit);
        }
    }
    assert(stats@.take(stats.len() as int) =~= stats@);
    (total, used)
}

proof fn lemma_used_within_total(stat: FsStat)
    requires
        stat.is_sane(),
    ensures
        stat.used() <= stat.total(),
{
    let unit = stat.unit();
    let blocks = stat.blocks as nat;
    let taken = (stat.blocks - stat.bfree) as nat;
    assert(taken * unit <= blocks * unit) by (nonlinear_arith)
        requires
            taken <= blocks,
    ;
}

/// No more disk space is in use than there is.
pub proof fn law_used_disk_within_total(stats: Seq<Option<FsStat>>)
    requires
        all_sane(stats),
    ensures
        capped(used_bytes(stats)) <= capped(total_bytes(stats)),
{
    lemma_used_bytes(stats);
}

proof fn lemma_used_bytes(stats: Seq<Option<FsStat>>)
    requires
        all_sane(stats),
    ensures
        used_bytes(stats) <= total_bytes(stats),
    decreases stats.len(),
{
    if stats.len() > 0 {
        let rest = stats.drop_last();
        assert forall|i: int| 0 <= i < rest.len() implies ((#[trigger] rest[i]) matches Some(
            stat,
        ) ==> stat.is_sane()) by {
            assert(rest[i] == stats[i]);
        }
        lemma_used_bytes(rest);
        assert(stats[stats.len() - 1] == stats.last());
        if let Some(stat) = stats.last() {
            lemma_used_within_total(stat);
        }
    }
}

/// The rows, the mount points and the keys of a list keep their places.
pub proof fn law_rows_keep_their_places(table: Seq<Mount>, mounts: Seq<MountView>)
    ensures
        rows(table).len() == table.len(),
        forall|i: int|
            0 <= i < table.len() ==> #[trigger] rows(table)[i] == (MountView {
                fstype: table[i].fstype@,
                from: table[i].from@,
                on: table[i].on@,
            }),
        points(mounts).len() == mounts.len(),
        forall|i: int| 0 <= i < mounts.len() ==> #[trigger] points(mounts)[i] == mounts[i].on,
{
}

/// A filesystem does not count where the name of its type begins with one of these,
/// and counts otherwise.
pub proof fn law_types_that_do_not_count(fstype: Seq<char>)
    ensures
        is_skipped_fstype(fstype) <==> {
            ||| "devfs"@.is_prefix_of(fstype)
            ||| "procfs"@.is_prefix_of(fstype)
            ||| "fdescfs"@.is_prefix_of(fstype)
            ||| "tmpfs"@.is_prefix_of(fstype)
            ||| "nullfs"@.is_prefix_of(fstype)
            ||| "linprocfs"@.is_prefix_of(fstype)
            ||| "linsysfs"@.is_prefix_of(fstype)
            ||| "unionfs"@.is_prefix_of(fstype)
            ||| "fusefs"@.is_prefix_of(fstype)
            ||| "nfs"@.is_prefix_of(fstype)
            ||| "nfs4"@.is_prefix_of(fstype)
            ||| "cifs"@.is_prefix_of(fstype)
            ||| "smbfs"@.is_prefix_of(fstype)
        },
{
    let list = SKIP_FSTYPES@;
    assert(list[0]@ == "devfs"@ && list[1]@ == "procfs"@ && list[2]@ == "fdescfs"@);
    assert(list[3]@ == "tmpfs"@ && list[4]@ == "nullfs"@ && list[5]@ == "linprocfs"@);
    assert(list[6]@ == "linsysfs"@ && list[7]@ == "unionfs"@ && list[8]@ == "fusefs"@);
    assert(list[9]@ == "nfs"@ && list[10]@ == "nfs4"@ && list[11]@ == "cifs"@);
    assert(list[12]@ == "smbfs"@);
}

/// Of the datasets of one pool no two are counted. A dataset is of a pool where its
/// path is the name of the pool, or that name, a slash and anything.
pub proof fn law_no_two_datasets_of_a_pool_count(
    table: Seq<MountView>,
    i: int,
    j: int,
    pool: Seq<char>,
    x: Seq<char>,
    y: Seq<char>,
)
    requires
        0 <= i < counted_mounts(table).len(),
        0 <= j < counted_mounts(table).len(),
        i != j,
        counted_mounts(table)[i].fstype == "zfs"@,
        counted_mounts(table)[j].fstype == "zfs"@,
        !pool.contains('/'),
    ensures
        !{
            let a = counted_mounts(table)[i].from;
            let b = counted_mounts(table)[j].from;
            &&& a == pool || a == pool.push('/') + x
            &&& b == pool || b == pool.push('/') + y
        },
{
    law_before_is_the_start_without_stop(pool, '/', x);
    law_before_is_the_start_without_stop(pool, '/', y);
    if i < j {
        law_pool_counted_once(table, i, j);
    } else {
        law_pool_counted_once(table, j, i);
    }
}

/// Every row is on the point of a mount that can be seen.
proof fn lemma_points_are_shown(table: Seq<MountView>, i: int)
    requires
        0 <= i < table.len(),
    ensures
        points(visible(table)).contains(table[i].on),
    decreases table.len(),
{
    let rest = table.drop_last();
    let shown = visible(rest);
    let last = table.last();
    if points(shown).contains(last.on) {
        let at = points(shown).index_of(last.on);
        assert(points(visible(table)) =~= points(shown));
    } else {
        assert(points(visible(table)) =~= points(shown).push(last.on));
        assert(points(visible(table))[shown.len() as int] == last.on);
    }
    if i < rest.len() {
        lemma_points_are_shown(rest, i);
        let k = points(shown).index_of(table[i].on);
        assert(points(visible(table))[k] == table[i].on);
    }
}

/// The mounts that can be seen stand in the order in which the table first names
/// their points.
proof fn lemma_visible_order(table: Seq<MountView>, i: int, j: int) -> (f: int)
    requires
        0 <= i < j < visible(table).len(),
    ensures
        0 <= f < table.len(),
        table[f].on == visible(table)[i].on,
        forall|h: int|
            0 <= h < table.len() && (#[trigger] table[h]).on == visible(table)[j].on ==> f < h,
    decreases table.len(),
{
    let rest = table.drop_last();
    let shown = visible(rest);
    let now = visible(table);
    let last = table.last();
    if points(shown).contains(last.on) {
        let at = points(shown).index_of(last.on);
        assert(points(now) =~= points(shown));
        assert(points(now)[i] == now[i].on && points(now)[j] == now[j].on);
        assert(points(shown)[i] == shown[i].on && points(shown)[j] == shown[j].on);
        let f = lemma_visible_order(rest, i, j);
        assert(table[f] == rest[f]);
        assert forall|h: int| 0 <= h < table.len() && (#[trigger] table[h]).on
            == now[j].on implies f < h by {
            if h < rest.len() {
                assert(rest[h] == table[h]);
            }
        }
        f
    } else if j < shown.len() {
        let f = lemma_visible_order(rest, i, j);
        assert(table[f] == rest[f]);
        assert forall|h: int| 0 <= h < table.len() && (#[trigger] table[h]).on
            == now[j].on implies f < h by {
            if h < rest.len() {
                assert(rest[h] == table[h]);
            }
        }
        f
    } else {
        law_last_on_a_point_is_visible(rest, shown[i]);
        assert(shown.contains(shown[i]));
        let f = choose|f: int| is_last_on_its_point(rest, f) && rest[f] == shown[i];
        assert(table[f] == rest[f]);
        assert forall|h: int| 0 <= h < table.len() && (#[trigger] table[h]).on
            == now[j].on implies f < h by {
            if h < rest.len() {
                lemma_points_are_shown(rest, h);
                assert(rest[h] == table[h]);
            }
        }
        f
    }
}

/// Of mounts on different points, which are paths, one of a type that counts is
/// counted, or it is a dataset and one before it that is of its pool is counted.
proof fn lemma_counted_or_one_before(shown: Seq<MountView>, i: int) -> (places: (int, int))
    requires
        0 <= i < shown.len(),
        !is_skipped_fstype(shown[i].fstype),
        points(shown).no_duplicates(),
        forall|j: int| 0 <= j < shown.len() ==> (#[trigger] shown[j]).on.contains('/'),
    ensures
        0 <= places.0 < counted_of(shown).len(),
        0 <= places.1 <= i,
        counted_of(shown)[places.0] == shown[places.1],
        places.1 < i ==> shown[i].is_zfs() && shown[places.1].is_zfs() && shown[places.1].pool()
            == shown[i].pool(),
    decreases shown.len(),
{
    let rest = shown.drop_last();
    let counted = counted_of(rest);
    assert(points(rest) =~= points(shown).drop_last());
    if i < rest.len() {
        assert forall|j: int| 0 <= j < rest.len() implies (#[trigger] rest[j]).on.contains('/') by {
            assert(rest[j] == shown[j]);
        }
        let places = lemma_counted_or_one_before(rest, i);
        assert(counted_of(shown)[places.0] == counted[places.0]);
        places
    } else if counts_besides(counted, shown[i]) {
        (counted.len() as int, i)
    } else {
        let k = choose|k: int|
            0 <= k < counted.len() && ((#[trigger] counted[k]).key() == shown[i].on
                || counted[k].key() == shown[i].key());
        let at = lemma_counted_of(rest, k);
        assert(points(shown)[at] == shown[at].on);
        assert(points(shown)[i] == shown[i].on);
        assert(shown[at] == counted[k]);
        lemma_before_lacks(shown[at].from, '/');
        lemma_before_lacks(shown[i].from, '/');
        assert(counted_of(shown)[k] == counted[k]);
        (k, at)
    }
}

/// Which mounts count, where every mount point is a path. One of a type that counts,
/// with none on its point after it, is counted; or it is a dataset, and a dataset
/// of its pool is counted whose point the table names before its own.
pub proof fn law_counted_or_its_pool_is_before_it(table: Seq<MountView>, i: int)
    requires
        0 <= i < table.len(),
        forall|j: int| 0 <= j < table.len() ==> (#[trigger] table[j]).on.contains('/'),
        forall|j: int| i < j < table.len() ==> (#[trigger] table[j]).on != table[i].on,
        !is_skipped_fstype(table[i].fstype),
    ensures
        counted_mounts(table).contains(table[i]) || exists|k: int, f: int|
            {
                &&& 0 <= k < counted_mounts(table).len()
                &&& 0 <= f < table.len()
                &&& table[i].fstype == "zfs"@
                &&& (#[trigger] counted_mounts(table)[k]).fstype == "zfs"@
                &&& before(counted_mounts(table)[k].from, '/') == before(table[i].from, '/')
                &&& (#[trigger] table[f]).on == counted_mounts(table)[k].on
                &&& forall|h: int|
                    0 <= h < table.len() && (#[trigger] table[h]).on == table[i].on ==> f < h
            },
{
    let shown = visible(table);
    lemma_visible_apart(table);
    assert(is_last_on_its_point(table, i));
    law_last_on_a_point_is_visible(table, table[i]);
    let at = shown.index_of(table[i]);
    lemma_shown_are_paths(table);
    let (k, r) = lemma_counted_or_one_before(shown, at);
    assert(counted_mounts(table)[k] == shown[r]);
    if r < at {
        let f = lemma_visible_order(table, r, at);
        assert(table[f].on == counted_mounts(table)[k].on);
    }
}

/// What can be seen is on paths where the table is.
proof fn lemma_shown_are_paths(table: Seq<MountView>)
    requires
        forall|j: int| 0 <= j < table.len() ==> (#[trigger] table[j]).on.contains('/'),
    ensures
        forall|j: int|
            0 <= j < visible(table).len() ==> (#[trigger] visible(table)[j]).on.contains('/'),
{
    let shown = visible(table);
    assert forall|j: int| 0 <= j < shown.len() implies (#[trigger] shown[j]).on.contains('/') by {
        law_last_on_a_point_is_visible(table, shown[j]);
        assert(shown.contains(shown[j]));
    }
}

/// A counted mount is a row of the table with none on its point after it, and of a
/// type that counts.
pub proof fn law_hidden_mounts_do_not_count(table: Seq<MountView>, i: int)
    requires
        0 <= i < counted_mounts(table).len(),
    ensures
        exists|k: int|
            {
                &&& 0 <= k < table.len()
                &&& #[trigger] table[k] == counted_mounts(table)[i]
                &&& forall|j: int| k < j < table.len() ==> (#[trigger] table[j]).on != table[k].on
            },
        !is_skipped_fstype(counted_mounts(table)[i].fstype),
{
    law_counted_mounts_are_real(table, i);
}

/// The counted mounts stand in the order in which the table first names their
/// points.
pub proof fn law_counted_mounts_keep_the_order_of_the_table(
    table: Seq<MountView>,
    i: int,
    j: int,
)
    requires
        0 <= i < j < counted_mounts(table).len(),
    ensures
        exists|f: int|
            {
                &&& 0 <= f < table.len()
                &&& (#[trigger] table[f]).on == counted_mounts(table)[i].on
                &&& forall|h: int|
                    0 <= h < table.len() && (#[trigger] table[h]).on == counted_mounts(table)[j].on
                        ==> f < h
            },
{
    let (k, l) = lemma_counted_in_order(visible(table), i, j);
    let f = lemma_visible_order(table, k, l);
    assert(table[f].on == counted_mounts(table)[i].on);
}

/// What counts stands in the order of what is shown.
proof fn lemma_counted_in_order(shown: Seq<MountView>, i: int, j: int) -> (places: (int, int))
    requires
        0 <= i < j < counted_of(shown).len(),
    ensures
        0 <= places.0 < places.1 < shown.len(),
        counted_of(shown)[i] == shown[places.0],
        counted_of(shown)[j] == shown[places.1],
    decreases shown.len(),
{
    let rest = shown.drop_last();
    if j < counted_of(rest).len() {
        lemma_counted_in_order(rest, i, j)
    } else {
        let k = lemma_counted_of(rest, i);
        (k, shown.len() - 1)
    }
}

/// Disk space adds up: that of two lists is that of the one and that of the other
/// together. A filesystem that did not answer has none; one that did has its
/// blocks, and in use those that are not free, each of the size of a fragment, or of
/// a block where no size of fragments is told.
pub proof fn law_disk_space_adds_up(
    a: Seq<Option<FsStat>>,
    b: Seq<Option<FsStat>>,
    stat: FsStat,
)
    requires
        stat.bfree <= stat.blocks,
    ensures
        total_bytes(Seq::empty()) == 0,
        used_bytes(Seq::empty()) == 0,
        total_bytes(seq![None]) == 0,
        used_bytes(seq![None]) == 0,
        total_bytes(a + b) == total_bytes(a) + total_bytes(b),
        used_bytes(a + b) == used_bytes(a) + used_bytes(b),
        stat.frsize > 0 ==> total_bytes(seq![Some(stat)]) == stat.blocks * stat.frsize,
        stat.frsize == 0 ==> total_bytes(seq![Some(stat)]) == stat.blocks * stat.bsize,
        stat.frsize > 0 ==> used_bytes(seq![Some(stat)]) == (stat.blocks - stat.bfree)
            * stat.frsize,
        stat.frsize == 0 ==> used_bytes(seq![Some(stat)]) == (stat.blocks - stat.bfree)
            * stat.bsize,
    decreases b.len(),
{
    let none: Seq<Option<FsStat>> = Seq::empty();
    assert(seq![Some(stat)].drop_last() =~= none);
    assert(seq![None::<FsStat>].drop_last() =~= none);
    assert(total_bytes(none) == 0 && used_bytes(none) == 0);
    if b.len() > 0 {
        law_disk_space_adds_up(a, b.drop_last(), stat);
        assert((a + b).drop_last() =~= a + b.drop_last());
    } else {
        assert(a + b =~= a);
    }
}

/// An answer can be summed where no more is free than there is and the bytes of all
/// blocks fit 64 bits.
pub proof fn law_sane_answers(stat: FsStat)
    ensures
        stat.is_sane() <==> {
            &&& stat.bfree <= stat.blocks
            &&& stat.frsize > 0 ==> stat.blocks * stat.frsize <= 0xffff_ffff_ffff_ffff
            &&& stat.frsize == 0 ==> stat.blocks * stat.bsize <= 0xffff_ffff_ffff_ffff
        },
{
}

} // verus!
