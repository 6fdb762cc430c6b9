//! Where mounts come from: which of the mounted filesystems are reported, and
//! in which order.

use vstd::prelude::*;
use vstd::string::*;

use crate::model::{option_view, views, Mount, MountView, Usage};
use crate::text::{
    begins_with, eq_ignore_ascii_case, is_text_before, law_first_different_character_decides,
    lemma_text_order, lemma_text_transitive, same_ignoring_case, same_text, starts_with,
    text_before,
};

verus! {

/// Why the mounted filesystems could not be read.
#[derive(Debug, PartialEq, Eq)]
pub struct SampleError {
    pub message: String,
}

/// Something that knows the mounted filesystems.
pub trait DiskSource: Send + Sync {
    /// The filesystems that are mounted now.
    fn sample(&self) -> (mounts: Result<Vec<Mount>, SampleError>);
}

/// One line of the kernel's mount table.
#[derive(Debug, PartialEq, Eq)]
pub struct DiskReading {
    pub mount_point: String,
    pub device: String,
    pub fs_type: String,
    pub total_bytes: u64,
    pub available_bytes: u64,
}

/// The view of a `DiskReading`.
#[verifier::ext_equal]
pub struct DiskReadingView {
    pub mount_point: Seq<char>,
    pub device: Seq<char>,
    pub fs_type: Seq<char>,
    pub total_bytes: u64,
    pub available_bytes: u64,
}

impl View for DiskReading {
    type V = DiskReadingView;

    open spec fn view(&self) -> DiskReadingView {
        DiskReadingView {
            mount_point: self.mount_point@,
            device: self.device@,
            fs_type: self.fs_type@,
            total_bytes: self.total_bytes,
            available_bytes: self.available_bytes,
        }
    }
}

/// Types of filesystems that hold no files of their own. `msdos` is the EFI
/// System Partition, which is small and managed by the bootloader.
pub open spec fn pseudo_fs() -> Seq<Seq<char>> {
    seq!["devfs"@, "autofs"@, "ctl"@, "fdesc"@, "tmpfs"@, "msdos"@]
}

/// Mount points that the system manages and whose storage is that of `/`.
pub open spec fn hidden_mount_prefixes() -> Seq<Seq<char>> {
    seq![
        "/System/Volumes/Preboot"@,
        "/System/Volumes/VM"@,
        "/System/Volumes/Update"@,
        "/System/Volumes/iSCPreboot"@,
        "/System/Volumes/xarts"@,
        "/System/Volumes/Hardware"@,
        "/System/Volumes/Recovery"@,
        "/private/var/vm"@,
    ]
}

/// Whether `mount_point` is `prefix` or lies below it.
pub open spec fn at_or_below(mount_point: Seq<char>, prefix: Seq<char>) -> bool {
    mount_point == prefix || begins_with(mount_point, prefix.push('/'))
}

/// Whether a filesystem is one to report: it has room for something, is no
/// pseudo filesystem and is not mounted where the system hides its own.
pub open spec fn real_filesystem(
    mount_point: Seq<char>,
    fs_type: Seq<char>,
    total_bytes: u64,
) -> bool {
    &&& total_bytes != 0
    &&& forall|i: int|
        0 <= i < pseudo_fs().len() ==> !same_ignoring_case(fs_type, #[trigger] pseudo_fs()[i])
    &&& forall|i: int|
        0 <= i < hidden_mount_prefixes().len() ==> !at_or_below(
            mount_point,
            #[trigger] hidden_mount_prefixes()[i],
        )
}

fn is_pseudo_fs(fs_type: &str) -> (pseudo: bool)
    ensures
        pseudo == exists|i: int|
            0 <= i < pseudo_fs().len() && same_ignoring_case(fs_type@, #[trigger] pseudo_fs()[i]),
{
    let pseudo = eq_ignore_ascii_case(fs_type, "devfs") || eq_ignore_ascii_case(fs_type, "autofs")
        || eq_ignore_ascii_case(fs_type, "ctl") || eq_ignore_ascii_case(fs_type, "fdesc")
        || eq_ignore_ascii_case(fs_type, "tmpfs") || eq_ignore_ascii_case(fs_type, "msdos");
    proof {
        let all = pseudo_fs();
        assert(all[0] == "devfs"@ && all[1] == "autofs"@ && all[2] == "ctl"@ && all[3] == "fdesc"@
            && all[4] == "tmpfs"@ && all[5] == "msdos"@);
    }
    pseudo
}

fn is_at_or_below(mount_point: &str, prefix: &str) -> (below: bool)
    ensures
        below == at_or_below(mount_point@, prefix@),
{
    proof {
        reveal_strlit("/");
    }
    let mut directory = prefix.to_owned();
    directory.append("/");
    assert(directory@ =~= prefix@.push('/'));
    same_text(mount_point, prefix) || starts_with(mount_point, directory.as_str())
}

fn is_hidden_mount(mount_point: &str) -> (hidden: bool)
    ensures
        hidden == exists|i: int|
            0 <= i < hidden_mount_prefixes().len() && at_or_below(
                mount_point@,
                #[trigger] hidden_mount_prefixes()[i],
            ),
{
    let hidden = is_at_or_below(mount_point, "/System/Volumes/Preboot") || is_at_or_below(
        mount_point,
        "/System/Volumes/VM",
    ) || is_at_or_below(mount_point, "/System/Volumes/Update") || is_at_or_below(
        mount_point,
        "/System/Volumes/iSCPreboot",
    ) || is_at_or_below(mount_point, "/System/Volumes/xarts") || is_at_or_below(
        mount_point,
        "/System/Volumes/Hardware",
    ) || is_at_or_below(mount_point, "/System/Volumes/Recovery") || is_at_or_below(
        mount_point,
        "/private/var/vm",
    );
    proof {
        let all = hidden_mount_prefixes();
        assert(all[0] == "/System/Volumes/Preboot"@);
        assert(all[1] == "/System/Volumes/VM"@);
        assert(all[2] == "/System/Volumes/Update"@);
        assert(all[3] == "/System/Volumes/iSCPreboot"@);
        assert(all[4] == "/System/Volumes/xarts"@);
        assert(all[5] == "/System/Volumes/Hardware"@);
        assert(all[6] == "/System/Volumes/Recovery"@);
        assert(all[7] == "/private/var/vm"@);
    }
    hidden
}

/// Whether a filesystem is one to report.
pub fn is_real_filesystem(mount_point: &str, fs_type: &str, total_bytes: u64) -> (shown: bool)
    ensures
        shown == real_filesystem(mount_point@, fs_type@, total_bytes),
{
    if total_bytes == 0 {
        return false;
    }
    if is_pseudo_fs(fs_type) {
        return false;
    }
    if is_hidden_mount(mount_point) {
        return false;
    }
    true
}

/// Whether `disk` is a filesystem to report.
pub open spec fn is_real(disk: DiskReadingView) -> bool {
    real_filesystem(disk.mount_point, disk.fs_type, disk.total_bytes)
}

/// Whether `disk` is mounted at the root.
pub open spec fn at_root(disk: DiskReadingView) -> bool {
    disk.mount_point == "/"@
}

/// Whether the disk at `i` stands for the device that it shares with the one at
/// `j`: the one at the root does, and otherwise the one that comes first.
pub open spec fn outranks(disks: Seq<DiskReadingView>, i: int, j: int) -> bool {
    if at_root(disks[i]) == at_root(disks[j]) {
        i < j
    } else {
        at_root(disks[i])
    }
}

/// Whether the disks at `i` and `j` are different ones, both real, on one
/// device.
pub open spec fn compete(disks: Seq<DiskReadingView>, i: int, j: int) -> bool {
    i != j && is_real(disks[i]) && is_real(disks[j]) && disks[i].device == disks[j].device
}

/// Whether the disk at `i` is reported. A container exposes several volumes
/// backed by one device, and the usage of the root is the canonical figure for
/// the container: of the real disks on a device the one at the root is
/// reported, and where none is there, the first.
pub open spec fn is_reported(disks: Seq<DiskReadingView>, i: int) -> bool {
    &&& is_real(disks[i])
    &&& forall|j: int|
        0 <= j < disks.len() && #[trigger] compete(disks, i, j) ==> outranks(disks, i, j)
}

/// The bytes in use: what is not available, and none where more is said to be
/// available than there is.
pub open spec fn used_bytes(total: u64, available: u64) -> u64 {
    if available > total {
        0
    } else {
        (total - available) as u64
    }
}

/// How `disk` is reported before any scan of its files.
pub open spec fn mount_of(disk: DiskReadingView) -> MountView {
    MountView {
        mount_point: disk.mount_point,
        device: disk.device,
        fs_type: disk.fs_type,
        usage: Usage {
            used_bytes: used_bytes(disk.total_bytes, disk.available_bytes),
            free_bytes: disk.available_bytes,
            total_bytes: disk.total_bytes,
        },
        largest_files: Seq::empty(),
        largest_files_scanned_at: None,
    }
}

/// The mounts that are reported among the first `n` of `disks`, in the order of
/// the mount table.
pub open spec fn reported_among(disks: Seq<DiskReadingView>, n: nat) -> Seq<MountView>
    decreases n,
{
    if n == 0 {
        Seq::empty()
    } else if is_reported(disks, n - 1) {
        reported_among(disks, (n - 1) as nat).push(mount_of(disks[n - 1]))
    } else {
        reported_among(disks, (n - 1) as nat)
    }
}

/// The mounts that are reported, in the order of the mount table.
pub open spec fn reported(disks: Seq<DiskReadingView>) -> Seq<MountView> {
    reported_among(disks, disks.len())
}

/// Whether the mount point `a` is listed before `b`: the root comes first, the
/// others follow in alphabetical order.
pub open spec fn sorts_before(a: Seq<char>, b: Seq<char>) -> bool {
    if b == "/"@ {
        false
    } else if a == "/"@ {
        true
    } else {
        text_before(a, b)
    }
}

/// Whether `list` is `mounts` in the order of their mount points, where
/// `origin` says which of `mounts` stands at each place. Mounts with one mount
/// point keep their order, unless it is the root: the order of several mounts
/// at the root is left open.
pub open spec fn is_sorted_from(
    list: Seq<MountView>,
    mounts: Seq<MountView>,
    origin: Seq<int>,
) -> bool {
    &&& list.len() == mounts.len()
    &&& origin.len() == mounts.len()
    &&& origin.no_duplicates()
    &&& forall|i: int|
        0 <= i < list.len() ==> 0 <= #[trigger] origin[i] < mounts.len() && list[i]
            == mounts[origin[i]]
    &&& forall|i: int, j: int|
        0 <= i < j < list.len() ==> !sorts_before(
            #[trigger] list[j].mount_point,
            #[trigger] list[i].mount_point,
        )
    &&& forall|i: int, j: int|
        0 <= i < j < list.len() && list[i].mount_point == list[j].mount_point
            && list[i].mount_point != "/"@ ==> #[trigger] origin[i] < #[trigger] origin[j]
}

/// Whether `list` is the listing of the mount table `disks`.
pub open spec fn is_mount_listing(list: Seq<MountView>, disks: Seq<DiskReadingView>) -> bool {
    exists|origin: Seq<int>| is_sorted_from(list, reported(disks), origin)
}

proof fn lemma_sort_order(a: Seq<char>, b: Seq<char>)
    ensures
        !sorts_before(a, a),
        sorts_before(a, b) || sorts_before(b, a) || a == b,
        sorts_before(a, b) ==> !sorts_before(b, a),
{
    lemma_text_order(a, b);
}

proof fn lemma_sort_transitive(a: Seq<char>, b: Seq<char>, c: Seq<char>)
    requires
        sorts_before(a, b),
        sorts_before(b, c),
    ensures
        sorts_before(a, c),
{
    if a != "/"@ {
        lemma_text_transitive(a, b, c);
    }
}

fn is_listed_before(a: &str, b: &str) -> (before: bool)
    ensures
        before == sorts_before(a@, b@),
{
    if same_text(b, "/") {
        false
    } else if same_text(a, "/") {
        true
    } else {
        is_text_before(a, b)
    }
}

/// Puts `mount` in its place in `list`, after those with the same mount point.
fn insert_mount(
    list: &mut Vec<Mount>,
    mount: Mount,
    mounts: Ghost<Seq<MountView>>,
    origin: Ghost<Seq<int>>,
) -> (next: Ghost<Seq<int>>)
    requires
        is_sorted_from(views(old(list)@), mounts@, origin@),
    ensures
        is_sorted_from(views(final(list)@), mounts@.push(mount@), next@),
{
    let ghost before = views(list@);
    let mut at: usize = 0;
    while at < list.len() && !is_listed_before(
        mount.mount_point.as_str(),
        list[at].mount_point.as_str(),
    )
        invariant
            at <= list.len(),
            views(list@) == before,
            forall|j: int|
                0 <= j < at ==> !sorts_before(mount@.mount_point, #[trigger] before[j].mount_point),
        decreases list.len() - at,
    {
        at = at + 1;
    }
    let ghost new = mount@;
    list.insert(at, mount);
    let ghost next = origin@.insert(at as int, mounts@.len() as int);
    proof {
        let after = views(list@);
        assert(after =~= before.insert(at as int, new));
        assert forall|i: int| 0 <= i < after.len() implies 0 <= #[trigger] next[i]
            < mounts@.push(new).len() && after[i] == mounts@.push(new)[next[i]] by {
            if i < at {
                assert(next[i] == origin@[i]);
            } else if i > at {
                assert(next[i] == origin@[i - 1]);
            }
        }
        assert(next.no_duplicates()) by {
            assert forall|i: int, j: int| 0 <= i < next.len() && 0 <= j < next.len() && i
                != j implies next[i] != next[j] by {
                let a = if i < at { i } else { i - 1 };
                let b = if j < at { j } else { j - 1 };
                if i != at && j != at {
                    assert(origin@[a] != origin@[b]);
                } else if i == at {
                    assert(origin@[b] < mounts@.len());
                } else {
                    assert(origin@[a] < mounts@.len());
                }
            }
        }
        assert forall|i: int, j: int| 0 <= i < j < after.len() implies !sorts_before(
            #[trigger] after[j].mount_point,
            #[trigger] after[i].mount_point,
        ) && (after[i].mount_point == after[j].mount_point && after[i].mount_point != "/"@
            ==> next[i] < next[j]) by {
            let a = if i < at { i } else { i - 1 };
            let b = if j < at { j } else { j - 1 };
            if i == at {
                let here = before[at as int].mount_point;
                let there = before[b].mount_point;
                lemma_sort_order(new.mount_point, here);
                lemma_sort_order(new.mount_point, there);
                lemma_sort_order(here, there);
                assert(at == b || !sorts_before(there, here));
                if at != b && here != there {
                    lemma_sort_transitive(new.mount_point, here, there);
                }
            } else if j == at {
                assert(origin@[a] < mounts@.len());
            } else {
                assert(!sorts_before(before[b].mount_point, before[a].mount_point));
                assert(before[a].mount_point == before[b].mount_point && before[a].mount_point
                    != "/"@ ==> origin@[a] < origin@[b]);
            }
        }
    }
    Ghost(next)
}

/// Whether the disk at `i` is reported.
fn is_shown(disks: &Vec<DiskReading>, i: usize) -> (shown: bool)
    requires
        i < disks@.len(),
    ensures
        shown == is_reported(views(disks@), i as int),
{
    let ghost table = views(disks@);
    let disk = &disks[i];
    assert(table[i as int] == disk@);
    if !is_real_filesystem(disk.mount_point.as_str(), disk.fs_type.as_str(), disk.total_bytes) {
        return false;
    }
    let root = same_text(disk.mount_point.as_str(), "/");
    let mut j: usize = 0;
    while j < disks.len()
        invariant
            i < disks@.len(),
            j <= disks@.len(),
            table == views(disks@),
            disk@ == table[i as int],
            is_real(table[i as int]),
            root == at_root(table[i as int]),
            forall|k: int|
                0 <= k < j && #[trigger] compete(table, i as int, k) ==> outranks(
                    table,
                    i as int,
                    k,
                ),
        decreases disks@.len() - j,
    {
        let other = &disks[j];
        assert(table[j as int] == other@);
        if j != i && same_text(other.device.as_str(), disk.device.as_str())
            && is_real_filesystem(
            other.mount_point.as_str(),
            other.fs_type.as_str(),
            other.total_bytes,
        ) {
            assert(compete(table, i as int, j as int));
            let other_root = same_text(other.mount_point.as_str(), "/");
            let wins = if root == other_root {
                i < j
            } else {
                root
            };
            if !wins {
                return false;
            }
        }
        j = j + 1;
    }
    true
}

/// The mounts of this machine, as its mount table tells.
pub struct SysinfoSource;

impl SysinfoSource {
    pub fn new() -> (source: Self)
        ensures
            source == SysinfoSource,
    {
        SysinfoSource
    }

    /// The mounts to report when `disks` is the mount table. Volumes that the
    /// system keeps for itself are left out, and a device is reported once, by
    /// the root if it is on it. The order is the same every time, so
    /// that what is drawn from it does not jitter.
    pub fn sample(&self, disks: Vec<DiskReading>) -> (mounts: Result<Vec<Mount>, SampleError>)
        ensures
            mounts matches Ok(list) && is_mount_listing(views(list@), views(disks@)),
    {
        let ghost table = views(disks@);
        let mut list: Vec<Mount> = Vec::new();
        let mut origin: Ghost<Seq<int>> = Ghost(Seq::empty());
        assert(views(list@) =~= Seq::<MountView>::empty());
        let mut i: usize = 0;
        while i < disks.len()
            invariant
                i <= disks@.len(),
                table == views(disks@),
                is_sorted_from(views(list@), reported_among(table, i as nat), origin@),
            decreases disks@.len() - i,
        {
            if is_shown(&disks, i) {
                let disk = &disks[i];
                let mount = Mount {
                    mount_point: disk.mount_point.clone(),
                    device: disk.device.clone(),
                    fs_type: disk.fs_type.clone(),
                    usage: Usage {
                        used_bytes: disk.total_bytes.saturating_sub(disk.available_bytes),
                        free_bytes: disk.available_bytes,
                        total_bytes: disk.total_bytes,
                    },
                    largest_files: Vec::new(),
                    largest_files_scanned_at: None,
                };
                assert(mount@ =~= mount_of(table[i as int]));
                origin = insert_mount(
                    &mut list,
                    mount,
                    Ghost(reported_among(table, i as nat)),
                    origin,
                );
            }
            i = i + 1;
        }
        assert(is_sorted_from(views(list@), reported(table), origin@));
        Ok(list)
    }
}

/// A source that always tells the same mounts.
pub struct MockSource {
    mounts: Vec<Mount>,
}

impl MockSource {
    /// The mounts that the source tells.
    pub closed spec fn seeded(&self) -> Seq<MountView> {
        views(self.mounts@)
    }

    pub fn new(mounts: Vec<Mount>) -> (source: Self)
        ensures
            source.seeded() == views(mounts@),
    {
        MockSource { mounts }
    }
}

impl DiskSource for MockSource {
    fn sample(&self) -> (mounts: Result<Vec<Mount>, SampleError>)
        ensures
            mounts matches Ok(list) && views(list@) == self.seeded(),
    {
        let list = self.mounts.clone();
        assert(views(list@) =~= views(self.mounts@));
        Ok(list)
    }
}

/// `sysinfo::System::name`: what the system calls itself. Trusted for nothing
/// but that it returns; the name depends on the machine.
pub assume_specification[ sysinfo::System::name ]() -> (name: Option<String>);

/// `sysinfo::System::kernel_version`: the version of the running kernel.
/// Trusted for nothing but that it returns; the version depends on the machine.
pub assume_specification[ sysinfo::System::kernel_version ]() -> (version: Option<String>);

/// A kernel as it is described: its name and version, or the version alone
/// where there is no name; without a version there is nothing to tell.
pub open spec fn kernel_text(
    name: Option<Seq<char>>,
    version: Option<Seq<char>>,
) -> Option<Seq<char>> {
    match (name, version) {
        (Some(n), Some(v)) => Some(n + seq![' '] + v),
        (None, Some(v)) => Some(v),
        (_, None) => None,
    }
}

/// Describes the kernel with this name and version.
pub fn describe_kernel(name: Option<String>, version: Option<String>) -> (text: Option<String>)
    ensures
        option_view(text) == kernel_text(option_view(name), option_view(version)),
{
    match (name, version) {
        (Some(n), Some(v)) => {
            proof {
                reveal_strlit(" ");
            }
            let text = n.concat(" ").concat(v.as_str());
            assert(text@ =~= n@ + seq![' '] + v@);
            Some(text)
        },
        (None, Some(v)) => Some(v),
        (_, None) => None,
    }
}

/// "Darwin 25.3.0" or similar, of the machine this runs on.
pub fn read_kernel_version() -> (text: Option<String>)
    ensures
        exists|name: Option<String>, version: Option<String>|
            #[trigger] call_ensures(sysinfo::System::name, (), name) && #[trigger] call_ensures(
                sysinfo::System::kernel_version,
                (),
                version,
            ) && option_view(text) == kernel_text(option_view(name), option_view(version)),
{
    let version = sysinfo::System::kernel_version();
    let name = sysinfo::System::name();
    describe_kernel(name, version)
}

/// Whether `mount` is how one of `disks` is reported.
pub open spec fn is_reported_mount(mount: MountView, disks: Seq<DiskReadingView>) -> bool {
    exists|i: int|
        0 <= i < disks.len() && #[trigger] is_reported(disks, i) && mount == mount_of(disks[i])
}

/// Whether `mount` is a reported one of the first `n` disks.
spec fn is_reported_below(mount: MountView, disks: Seq<DiskReadingView>, n: nat) -> bool {
    exists|i: int| 0 <= i < n && #[trigger] is_reported(disks, i) && mount == mount_of(disks[i])
}

/// What is reported comes from real disks, and no device comes twice.
proof fn lemma_reported_among(disks: Seq<DiskReadingView>, n: nat)
    requires
        n <= disks.len(),
    ensures
        forall|k: int|
            0 <= k < reported_among(disks, n).len() ==> is_reported_below(
                #[trigger] reported_among(disks, n)[k],
                disks,
                n,
            ),
        forall|i: int|
            0 <= i < n && #[trigger] is_reported(disks, i) ==> reported_among(disks, n).contains(
                mount_of(disks[i]),
            ),
        forall|k: int, l: int|
            0 <= k < l < reported_among(disks, n).len() ==> #[trigger] reported_among(
                disks,
                n,
            )[k].device != #[trigger] reported_among(disks, n)[l].device,
    decreases n,
{
    if n > 0 {
        let last = n - 1;
        let before = reported_among(disks, last as nat);
        let after = reported_among(disks, n);
        lemma_reported_among(disks, last as nat);
        if is_reported(disks, last) {
            assert(after[before.len() as int] == mount_of(disks[last]));
            assert forall|i: int| 0 <= i < n && #[trigger] is_reported(
                disks,
                i,
            ) implies after.contains(mount_of(disks[i])) by {
                if i < last {
                    let k = choose|k: int| 0 <= k < before.len() && before[k] == mount_of(disks[i]);
                    assert(after[k] == before[k]);
                }
            }
            assert forall|k: int| 0 <= k < after.len() implies is_reported_below(
                #[trigger] after[k],
                disks,
                n,
            ) by {
                if k < before.len() {
                    assert(after[k] == before[k]);
                    assert(is_reported_below(before[k], disks, last as nat));
                }
            }
            assert forall|k: int, l: int| 0 <= k < l < after.len() implies #[trigger] after[k].device
                != #[trigger] after[l].device by {
                if l < before.len() {
                    assert(before[k].device != before[l].device);
                } else {
                    assert(is_reported_below(before[k], disks, last as nat));
                    let i = choose|i: int|
                        0 <= i < last && #[trigger] is_reported(disks, i) && before[k]
                            == mount_of(disks[i]);
                    if disks[i].device == disks[last].device {
                        assert(compete(disks, i, last));
                        assert(compete(disks, last, i));
                    }
                }
            }
        }
    }
}

/// What is reported of the whole table.
proof fn lemma_reported(disks: Seq<DiskReadingView>)
    ensures
        forall|k: int|
            0 <= k < reported(disks).len() ==> is_reported_mount(
                #[trigger] reported(disks)[k],
                disks,
            ),
        forall|i: int|
            0 <= i < disks.len() && #[trigger] is_reported(disks, i) ==> reported(disks).contains(
                mount_of(disks[i]),
            ),
        forall|k: int, l: int|
            0 <= k < l < reported(disks).len() ==> #[trigger] reported(disks)[k].device
                != #[trigger] reported(disks)[l].device,
{
    lemma_reported_among(disks, disks.len());
    assert forall|k: int| 0 <= k < reported(disks).len() implies is_reported_mount(
        #[trigger] reported(disks)[k],
        disks,
    ) by {
        assert(is_reported_below(reported_among(disks, disks.len())[k], disks, disks.len()));
    }
}

/// Some disk stands for the device of a real one.
proof fn lemma_device_is_reported(disks: Seq<DiskReadingView>, i: int) -> (k: int)
    requires
        0 <= i < disks.len(),
        is_real(disks[i]),
    ensures
        0 <= k < disks.len(),
        is_reported(disks, k),
        disks[k].device == disks[i].device,
        at_root(disks[i]) ==> at_root(disks[k]),
    decreases (if at_root(disks[i]) { 0int } else { 1int }), i,
{
    if is_reported(disks, i) {
        i
    } else {
        let j = choose|j: int|
            0 <= j < disks.len() && #[trigger] compete(disks, i, j) && !outranks(disks, i, j);
        lemma_device_is_reported(disks, j)
    }
}

/// Numbers below `n` that are all different, and `n` of them, are all the
/// numbers below `n`.
proof fn lemma_every_number_occurs(s: Seq<int>, n: nat, x: int)
    requires
        s.len() == n,
        s.no_duplicates(),
        forall|i: int| 0 <= i < n ==> 0 <= #[trigger] s[i] < n,
        0 <= x < n,
    ensures
        s.contains(x),
{
    let all = vstd::set_lib::set_int_range(0, n as int);
    vstd::set_lib::lemma_int_range(0, n as int);
    s.unique_seq_to_set();
    assert(s.to_set().subset_of(all));
    vstd::set_lib::lemma_subset_equality(s.to_set(), all);
    assert(s.to_set().contains(x));
}

/// A listing reports exactly the real disks, each device once: every entry is a
/// disk that is to be reported, and every disk that is to be reported has an
/// entry.
pub proof fn law_listing_is_complete(list: Seq<MountView>, disks: Seq<DiskReadingView>)
    requires
        is_mount_listing(list, disks),
    ensures
        forall|k: int|
            0 <= k < list.len() ==> is_reported_mount(#[trigger] list[k], disks),
        forall|i: int|
            0 <= i < disks.len() && #[trigger] is_reported(disks, i) ==> list.contains(
                mount_of(disks[i]),
            ),
{
    let mounts = reported(disks);
    let origin = choose|origin: Seq<int>| is_sorted_from(list, mounts, origin);
    lemma_reported(disks);
    assert forall|k: int| 0 <= k < list.len() implies is_reported_mount(
        #[trigger] list[k],
        disks,
    ) by {
        assert(list[k] == mounts[origin[k]]);
    }
    assert forall|i: int| 0 <= i < disks.len() && #[trigger] is_reported(disks, i) implies list.contains(
        mount_of(disks[i]),
    ) by {
        let m = choose|m: int| 0 <= m < mounts.len() && mounts[m] == mount_of(disks[i]);
        lemma_every_number_occurs(origin, mounts.len(), m);
        let k = choose|k: int| 0 <= k < origin.len() && origin[k] == m;
        assert(list[k] == mounts[origin[k]]);
    }
}

/// No device is listed twice.
pub proof fn law_devices_are_distinct(
    list: Seq<MountView>,
    disks: Seq<DiskReadingView>,
    i: int,
    j: int,
)
    requires
        is_mount_listing(list, disks),
        0 <= i < j < list.len(),
    ensures
        list[i].device != list[j].device,
{
    let mounts = reported(disks);
    let origin = choose|origin: Seq<int>| is_sorted_from(list, mounts, origin);
    lemma_reported(disks);
    let (a, b) = (origin[i], origin[j]);
    assert(list[i] == mounts[a] && list[j] == mounts[b]);
    assert(a != b);
    if a < b {
        assert(mounts[a].device != mounts[b].device);
    } else {
        assert(mounts[b].device != mounts[a].device);
    }
}

/// If the root is listed, it stands first; the mounts after it stand in
/// alphabetical order.
pub proof fn law_root_stands_first(list: Seq<MountView>, disks: Seq<DiskReadingView>)
    requires
        is_mount_listing(list, disks),
    ensures
        forall|i: int|
            0 <= i < list.len() && #[trigger] list[i].mount_point == "/"@ ==> list[0].mount_point
                == "/"@,
        forall|i: int, j: int|
            0 <= i < j < list.len() && list[j].mount_point != "/"@ && list[i].mount_point != "/"@
                ==> !text_before(#[trigger] list[j].mount_point, #[trigger] list[i].mount_point),
{
    let origin = choose|origin: Seq<int>| is_sorted_from(list, reported(disks), origin);
    assert forall|i: int|
        0 <= i < list.len() && #[trigger] list[i].mount_point == "/"@ implies list[0].mount_point
        == "/"@ by {
        if i > 0 {
            assert(!sorts_before(list[i].mount_point, list[0].mount_point));
        }
    }
    assert forall|i: int, j: int|
        0 <= i < j < list.len() && list[j].mount_point != "/"@ && list[i].mount_point
            != "/"@ implies !text_before(
        #[trigger] list[j].mount_point,
        #[trigger] list[i].mount_point,
    ) by {
        assert(!sorts_before(list[j].mount_point, list[i].mount_point));
    }
}

/// Whether the mount at `a` stands before the one at `b` in a listing.
spec fn precedes(mounts: Seq<MountView>, a: int, b: int) -> bool {
    sorts_before(mounts[a].mount_point, mounts[b].mount_point) || (mounts[a].mount_point
        == mounts[b].mount_point && a < b)
}

/// The origins of a listing follow one another.
proof fn lemma_origins_follow(
    list: Seq<MountView>,
    mounts: Seq<MountView>,
    origin: Seq<int>,
    i: int,
    j: int,
)
    requires
        is_sorted_from(list, mounts, origin),
        0 <= i < j < list.len(),
        forall|a: int, b: int|
            0 <= a < b < mounts.len() ==> #[trigger] mounts[a].mount_point != "/"@
                || #[trigger] mounts[b].mount_point != "/"@,
    ensures
        precedes(mounts, origin[i], origin[j]),
        !precedes(mounts, origin[j], origin[i]),
{
    let (a, b) = (origin[i], origin[j]);
    assert(list[i] == mounts[a] && list[j] == mounts[b]);
    assert(a != b);
    lemma_sort_order(mounts[a].mount_point, mounts[b].mount_point);
    assert(!sorts_before(list[j].mount_point, list[i].mount_point));
    if mounts[a].mount_point == mounts[b].mount_point {
        if mounts[a].mount_point == "/"@ {
            if a < b {
                assert(mounts[a].mount_point != "/"@ || mounts[b].mount_point != "/"@);
            } else {
                assert(mounts[b].mount_point != "/"@ || mounts[a].mount_point != "/"@);
            }
        }
        assert(origin[i] < origin[j]);
    }
}

/// One mount table has one listing, so what is drawn from it does not jitter.
/// Left out are tables with several mounts at the root, whose order is open.
pub proof fn law_listing_is_deterministic(
    first: Seq<MountView>,
    second: Seq<MountView>,
    disks: Seq<DiskReadingView>,
)
    requires
        is_mount_listing(first, disks),
        is_mount_listing(second, disks),
        forall|a: int, b: int|
            0 <= a < b < reported(disks).len() ==> #[trigger] reported(disks)[a].mount_point
                != "/"@ || #[trigger] reported(disks)[b].mount_point != "/"@,
    ensures
        first == second,
{
    let mounts = reported(disks);
    let p = choose|origin: Seq<int>| is_sorted_from(first, mounts, origin);
    let q = choose|origin: Seq<int>| is_sorted_from(second, mounts, origin);
    lemma_same_origins(first, second, mounts, p, q, mounts.len() as int);
    assert forall|i: int| 0 <= i < first.len() implies first[i] == second[i] by {
        assert(p[i] == q[i]);
        assert(first[i] == mounts[p[i]] && second[i] == mounts[q[i]]);
    }
    assert(first =~= second);
}

/// Two listings of the same mounts agree on their first `n` places.
proof fn lemma_same_origins(
    first: Seq<MountView>,
    second: Seq<MountView>,
    mounts: Seq<MountView>,
    p: Seq<int>,
    q: Seq<int>,
    n: int,
)
    requires
        is_sorted_from(first, mounts, p),
        is_sorted_from(second, mounts, q),
        forall|a: int, b: int|
            0 <= a < b < mounts.len() ==> #[trigger] mounts[a].mount_point != "/"@
                || #[trigger] mounts[b].mount_point != "/"@,
        0 <= n <= mounts.len(),
    ensures
        forall|i: int| 0 <= i < n ==> #[trigger] p[i] == q[i],
    decreases n,
{
    if n > 0 {
        let i = n - 1;
        lemma_same_origins(first, second, mounts, p, q, i);
        if p[i] != q[i] {
            lemma_every_number_occurs(q, mounts.len(), p[i]);
            lemma_every_number_occurs(p, mounts.len(), q[i]);
            let j = choose|j: int| 0 <= j < q.len() && q[j] == p[i];
            let k = choose|k: int| 0 <= k < p.len() && p[k] == q[i];
            if j < i {
                assert(p[j] == q[j]);
                assert(false);
            }
            if k < i {
                assert(p[k] == q[k]);
                assert(false);
            }
            lemma_origins_follow(second, mounts, q, i, j);
            lemma_origins_follow(first, mounts, p, i, k);
        }
    }
}

/// What is in use never exceeds what there is, and where no more is available
/// than there is, used and free bytes make up the whole.
pub proof fn law_usage_adds_up(disk: DiskReadingView)
    ensures
        mount_of(disk).usage.used_bytes <= mount_of(disk).usage.total_bytes,
        disk.available_bytes <= disk.total_bytes ==> mount_of(disk).usage.used_bytes + mount_of(
            disk,
        ).usage.free_bytes == mount_of(disk).usage.total_bytes,
{
}

/// Every device with a real disk is listed, and where the root is on it, the
/// root stands for it: the usage that is shown is that of the root.
pub proof fn law_root_stands_for_its_device(
    list: Seq<MountView>,
    disks: Seq<DiskReadingView>,
    i: int,
)
    requires
        is_mount_listing(list, disks),
        0 <= i < disks.len(),
        is_real(disks[i]),
    ensures
        exists|k: int| 0 <= k < list.len() && (#[trigger] list[k]).device == disks[i].device,
        at_root(disks[i]) ==> forall|k: int|
            0 <= k < list.len() && (#[trigger] list[k]).device == disks[i].device
                ==> list[k].mount_point == "/"@,
{
    law_listing_is_complete(list, disks);
    let r = lemma_device_is_reported(disks, i);
    assert(list.contains(mount_of(disks[r])));
    let k = choose|k: int| 0 <= k < list.len() && list[k] == mount_of(disks[r]);
    assert(list[k].device == disks[i].device);
    assert forall|l: int|
        at_root(disks[i]) && 0 <= l < list.len() && (#[trigger] list[l]).device
            == disks[i].device implies list[l].mount_point == "/"@ by {
        if l < k {
            law_devices_are_distinct(list, disks, l, k);
        } else if k < l {
            law_devices_are_distinct(list, disks, k, l);
        }
    }
}

/// Whether the order of the table decides nothing: wherever only the order
/// could tell which of several disks stands for a device, they read alike, and
/// no two mounts that are reported have one mount point.
pub open spec fn order_is_immaterial(disks: Seq<DiskReadingView>) -> bool {
    &&& forall|x: DiskReadingView, y: DiskReadingView|
        #[trigger] disks.contains(x) && #[trigger] disks.contains(y) && only_order_decides(
            disks,
            x,
            y,
        ) ==> x == y
    &&& forall|k: int, l: int|
        0 <= k < l < reported(disks).len() ==> #[trigger] reported(disks)[k].mount_point
            != #[trigger] reported(disks)[l].mount_point
}

/// Whether `x` and `y` are real disks on one device, both at the root, or both
/// elsewhere while the root is not on that device.
pub open spec fn only_order_decides(
    disks: Seq<DiskReadingView>,
    x: DiskReadingView,
    y: DiskReadingView,
) -> bool {
    &&& is_real(x)
    &&& is_real(y)
    &&& x.device == y.device
    &&& at_root(x) == at_root(y)
    &&& at_root(x) || !(exists|z: DiskReadingView|
        #[trigger] disks.contains(z) && is_real(z) && z.device == x.device && at_root(z))
}

/// What is reported of a table is reported of any other with the same disks.
proof fn lemma_reported_of_permuted(
    disks: Seq<DiskReadingView>,
    other: Seq<DiskReadingView>,
    i: int,
)
    requires
        order_is_immaterial(disks),
        forall|x: DiskReadingView| #[trigger] disks.contains(x) <==> other.contains(x),
        0 <= i < disks.len(),
        is_reported(disks, i),
    ensures
        reported(other).contains(mount_of(disks[i])),
{
    let x = disks[i];
    assert(disks.contains(x));
    assert(other.contains(x));
    let k = choose|k: int| 0 <= k < other.len() && other[k] == x;
    let r = lemma_device_is_reported(other, k);
    let y = other[r];
    assert(other.contains(y));
    assert(disks.contains(y));
    let j = choose|j: int| 0 <= j < disks.len() && disks[j] == y;
    if j != i {
        assert(compete(disks, i, j));
    }
    if !at_root(x) && exists|z: DiskReadingView|
        #[trigger] disks.contains(z) && is_real(z) && z.device == x.device && at_root(z) {
        let z = choose|z: DiskReadingView|
            #[trigger] disks.contains(z) && is_real(z) && z.device == x.device && at_root(z);
        let m = choose|m: int| 0 <= m < disks.len() && disks[m] == z;
        assert(compete(disks, i, m));
    }
    assert(only_order_decides(disks, x, y));
    lemma_reported(other);
}

/// Mounts that stand in order and all at different mount points follow strictly
/// upon one another.
spec fn strictly_sorted(list: Seq<MountView>) -> bool {
    forall|i: int, j: int|
        0 <= i < j < list.len() ==> sorts_before(
            #[trigger] list[i].mount_point,
            #[trigger] list[j].mount_point,
        )
}

/// A listing holds what is reported, strictly sorted if no mount point occurs
/// twice.
proof fn lemma_listing_of_distinct(list: Seq<MountView>, disks: Seq<DiskReadingView>)
    requires
        is_mount_listing(list, disks),
        forall|k: int, l: int|
            0 <= k < l < reported(disks).len() ==> #[trigger] reported(disks)[k].mount_point
                != #[trigger] reported(disks)[l].mount_point,
    ensures
        strictly_sorted(list),
        forall|m: MountView| #[trigger] list.contains(m) <==> reported(disks).contains(m),
{
    let mounts = reported(disks);
    let origin = choose|origin: Seq<int>| is_sorted_from(list, mounts, origin);
    assert forall|i: int, j: int| 0 <= i < j < list.len() implies sorts_before(
        #[trigger] list[i].mount_point,
        #[trigger] list[j].mount_point,
    ) by {
        let (a, b) = (origin[i], origin[j]);
        assert(a != b);
        assert(list[i] == mounts[a] && list[j] == mounts[b]);
        if a < b {
            assert(mounts[a].mount_point != mounts[b].mount_point);
        } else {
            assert(mounts[b].mount_point != mounts[a].mount_point);
        }
        assert(!sorts_before(list[j].mount_point, list[i].mount_point));
        lemma_sort_order(list[i].mount_point, list[j].mount_point);
    }
    assert forall|m: MountView| #[trigger] list.contains(m) <==> mounts.contains(m) by {
        if list.contains(m) {
            let i = choose|i: int| 0 <= i < list.len() && list[i] == m;
            assert(mounts[origin[i]] == m);
        }
        if mounts.contains(m) {
            let a = choose|a: int| 0 <= a < mounts.len() && mounts[a] == m;
            lemma_every_number_occurs(origin, mounts.len(), a);
            let i = choose|i: int| 0 <= i < origin.len() && origin[i] == a;
            assert(list[i] == mounts[origin[i]]);
        }
    }
}

/// Two strictly sorted lists of the same mounts agree on their first `n` places.
proof fn lemma_sorted_lists_agree(first: Seq<MountView>, second: Seq<MountView>, n: int)
    requires
        strictly_sorted(first),
        strictly_sorted(second),
        forall|m: MountView| #[trigger] first.contains(m) <==> second.contains(m),
        0 <= n <= first.len(),
    ensures
        n <= second.len(),
        forall|i: int| 0 <= i < n ==> #[trigger] first[i] == second[i],
    decreases n,
{
    if n > 0 {
        let i = n - 1;
        lemma_sorted_lists_agree(first, second, i);
        assert(first.contains(first[i]));
        let j = choose|j: int| 0 <= j < second.len() && second[j] == first[i];
        if j < i {
            assert(first[j] == second[j]);
            lemma_sort_order(first[i].mount_point, first[i].mount_point);
            assert(sorts_before(first[j].mount_point, first[i].mount_point));
        }
        if first[i] != second[i] {
            assert(second.contains(second[i]) && first.contains(second[i]));
            let k = choose|k: int| 0 <= k < first.len() && first[k] == second[i];
            if k < i {
                assert(first[k] == second[k]);
                lemma_sort_order(second[i].mount_point, second[i].mount_point);
                assert(sorts_before(second[k].mount_point, second[i].mount_point));
            }
            assert(sorts_before(second[i].mount_point, second[j].mount_point));
            assert(sorts_before(first[i].mount_point, first[k].mount_point));
            lemma_sort_order(first[i].mount_point, second[i].mount_point);
        }
    }
}

/// The order in which the kernel tells its mounts does not change the listing,
/// wherever it decides nothing.
pub proof fn law_permuted_table_has_the_same_listing(
    first: Seq<MountView>,
    disks: Seq<DiskReadingView>,
    second: Seq<MountView>,
    other: Seq<DiskReadingView>,
)
    requires
        is_mount_listing(first, disks),
        is_mount_listing(second, other),
        disks.to_multiset() == other.to_multiset(),
        order_is_immaterial(disks),
    ensures
        first == second,
{
    assert forall|x: DiskReadingView| #[trigger] disks.contains(x) <==> other.contains(x) by {
        vstd::seq_lib::to_multiset_contains(disks, x);
        vstd::seq_lib::to_multiset_contains(other, x);
    }
    let (here, there) = (reported(disks), reported(other));
    lemma_reported(disks);
    lemma_reported(other);
    assert forall|m: MountView| here.contains(m) implies there.contains(m) by {
        let k = choose|k: int| 0 <= k < here.len() && here[k] == m;
        assert(is_reported_mount(here[k], disks));
        let i = choose|i: int|
            0 <= i < disks.len() && #[trigger] is_reported(disks, i) && m == mount_of(disks[i]);
        lemma_reported_of_permuted(disks, other, i);
    }
    assert forall|m: MountView| there.contains(m) implies here.contains(m) by {
        let k = choose|k: int| 0 <= k < there.len() && there[k] == m;
        assert(is_reported_mount(there[k], other));
        let i = choose|i: int|
            0 <= i < other.len() && #[trigger] is_reported(other, i) && m == mount_of(other[i]);
        assert(other.contains(other[i]) && disks.contains(other[i]));
        let j = choose|j: int| 0 <= j < disks.len() && disks[j] == other[i];
        let r = lemma_device_is_reported(disks, j);
        lemma_reported_of_permuted(disks, other, r);
        let l = choose|l: int| 0 <= l < there.len() && there[l] == mount_of(disks[r]);
        if l < k {
            assert(there[l].device != there[k].device);
        } else if k < l {
            assert(there[k].device != there[l].device);
        }
    }
    assert forall|k: int, l: int| 0 <= k < l < there.len() implies #[trigger] there[k].mount_point
        != #[trigger] there[l].mount_point by {
        assert(there.contains(there[k]) && there.contains(there[l]));
        let a = choose|a: int| 0 <= a < here.len() && here[a] == there[k];
        let b = choose|b: int| 0 <= b < here.len() && here[b] == there[l];
        assert(there[k].device != there[l].device);
        if a < b {
            assert(here[a].mount_point != here[b].mount_point);
        } else {
            assert(here[b].mount_point != here[a].mount_point);
        }
    }
    lemma_listing_of_distinct(first, disks);
    lemma_listing_of_distinct(second, other);
    assert forall|m: MountView| #[trigger] first.contains(m) <==> second.contains(m) by {
        assert(here.contains(m) <==> there.contains(m));
    }
    lemma_sorted_lists_agree(first, second, first.len() as int);
    lemma_sorted_lists_agree(second, first, second.len() as int);
    assert(first =~= second);
}

/// A filesystem is real if it has room, its type is none of six, whatever the
/// case of its letters, and it is mounted neither at one of eight places of the
/// system nor below one.
pub proof fn law_which_filesystems_are_real(
    mount_point: &str,
    fs_type: &str,
    total_bytes: u64,
    shown: bool,
)
    requires
        call_ensures(is_real_filesystem, (mount_point, fs_type, total_bytes), shown),
    ensures
        ({
            let of_type = |name: Seq<char>| same_ignoring_case(fs_type@, name);
            let within = |place: Seq<char>| mount_point@ == place || mount_point@.len()
                > place.len() && mount_point@[place.len() as int] == '/' && mount_point@.take(
                place.len() as int,
            ) == place;
            shown <==> {
                &&& total_bytes > 0
                &&& !of_type("devfs"@)
                &&& !of_type("autofs"@)
                &&& !of_type("ctl"@)
                &&& !of_type("fdesc"@)
                &&& !of_type("tmpfs"@)
                &&& !of_type("msdos"@)
                &&& !within("/System/Volumes/Preboot"@)
                &&& !within("/System/Volumes/VM"@)
                &&& !within("/System/Volumes/Update"@)
                &&& !within("/System/Volumes/iSCPreboot"@)
                &&& !within("/System/Volumes/xarts"@)
                &&& !within("/System/Volumes/Hardware"@)
                &&& !within("/System/Volumes/Recovery"@)
                &&& !within("/private/var/vm"@)
            }
        }),
        shown == real_filesystem(mount_point@, fs_type@, total_bytes),
{
    let types = pseudo_fs();
    assert(types[0] == "devfs"@ && types[1] == "autofs"@ && types[2] == "ctl"@ && types[3]
        == "fdesc"@ && types[4] == "tmpfs"@ && types[5] == "msdos"@);
    let places = hidden_mount_prefixes();
    assert(places[0] == "/System/Volumes/Preboot"@);
    assert(places[1] == "/System/Volumes/VM"@);
    assert(places[2] == "/System/Volumes/Update"@);
    assert(places[3] == "/System/Volumes/iSCPreboot"@);
    assert(places[4] == "/System/Volumes/xarts"@);
    assert(places[5] == "/System/Volumes/Hardware"@);
    assert(places[6] == "/System/Volumes/Recovery"@);
    assert(places[7] == "/private/var/vm"@);
    assert forall|i: int| 0 <= i < places.len() implies at_or_below(
        mount_point@,
        #[trigger] places[i],
    ) == (mount_point@ == places[i] || mount_point@.len() > places[i].len()
        && mount_point@[places[i].len() as int] == '/' && mount_point@.take(
        places[i].len() as int,
    ) == places[i]) by {
        lemma_below(mount_point@, places[i]);
    }
}

/// What lies below a place goes on with a slash.
proof fn lemma_below(mount_point: Seq<char>, place: Seq<char>)
    ensures
        begins_with(mount_point, place.push('/')) <==> mount_point.len() > place.len()
            && mount_point[place.len() as int] == '/' && mount_point.take(place.len() as int)
            == place,
{
    let n = place.len() as int;
    let front = place.push('/');
    if begins_with(mount_point, front) {
        assert forall|i: int| 0 <= i < n + 1 implies mount_point[i] == front[i] by {
            assert(mount_point.take(n + 1)[i] == front[i]);
        }
        assert(mount_point.take(n) =~= place);
    }
    if mount_point.len() > n && mount_point[n] == '/' && mount_point.take(n) == place {
        assert forall|i: int| 0 <= i < n implies mount_point[i] == place[i] by {
            assert(mount_point.take(n)[i] == place[i]);
        }
        assert(mount_point.take(n + 1) =~= front);
    }
}

/// Every mount that is listed is a real disk of the table: at its mount point,
/// with its device and type, with its total bytes, with the available bytes as
/// the free ones, and with the rest as the used ones. Nothing is known of its
/// files yet.
pub proof fn law_listed_mounts_are_disks_of_the_table(
    source: &SysinfoSource,
    disks: Vec<DiskReading>,
    mounts: Result<Vec<Mount>, SampleError>,
)
    requires
        call_ensures(SysinfoSource::sample, (source, disks), mounts),
    ensures
        mounts is Ok,
        forall|i: int|
            0 <= i < mounts.unwrap()@.len() ==> exists|k: int|
                0 <= k < disks@.len() && ({
                    let (mount, disk) = (#[trigger] mounts.unwrap()@[i], #[trigger] disks@[k]);
                    &&& real_filesystem(disk.mount_point@, disk.fs_type@, disk.total_bytes)
                    &&& mount.mount_point@ == disk.mount_point@
                    &&& mount.device@ == disk.device@
                    &&& mount.fs_type@ == disk.fs_type@
                    &&& mount.usage.total_bytes == disk.total_bytes
                    &&& mount.usage.free_bytes == disk.available_bytes
                    &&& disk.available_bytes <= disk.total_bytes ==> mount.usage.used_bytes
                        + disk.available_bytes == disk.total_bytes
                    &&& disk.available_bytes > disk.total_bytes ==> mount.usage.used_bytes == 0
                    &&& mount.largest_files@.len() == 0
                    &&& mount.largest_files_scanned_at is None
                }),
{
    let list = mounts.unwrap();
    let (shown, table) = (views(list@), views(disks@));
    assert(shown.len() == list@.len() && table.len() == disks@.len());
    law_listing_is_complete(shown, table);
    assert forall|i: int| 0 <= i < list@.len() implies exists|k: int|
        0 <= k < disks@.len() && ({
            let (mount, disk) = (#[trigger] list@[i], #[trigger] disks@[k]);
            &&& real_filesystem(disk.mount_point@, disk.fs_type@, disk.total_bytes)
            &&& mount.mount_point@ == disk.mount_point@
            &&& mount.device@ == disk.device@
            &&& mount.fs_type@ == disk.fs_type@
            &&& mount.usage.total_bytes == disk.total_bytes
            &&& mount.usage.free_bytes == disk.available_bytes
            &&& disk.available_bytes <= disk.total_bytes ==> mount.usage.used_bytes
                + disk.available_bytes == disk.total_bytes
            &&& disk.available_bytes > disk.total_bytes ==> mount.usage.used_bytes == 0
            &&& mount.largest_files@.len() == 0
            &&& mount.largest_files_scanned_at is None
        }) by {
        assert(shown[i] == list@[i]@);
        assert(is_reported_mount(shown[i], table));
        let k = choose|k: int|
            0 <= k < table.len() && #[trigger] is_reported(table, k) && shown[i] == mount_of(
                table[k],
            );
        assert(table[k] == disks@[k]@);
        assert(views(list@[i].largest_files@).len() == list@[i].largest_files@.len());
    }
}

/// The device of every real disk is listed, and listed once. Where the root is
/// a real disk on it, the root is what is listed.
pub proof fn law_every_device_is_listed_once(
    source: &SysinfoSource,
    disks: Vec<DiskReading>,
    mounts: Result<Vec<Mount>, SampleError>,
    k: int,
)
    requires
        call_ensures(SysinfoSource::sample, (source, disks), mounts),
        0 <= k < disks@.len(),
        real_filesystem(disks@[k].mount_point@, disks@[k].fs_type@, disks@[k].total_bytes),
    ensures
        exists|i: int|
            0 <= i < mounts.unwrap()@.len() && (#[trigger] mounts.unwrap()@[i]).device@
                == disks@[k].device@,
        forall|i: int, j: int|
            0 <= i < j < mounts.unwrap()@.len() ==> (#[trigger] mounts.unwrap()@[i]).device@ != (
            #[trigger] mounts.unwrap()@[j]).device@,
        forall|i: int|
            0 <= i < mounts.unwrap()@.len() && (#[trigger] mounts.unwrap()@[i]).device@
                == disks@[k].device@ && disks@[k].mount_point@ == "/"@
                ==> mounts.unwrap()@[i].mount_point@ == "/"@,
{
    let list = mounts.unwrap();
    let (shown, table) = (views(list@), views(disks@));
    assert(shown.len() == list@.len() && table.len() == disks@.len());
    assert(table[k] == disks@[k]@);
    law_root_stands_for_its_device(shown, table, k);
    let i = choose|i: int| 0 <= i < shown.len() && (#[trigger] shown[i]).device == table[k].device;
    assert(shown[i] == list@[i]@);
    assert forall|i: int, j: int| 0 <= i < j < list@.len() implies (#[trigger] list@[i]).device@
        != (#[trigger] list@[j]).device@ by {
        law_devices_are_distinct(shown, table, i, j);
        assert(shown[i] == list@[i]@ && shown[j] == list@[j]@);
    }
    assert forall|i: int|
        0 <= i < list@.len() && (#[trigger] list@[i]).device@ == disks@[k].device@
            && disks@[k].mount_point@ == "/"@ implies list@[i].mount_point@ == "/"@ by {
        assert(shown[i] == list@[i]@);
    }
}

/// Of the real disks on one device the one at the root is listed, and where none
/// is at the root, or more than one, the first of those that are left.
pub proof fn law_which_disk_is_listed(
    source: &SysinfoSource,
    disks: Vec<DiskReading>,
    mounts: Result<Vec<Mount>, SampleError>,
    k: int,
)
    requires
        call_ensures(SysinfoSource::sample, (source, disks), mounts),
        0 <= k < disks@.len(),
        real_filesystem(disks@[k].mount_point@, disks@[k].fs_type@, disks@[k].total_bytes),
        forall|j: int|
            0 <= j < disks@.len() && j != k && real_filesystem(
                (#[trigger] disks@[j]).mount_point@,
                disks@[j].fs_type@,
                disks@[j].total_bytes,
            ) && disks@[j].device@ == disks@[k].device@ ==> {
                let (here, there) = (disks@[k].mount_point@ == "/"@, disks@[j].mount_point@ == "/"@);
                here && !there || here == there && k < j
            },
    ensures
        exists|i: int|
            0 <= i < mounts.unwrap()@.len() && ({
                let mount = #[trigger] mounts.unwrap()@[i];
                &&& mount.mount_point@ == disks@[k].mount_point@
                &&& mount.device@ == disks@[k].device@
                &&& mount.fs_type@ == disks@[k].fs_type@
                &&& mount.usage.total_bytes == disks@[k].total_bytes
                &&& mount.usage.free_bytes == disks@[k].available_bytes
            }),
{
    let list = mounts.unwrap();
    let (shown, table) = (views(list@), views(disks@));
    assert(shown.len() == list@.len() && table.len() == disks@.len());
    assert(table[k] == disks@[k]@);
    assert forall|j: int| 0 <= j < table.len() && #[trigger] compete(table, k, j) implies outranks(
        table,
        k,
        j,
    ) by {
        assert(table[j] == disks@[j]@);
    }
    assert(is_reported(table, k));
    law_listing_is_complete(shown, table);
    let i = choose|i: int| 0 <= i < shown.len() && shown[i] == mount_of(table[k]);
    assert(shown[i] == list@[i]@);
}

/// The root stands before the others. Those stand in the order of their mount
/// points: of two different ones the first is a proper front of the second, or
/// has the smaller code point at the first place where they differ.
pub proof fn law_mounts_stand_in_order(
    source: &SysinfoSource,
    disks: Vec<DiskReading>,
    mounts: Result<Vec<Mount>, SampleError>,
    i: int,
    j: int,
)
    requires
        call_ensures(SysinfoSource::sample, (source, disks), mounts),
        0 <= i < j < mounts.unwrap()@.len(),
    ensures
        ({
            let (a, b) = (
                mounts.unwrap()@[i].mount_point@,
                mounts.unwrap()@[j].mount_point@,
            );
            &&& b == "/"@ ==> a == "/"@
            &&& a == b || a == "/"@ || exists|k: int|
                0 <= k <= a.len() && k < b.len() && #[trigger] a.take(k) == b.take(k) && (k
                    == a.len() || (a[k] as u32) < (b[k] as u32))
        }),
{
    let list = mounts.unwrap();
    let (shown, table) = (views(list@), views(disks@));
    assert(shown.len() == list@.len());
    assert(shown[i] == list@[i]@ && shown[j] == list@[j]@);
    let origin = choose|origin: Seq<int>| is_sorted_from(shown, reported(table), origin);
    let (a, b) = (shown[i].mount_point, shown[j].mount_point);
    assert(!sorts_before(b, a));
    lemma_text_order(a, b);
    law_first_different_character_decides(a, b);
}

/// What is reported stands in the order of the table.
proof fn lemma_reported_in_order(
    disks: Seq<DiskReadingView>,
    n: nat,
    p: int,
    q: int,
    a: int,
    b: int,
)
    requires
        n <= disks.len(),
        0 <= p < q < reported_among(disks, n).len(),
        0 <= a < disks.len(),
        0 <= b < disks.len(),
        is_reported(disks, a),
        is_reported(disks, b),
        reported_among(disks, n)[p].device == disks[a].device,
        reported_among(disks, n)[q].device == disks[b].device,
    ensures
        a < b,
    decreases n,
{
    let before = reported_among(disks, (n - 1) as nat);
    let after = reported_among(disks, n);
    let last = n - 1;
    lemma_reported_among(disks, n);
    if is_reported(disks, last) && q == before.len() {
        if b != last {
            assert(compete(disks, b, last) && compete(disks, last, b));
        }
        assert(is_reported_below(after[p], disks, n));
        let k = choose|k: int|
            0 <= k < n && #[trigger] is_reported(disks, k) && after[p] == mount_of(disks[k]);
        if a != k {
            assert(compete(disks, a, k) && compete(disks, k, a));
        }
        assert(after[p].device != after[q].device);
    } else {
        lemma_reported_in_order(disks, (n - 1) as nat, p, q, a, b);
    }
}

/// Mounts with one mount point, other than the root, stand in the order in
/// which the table has their disks.
pub proof fn law_equal_mount_points_keep_their_order(
    source: &SysinfoSource,
    disks: Vec<DiskReading>,
    mounts: Result<Vec<Mount>, SampleError>,
    i: int,
    j: int,
    a: int,
    b: int,
)
    requires
        call_ensures(SysinfoSource::sample, (source, disks), mounts),
        0 <= i < j < mounts.unwrap()@.len(),
        mounts.unwrap()@[i].mount_point@ == mounts.unwrap()@[j].mount_point@,
        mounts.unwrap()@[i].mount_point@ != "/"@,
        0 <= a < disks@.len(),
        0 <= b < disks@.len(),
        is_reported(views(disks@), a),
        is_reported(views(disks@), b),
        mounts.unwrap()@[i].device@ == disks@[a].device@,
        mounts.unwrap()@[j].device@ == disks@[b].device@,
    ensures
        a < b,
{
    let list = mounts.unwrap();
    let (shown, table) = (views(list@), views(disks@));
    let all = reported(table);
    assert(shown.len() == list@.len() && table.len() == disks@.len());
    assert(shown[i] == list@[i]@ && shown[j] == list@[j]@);
    assert(table[a] == disks@[a]@ && table[b] == disks@[b]@);
    let origin = choose|origin: Seq<int>| is_sorted_from(shown, all, origin);
    let (p, q) = (origin[i], origin[j]);
    assert(shown[i] == all[p] && shown[j] == all[q]);
    assert(p < q);
    lemma_reported_in_order(table, table.len(), p, q, a, b);
}

/// A reading of a disk is seen whole.
pub proof fn law_readings_are_seen_whole(disk: DiskReading)
    ensures
        disk@.mount_point == disk.mount_point@,
        disk@.device == disk.device@,
        disk@.fs_type == disk.fs_type@,
        disk@.total_bytes == disk.total_bytes,
        disk@.available_bytes == disk.available_bytes,
{
}

/// A kernel is told by its name, a space and its version; without a name by its
/// version; and without a version not at all.
pub proof fn law_kernel_is_told_by_name_and_version(
    name: Option<String>,
    version: Option<String>,
    text: Option<String>,
)
    requires
        call_ensures(describe_kernel, (name, version), text),
    ensures
        text is Some <==> version is Some,
        name is None && version is Some ==> text.unwrap()@ == version.unwrap()@,
        name is Some && version is Some ==> {
            let (n, v, t) = (name.unwrap()@, version.unwrap()@, text.unwrap()@);
            &&& t.len() == n.len() + 1 + v.len()
            &&& t.take(n.len() as int) == n
            &&& t[n.len() as int] == ' '
            &&& t.skip((n.len() + 1) as int) == v
        },
{
    if name is Some && version is Some {
        let (n, v, t) = (name.unwrap()@, version.unwrap()@, text.unwrap()@);
        assert(t == n + seq![' '] + v);
        assert(t.take(n.len() as int) =~= n);
        assert(t.skip((n.len() + 1) as int) =~= v);
    }
}

/// The kernel of this machine is told by what the system says of it.
pub proof fn law_this_kernel_is_told(text: Option<String>)
    requires
        call_ensures(read_kernel_version, (), text),
    ensures
        exists|name: Option<String>, version: Option<String>|
            #[trigger] call_ensures(sysinfo::System::name, (), name) && #[trigger] call_ensures(
                sysinfo::System::kernel_version,
                (),
                version,
            ) && (text is Some <==> version is Some) && (name is None && version is Some
                ==> text.unwrap()@ == version.unwrap()@) && (name is Some && version is Some
                ==> text.unwrap()@ == name.unwrap()@ + seq![' '] + version.unwrap()@),
{
}

/// A source that was given its mounts tells them, each in its place.
pub proof fn law_mock_source_tells_its_mounts(
    given: Vec<Mount>,
    source: MockSource,
    told: Result<Vec<Mount>, SampleError>,
)
    requires
        call_ensures(MockSource::new, (given,), source),
        call_ensures(<MockSource as DiskSource>::sample, (&source,), told),
    ensures
        told is Ok,
        told.unwrap()@.len() == given@.len(),
        forall|i: int|
            0 <= i < given@.len() ==> (#[trigger] told.unwrap()@[i])@ == given@[i]@,
{
    let list = told.unwrap();
    let (a, b) = (views(list@), views(given@));
    assert(a.len() == list@.len() && b.len() == given@.len());
    assert forall|i: int| 0 <= i < given@.len() implies (#[trigger] list@[i])@ == given@[i]@ by {
        assert(a[i] == list@[i]@ && b[i] == given@[i]@);
    }
}

} // verus!
