//! What the monitor reports: snapshots, mounts, their usage and their files.

use vstd::prelude::*;

verus! {

/// The views of the elements of `s`.
pub open spec fn views<T: View>(s: Seq<T>) -> Seq<T::V> {
    s.map_values(|x: T| x@)
}

/// The view of what `o` holds.
pub open spec fn option_view<T: View>(o: Option<T>) -> Option<T::V> {
    match o {
        Some(x) => Some(x@),
        None => None,
    }
}

/// The state of every reported filesystem at one moment.
#[derive(Debug, PartialEq)]
pub struct Snapshot {
    pub timestamp: String,
    pub host: String,
    pub mounts: Vec<Mount>,
}

/// One mounted filesystem.
#[derive(Debug, PartialEq)]
pub struct Mount {
    /// Mount point as reported by the kernel (e.g. `/`, `/Volumes/External`).
    pub mount_point: String,
    /// Block device backing this mount (e.g. `/dev/disk3s1s1`).
    pub device: String,
    /// Filesystem type (`apfs`, `hfs`, `exfat`, ...).
    pub fs_type: String,
    pub usage: Usage,
    /// Top-N largest files on this filesystem. Empty until the first scan
    /// completes. Files that cannot be read are skipped.
    pub largest_files: Vec<FileEntry>,
    /// RFC 3339 timestamp of when `largest_files` was last refreshed; `None`
    /// means no scan has completed yet.
    pub largest_files_scanned_at: Option<String>,
}

/// A file and its size.
#[derive(Debug, PartialEq, Eq)]
pub struct FileEntry {
    pub path: String,
    pub size_bytes: u64,
}

/// How full a filesystem is.
#[derive(Clone, Copy, Debug, PartialEq, Eq)]
pub struct Usage {
    pub used_bytes: u64,
    pub free_bytes: u64,
    pub total_bytes: u64,
}

/// The view of a `Snapshot`.
#[verifier::ext_equal]
pub struct SnapshotView {
    pub timestamp: Seq<char>,
    pub host: Seq<char>,
    pub mounts: Seq<MountView>,
}

/// The view of a `Mount`.
#[verifier::ext_equal]
pub struct MountView {
    pub mount_point: Seq<char>,
    pub device: Seq<char>,
    pub fs_type: Seq<char>,
    pub usage: Usage,
    pub largest_files: Seq<FileEntryView>,
    pub largest_files_scanned_at: Option<Seq<char>>,
}

/// The view of a `FileEntry`.
#[verifier::ext_equal]
pub struct FileEntryView {
    pub path: Seq<char>,
    pub size_bytes: u64,
}

impl View for Snapshot {
    type V = SnapshotView;

    open spec fn view(&self) -> SnapshotView {
        SnapshotView {
            timestamp: self.timestamp@,
            host: self.host@,
            mounts: views(self.mounts@),
        }
    }
}

impl View for Mount {
    type V = MountView;

    open spec fn view(&self) -> MountView {
        MountView {
            mount_point: self.mount_point@,
            device: self.device@,
            fs_type: self.fs_type@,
            usage: self.usage,
            largest_files: views(self.largest_files@),
            largest_files_scanned_at: option_view(self.largest_files_scanned_at),
        }
    }
}

impl View for FileEntry {
    type V = FileEntryView;

    open spec fn view(&self) -> FileEntryView {
        FileEntryView { path: self.path@, size_bytes: self.size_bytes }
    }
}

impl Default for Usage {
    /// Nothing used, nothing free.
    fn default() -> (usage: Self)
        ensures
            usage == (Usage { used_bytes: 0, free_bytes: 0, total_bytes: 0 }),
    {
        Usage { used_bytes: 0, free_bytes: 0, total_bytes: 0 }
    }
}

impl Clone for FileEntry {
    fn clone(&self) -> (copy: Self)
        ensures
            copy@ == self@,
    {
        FileEntry { path: self.path.clone(), size_bytes: self.size_bytes }
    }
}

impl Clone for Mount {
    fn clone(&self) -> (copy: Self)
        ensures
            copy@ == self@,
    {
        let copy = Mount {
            mount_point: self.mount_point.clone(),
            device: self.device.clone(),
            fs_type: self.fs_type.clone(),
            usage: self.usage,
            largest_files: self.largest_files.clone(),
            largest_files_scanned_at: self.largest_files_scanned_at.clone(),
        };
        assert(views(copy.largest_files@) =~= views(self.largest_files@));
        copy
    }
}

impl Clone for Snapshot {
    fn clone(&self) -> (copy: Self)
        ensures
            copy@ == self@,
    {
        let copy = Snapshot {
            timestamp: self.timestamp.clone(),
            host: self.host.clone(),
            mounts: self.mounts.clone(),
        };
        assert(views(copy.mounts@) =~= views(self.mounts@));
        copy
    }
}

/// The views of some elements are as many, each that of its element.
pub proof fn law_views_are_those_of_the_elements<T: View>(s: Seq<T>, o: Option<T>)
    ensures
        views(s).len() == s.len(),
        forall|i: int| 0 <= i < s.len() ==> #[trigger] views(s)[i] == s[i]@,
        option_view(o) is Some <==> o is Some,
        o matches Some(x) ==> option_view(o) == Some(x@),
{
}

/// A snapshot, its mounts and their files are seen whole: with what each field
/// holds, and in their order.
pub proof fn law_snapshots_are_seen_whole(snapshot: Snapshot, mount: Mount, file: FileEntry)
    ensures
        snapshot@.timestamp == snapshot.timestamp@,
        snapshot@.host == snapshot.host@,
        snapshot@.mounts.len() == snapshot.mounts@.len(),
        forall|i: int|
            0 <= i < snapshot.mounts@.len() ==> #[trigger] snapshot@.mounts[i]
                == snapshot.mounts@[i]@,
        mount@.mount_point == mount.mount_point@,
        mount@.device == mount.device@,
        mount@.fs_type == mount.fs_type@,
        mount@.usage == mount.usage,
        mount@.largest_files.len() == mount.largest_files@.len(),
        forall|i: int|
            0 <= i < mount.largest_files@.len() ==> #[trigger] mount@.largest_files[i]
                == mount.largest_files@[i]@,
        mount@.largest_files_scanned_at is Some <==> mount.largest_files_scanned_at is Some,
        mount.largest_files_scanned_at matches Some(time) ==> mount@.largest_files_scanned_at
            == Some(time@),
        file@.path == file.path@,
        file@.size_bytes == file.size_bytes,
{
}

/// Snapshots that are seen alike hold the same, down to every file of every
/// mount.
pub proof fn law_snapshots_seen_alike_hold_the_same(a: Snapshot, b: Snapshot)
    requires
        a@ == b@,
    ensures
        a.timestamp@ == b.timestamp@,
        a.host@ == b.host@,
        a.mounts@.len() == b.mounts@.len(),
        forall|i: int|
            0 <= i < a.mounts@.len() ==> {
                let (m, n) = (#[trigger] a.mounts@[i], b.mounts@[i]);
                &&& m.mount_point@ == n.mount_point@
                &&& m.device@ == n.device@
                &&& m.fs_type@ == n.fs_type@
                &&& m.usage.used_bytes == n.usage.used_bytes
                &&& m.usage.free_bytes == n.usage.free_bytes
                &&& m.usage.total_bytes == n.usage.total_bytes
                &&& m.largest_files@.len() == n.largest_files@.len()
                &&& m.largest_files_scanned_at is Some <==> n.largest_files_scanned_at is Some
                &&& m.largest_files_scanned_at is Some ==> m.largest_files_scanned_at.unwrap()@
                    == n.largest_files_scanned_at.unwrap()@
            },
        forall|i: int, k: int|
            0 <= i < a.mounts@.len() && 0 <= k < a.mounts@[i].largest_files@.len() ==> {
                let (f, g) = (
                    #[trigger] a.mounts@[i].largest_files@[k],
                    b.mounts@[i].largest_files@[k],
                );
                f.path@ == g.path@ && f.size_bytes == g.size_bytes
            },
{
    assert(a.mounts@.len() == a@.mounts.len() && b.mounts@.len() == b@.mounts.len());
    assert forall|i: int| 0 <= i < a.mounts@.len() implies (#[trigger] a.mounts@[i])@
        == b.mounts@[i]@ by {
        assert(a@.mounts[i] == a.mounts@[i]@ && b@.mounts[i] == b.mounts@[i]@);
    }
    assert forall|i: int| 0 <= i < a.mounts@.len() implies {
        let (m, n) = (#[trigger] a.mounts@[i], b.mounts@[i]);
        &&& m.mount_point@ == n.mount_point@
        &&& m.device@ == n.device@
        &&& m.fs_type@ == n.fs_type@
        &&& m.usage.used_bytes == n.usage.used_bytes
        &&& m.usage.free_bytes == n.usage.free_bytes
        &&& m.usage.total_bytes == n.usage.total_bytes
        &&& m.largest_files@.len() == n.largest_files@.len()
        &&& m.largest_files_scanned_at is Some <==> n.largest_files_scanned_at is Some
        &&& m.largest_files_scanned_at is Some ==> m.largest_files_scanned_at.unwrap()@
            == n.largest_files_scanned_at.unwrap()@
    } by {
        let (m, n) = (a.mounts@[i], b.mounts@[i]);
        assert(m@ == n@);
        assert(m@.largest_files.len() == n@.largest_files.len());
    }
    assert forall|i: int, k: int|
        0 <= i < a.mounts@.len() && 0 <= k < a.mounts@[i].largest_files@.len() implies {
        let (f, g) = (
            #[trigger] a.mounts@[i].largest_files@[k],
            b.mounts@[i].largest_files@[k],
        );
        f.path@ == g.path@ && f.size_bytes == g.size_bytes
    } by {
        let (m, n) = (a.mounts@[i], b.mounts@[i]);
        assert(m@ == n@);
        assert(m@.largest_files[k] == n@.largest_files[k]);
    }
}

/// Copies hold what was copied.
pub proof fn law_copies_hold_the_same(
    file: FileEntry,
    file_copy: FileEntry,
    mount: Mount,
    mount_copy: Mount,
    snapshot: Snapshot,
    snapshot_copy: Snapshot,
)
    requires
        call_ensures(<FileEntry as Clone>::clone, (&file,), file_copy),
        call_ensures(<Mount as Clone>::clone, (&mount,), mount_copy),
        call_ensures(<Snapshot as Clone>::clone, (&snapshot,), snapshot_copy),
    ensures
        file_copy@ == file@,
        mount_copy@ == mount@,
        snapshot_copy@ == snapshot@,
{
}

/// Of a disk of which nothing is known nothing is used, free or there.
pub proof fn law_default_usage_is_none(usage: Usage)
    requires
        call_ensures(<Usage as Default>::default, (), usage),
    ensures
        usage.used_bytes == 0 && usage.free_bytes == 0 && usage.total_bytes == 0,
{
}

} // verus!
