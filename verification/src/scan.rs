//! The largest files that a walk of a filesystem comes across.
//!
//! The walk itself is somebody else's: it hands over its items one by one, and
//! what is kept here never holds more than the asked-for number of files.

use std::collections::HashSet;
use vstd::multiset::*;
use vstd::prelude::*;
use vstd::std_specs::hash::*;
use vstd::utf8::{decode_utf8, valid_utf8};

use crate::model::{views, FileEntry, FileEntryView};
use crate::text::{
    is_path_before, lemma_path_order, lemma_path_transitive, lossy_text, path_before, to_lossy,
};

verus! {

/// What the filesystem says of a file.
#[derive(Clone, Copy, Debug, PartialEq, Eq)]
pub struct FileMeta {
    pub dev: u64,
    pub ino: u64,
    pub nlink: u64,
    pub len: u64,
}

/// One item of a walk.
#[derive(Debug, PartialEq, Eq)]
pub enum WalkItem {
    /// A directory entry that could not be read.
    Unreadable,
    /// An entry that was read, with the bytes of its path. Its metadata is
    /// missing where it could not be had, and need not be there where the entry
    /// is no regular file.
    Entry { is_file: bool, path: Vec<u8>, metadata: Option<FileMeta> },
}

/// The view of a `WalkItem`.
#[verifier::ext_equal]
pub enum WalkItemView {
    Unreadable,
    Entry { is_file: bool, path: Seq<u8>, metadata: Option<FileMeta> },
}

impl View for WalkItem {
    type V = WalkItemView;

    open spec fn view(&self) -> WalkItemView {
        match self {
            WalkItem::Unreadable => WalkItemView::Unreadable,
            WalkItem::Entry { is_file, path, metadata } => WalkItemView::Entry {
                is_file: *is_file,
                path: path@,
                metadata: *metadata,
            },
        }
    }
}

/// A file that a walk has come across.
struct FoundFile {
    path: Vec<u8>,
    size_bytes: u64,
}

/// A file that a walk has come across: the bytes of its path, and its size.
#[verifier::ext_equal]
pub struct FoundFileView {
    pub path: Seq<u8>,
    pub size_bytes: u64,
}

impl View for FoundFile {
    type V = FoundFileView;

    closed spec fn view(&self) -> FoundFileView {
        FoundFileView { path: self.path@, size_bytes: self.size_bytes }
    }
}

/// The regular file that `item` stands for, with its metadata, if it is one
/// and its metadata could be had.
pub open spec fn regular_file(item: WalkItemView) -> Option<(Seq<u8>, FileMeta)> {
    match item {
        WalkItemView::Entry { is_file: true, path, metadata: Some(meta) } => Some((path, meta)),
        _ => None,
    }
}

/// The device and inode of a regular file that has more than one name.
pub open spec fn hard_link(item: WalkItemView) -> Option<(u64, u64)> {
    match regular_file(item) {
        Some((_, meta)) if meta.nlink > 1 => Some((meta.dev, meta.ino)),
        _ => None,
    }
}

/// Whether the walk has come across the file of item `i` under another name
/// before.
pub open spec fn seen_before(items: Seq<WalkItemView>, i: int) -> bool {
    &&& hard_link(items[i]) is Some
    &&& exists|j: int| 0 <= j < i && hard_link(#[trigger] items[j]) == hard_link(items[i])
}

/// Whether item `i` of the walk is a regular file that counts: every file
/// counts once, under the first of its names.
pub open spec fn counts(items: Seq<WalkItemView>, i: int) -> bool {
    regular_file(items[i]) is Some && !seen_before(items, i)
}

/// The regular file that `item` stands for, as it was found.
pub open spec fn found(item: WalkItemView) -> FoundFileView {
    FoundFileView {
        path: regular_file(item).unwrap().0,
        size_bytes: regular_file(item).unwrap().1.len,
    }
}

/// The files of a walk that count, in the order of the walk.
pub open spec fn counted(items: Seq<WalkItemView>) -> Seq<FoundFileView>
    decreases items.len(),
{
    if items.len() == 0 {
        Seq::empty()
    } else if counts(items, items.len() - 1) {
        counted(items.drop_last()).push(found(items.last()))
    } else {
        counted(items.drop_last())
    }
}

/// Whether `a` gives way before `b` when room is needed: the smaller file, or
/// of two files of one size the one whose path comes first.
pub open spec fn yields_to(a: FoundFileView, b: FoundFileView) -> bool {
    a.size_bytes < b.size_bytes || (a.size_bytes == b.size_bytes && path_before(a.path, b.path))
}

/// Whether no file of `files` gives way before `f`, which is one of them.
pub open spec fn first_to_yield(files: Multiset<FoundFileView>, f: FoundFileView) -> bool {
    &&& files.contains(f)
    &&& forall|g: FoundFileView| #[trigger] files.contains(g) ==> !yields_to(g, f)
}

/// The files that are kept, at most `n` of them, once all of `files` have been
/// offered in order: while there is room a file is kept, after that one takes
/// the place of the file that is the first to yield, if that one is smaller.
pub open spec fn kept(files: Seq<FoundFileView>, n: nat) -> Multiset<FoundFileView>
    decreases files.len(),
{
    if files.len() == 0 {
        Multiset::empty()
    } else {
        let before = kept(files.drop_last(), n);
        let file = files.last();
        let weakest = choose|g: FoundFileView| first_to_yield(before, g);
        if before.len() < n {
            before.insert(file)
        } else if n > 0 && weakest.size_bytes < file.size_bytes {
            before.remove(weakest).insert(file)
        } else {
            before
        }
    }
}

/// Whether `files` stand so that none gives way before one that follows it: the
/// largest first, and of two files of one size the one whose path comes last.
pub open spec fn strongest_first(files: Seq<FoundFileView>) -> bool {
    forall|i: int, j: int| 0 <= i < j < files.len() ==> !#[trigger] yields_to(files[i], files[j])
}

/// Whether `files` are those that a walk over `items` selects when asked for `n`
/// files, in the order in which they are listed.
pub open spec fn is_selection(
    files: Seq<FoundFileView>,
    items: Seq<WalkItemView>,
    n: nat,
) -> bool {
    &&& strongest_first(files)
    &&& files.to_multiset() == kept(counted(items), n)
}

/// Whether `entry` is how `file` is listed: its path as text, with replacement
/// characters where it is none.
pub open spec fn is_entry_of(entry: FileEntryView, file: FoundFileView) -> bool {
    &&& entry.size_bytes == file.size_bytes
    &&& entry.path == lossy_text(file.path)
    &&& valid_utf8(file.path) ==> entry.path == decode_utf8(file.path)
}

/// Whether `list` is how `files` are listed.
pub open spec fn are_entries_of(list: Seq<FileEntryView>, files: Seq<FoundFileView>) -> bool {
    &&& list.len() == files.len()
    &&& forall|i: int| 0 <= i < list.len() ==> is_entry_of(#[trigger] list[i], files[i])
}

/// Whether `list` is what a walk over `items` lists when asked for `n` files.
pub open spec fn is_listing(
    list: Seq<FileEntryView>,
    items: Seq<WalkItemView>,
    n: nat,
) -> bool {
    exists|files: Seq<FoundFileView>| #[trigger]
        is_selection(files, items, n) && are_entries_of(list, files)
}

proof fn lemma_yield_order(a: FoundFileView, b: FoundFileView)
    ensures
        !yields_to(a, a),
        yields_to(a, b) || yields_to(b, a) || a == b,
        yields_to(a, b) ==> !yields_to(b, a),
{
    lemma_path_order(a.path, b.path);
}

proof fn lemma_yield_transitive(a: FoundFileView, b: FoundFileView, c: FoundFileView)
    requires
        yields_to(a, b),
        yields_to(b, c),
    ensures
        yields_to(a, c),
{
    if a.size_bytes == b.size_bytes && b.size_bytes == c.size_bytes {
        lemma_path_transitive(a.path, b.path, c.path);
    }
}

/// In a list with the strongest first, the last is the first to yield.
proof fn lemma_last_yields_first(files: Seq<FoundFileView>)
    requires
        strongest_first(files),
        files.len() > 0,
    ensures
        first_to_yield(files.to_multiset(), files.last()),
        forall|g: FoundFileView|
            first_to_yield(files.to_multiset(), g) ==> g == files.last(),
{
    broadcast use vstd::seq_lib::group_to_multiset_ensures;

    let all = files.to_multiset();
    assert(files.contains(files.last())) by {
        assert(files[files.len() - 1] == files.last());
    }
    assert forall|g: FoundFileView| #[trigger] all.contains(g) implies !yields_to(
        g,
        files.last(),
    ) by {
        assert(files.contains(g));
        let i = choose|i: int| 0 <= i < files.len() && files[i] == g;
        if i == files.len() - 1 {
            lemma_yield_order(g, g);
        } else {
            assert(!yields_to(files[i], files[files.len() - 1]));
        }
    }
    assert forall|g: FoundFileView| first_to_yield(all, g) implies g == files.last() by {
        lemma_yield_order(g, files.last());
        assert(all.contains(files.last()));
        assert(all.contains(g));
    }
}

/// The key under which a hard-linked file is remembered.
spec fn link_key(link: (u64, u64)) -> u128 {
    (link.0 * 0x1_0000_0000_0000_0000 + link.1) as u128
}

proof fn lemma_link_key_injective(a: (u64, u64), b: (u64, u64))
    ensures
        link_key(a) == link_key(b) ==> a == b,
{
}

fn key_of(dev: u64, ino: u64) -> (key: u128)
    ensures
        key == link_key((dev, ino)),
{
    (dev as u128) * 0x1_0000_0000_0000_0000 + (ino as u128)
}

/// Whether `key` is the key of a hard link among `items`.
spec fn has_link(items: Seq<WalkItemView>, key: u128) -> bool {
    exists|j: int|
        0 <= j < items.len() && hard_link(#[trigger] items[j]) is Some && link_key(
            hard_link(items[j]).unwrap(),
        ) == key
}

/// Whether `keys` are the keys of the hard links among `items`.
spec fn remembers(keys: Set<u128>, items: Seq<WalkItemView>) -> bool {
    forall|key: u128| #[trigger] keys.contains(key) <==> has_link(items, key)
}

/// Whether `a` gives way before `b`.
fn is_weaker(a: &FoundFile, b: &FoundFile) -> (weaker: bool)
    ensures
        weaker == yields_to(a@, b@),
{
    if a.size_bytes == b.size_bytes {
        is_path_before(&a.path, &b.path)
    } else {
        a.size_bytes < b.size_bytes
    }
}

/// Puts `file` in its place among `files`.
fn insert_file(files: &mut Vec<FoundFile>, file: FoundFile)
    requires
        strongest_first(views(old(files)@)),
    ensures
        strongest_first(views(final(files)@)),
        views(final(files)@).to_multiset() == views(old(files)@).to_multiset().insert(file@),
        final(files)@.len() == old(files)@.len() + 1,
{
    let ghost before = views(files@);
    let mut at: usize = 0;
    while at < files.len() && !is_weaker(&files[at], &file)
        invariant
            at <= files.len(),
            forall|j: int| 0 <= j < at ==> !#[trigger] yields_to(files@[j]@, file@),
        decreases files.len() - at,
    {
        at = at + 1;
    }
    files.insert(at, file);
    proof {
        let after = views(files@);
        assert(after =~= before.insert(at as int, file@));
        vstd::seq_lib::to_multiset_insert(before, at as int, file@);
        assert forall|i: int, j: int| 0 <= i < j < after.len() implies !#[trigger] yields_to(
            after[i],
            after[j],
        ) by {
            let old_i = if i < at { i } else { i - 1 };
            let old_j = if j < at { j } else { j - 1 };
            if i == at {
                lemma_yield_order(before[at as int], file@);
                if yields_to(file@, before[old_j]) {
                    lemma_yield_transitive(before[at as int], file@, before[old_j]);
                    lemma_yield_order(before[old_j], before[old_j]);
                    assert(old_j == at || !yields_to(before[at as int], before[old_j]));
                }
            } else if j == at {
                assert(after[i] == before[i]);
            } else {
                assert(!yields_to(before[old_i], before[old_j]));
            }
        }
    }
}

/// Whether `list` holds what is kept of `files`, the strongest first.
spec fn holds_kept(list: Seq<FoundFileView>, files: Seq<FoundFileView>, n: nat) -> bool {
    &&& strongest_first(list)
    &&& list.to_multiset() == kept(files, n)
    &&& list.len() <= n
}

/// Offers `file` to `list`, which keeps at most `top_n` files.
fn keep_file(
    list: &mut Vec<FoundFile>,
    file: FoundFile,
    top_n: usize,
    offered: Ghost<Seq<FoundFileView>>,
)
    requires
        holds_kept(views(old(list)@), offered@, top_n as nat),
    ensures
        holds_kept(views(final(list)@), offered@.push(file@), top_n as nat),
{
    let ghost before = views(list@);
    proof {
        vstd::seq_lib::to_multiset_len(before);
        assert(offered@.push(file@).drop_last() =~= offered@);
        if before.len() > 0 {
            lemma_last_yields_first(before);
        }
    }
    if list.len() < top_n {
        insert_file(list, file);
    } else if top_n > 0 && list[list.len() - 1].size_bytes < file.size_bytes {
        list.pop();
        proof {
            let shorter = views(list@);
            assert(shorter =~= before.drop_last());
            assert(shorter =~= before.remove(before.len() - 1));
            vstd::seq_lib::to_multiset_remove(before, before.len() - 1);
            assert forall|i: int, j: int| 0 <= i < j < shorter.len() implies !#[trigger] yields_to(
                shorter[i],
                shorter[j],
            ) by {
                assert(!yields_to(before[i], before[j]));
            }
        }
        insert_file(list, file);
    }
}

/// One item more adds its own hard link, if it is one, and no other.
proof fn lemma_link_added(items: Seq<WalkItemView>, item: WalkItemView, key: u128)
    ensures
        has_link(items.push(item), key) == (has_link(items, key) || (hard_link(item) is Some
            && link_key(hard_link(item).unwrap()) == key)),
{
    let next = items.push(item);
    let last = items.len() as int;
    assert(next[last] == item);
    assert(forall|j: int| 0 <= j < last ==> next[j] == items[j]);
    if has_link(items, key) {
        let j = choose|j: int|
            0 <= j < items.len() && hard_link(#[trigger] items[j]) is Some && link_key(
                hard_link(items[j]).unwrap(),
            ) == key;
        assert(hard_link(next[j]) is Some);
    }
    if has_link(next, key) {
        let j = choose|j: int|
            0 <= j < next.len() && hard_link(#[trigger] next[j]) is Some && link_key(
                hard_link(next[j]).unwrap(),
            ) == key;
        if j < last {
            assert(hard_link(items[j]) is Some);
        }
    }
}

/// What the keys remember tells whether a hard link was seen before.
proof fn lemma_remembered(keys: Set<u128>, items: Seq<WalkItemView>, item: WalkItemView)
    requires
        remembers(keys, items),
    ensures
        ({
            let next = items.push(item);
            match hard_link(item) {
                Some(link) => {
                    &&& keys.contains(link_key(link)) == seen_before(next, next.len() - 1)
                    &&& remembers(keys.insert(link_key(link)), next)
                },
                None => remembers(keys, next),
            }
        }),
{
    let next = items.push(item);
    let last = items.len() as int;
    assert forall|key: u128| has_link(next, key) == (has_link(items, key) || (hard_link(
        item,
    ) is Some && link_key(hard_link(item).unwrap()) == key)) by {
        lemma_link_added(items, item, key);
    }
    if let Some(link) = hard_link(item) {
        assert(next[last] == item);
        assert(forall|j: int| 0 <= j < last ==> next[j] == items[j]);
        if has_link(items, link_key(link)) {
            let j = choose|j: int|
                0 <= j < items.len() && hard_link(#[trigger] items[j]) is Some && link_key(
                    hard_link(items[j]).unwrap(),
                ) == link_key(link);
            lemma_link_key_injective(hard_link(items[j]).unwrap(), link);
            assert(hard_link(next[j]) == hard_link(next[last]));
        }
        if seen_before(next, last) {
            let j = choose|j: int|
                0 <= j < last && hard_link(#[trigger] next[j]) == hard_link(next[last]);
            assert(hard_link(items[j]) is Some);
        }
    }
}

/// A walk in progress, and the largest files that it has come across.
pub struct FileScan {
    top_n: usize,
    files: Vec<FoundFile>,
    links: HashSet<u128>,
    items: Ghost<Seq<WalkItemView>>,
}

impl FileScan {
    /// How many files the scan is to list.
    pub closed spec fn limit(&self) -> nat {
        self.top_n as nat
    }

    /// The items that the walk has handed over so far.
    pub closed spec fn walked(&self) -> Seq<WalkItemView> {
        self.items@
    }

    #[verifier::type_invariant]
    spec fn well_formed(self) -> bool {
        &&& holds_kept(views(self.files@), counted(self.items@), self.top_n as nat)
        &&& remembers(self.links@, self.items@)
    }

    /// A scan that has seen nothing yet.
    pub fn new(top_n: usize) -> (scan: FileScan)
        ensures
            scan.limit() == top_n,
            scan.walked() == Seq::<WalkItemView>::empty(),
    {
        let files: Vec<FoundFile> = Vec::new();
        assert(views(files@).to_multiset() =~= Multiset::<FoundFileView>::empty()) by {
            broadcast use vstd::seq_lib::group_to_multiset_ensures;

            assert(views(files@) =~= Seq::<FoundFileView>::empty());
        }
        FileScan { top_n, files, links: HashSet::new(), items: Ghost(Seq::empty()) }
    }

    /// Takes note of the next item of the walk.
    pub fn offer(self, item: WalkItem) -> (next: FileScan)
        ensures
            next.limit() == self.limit(),
            next.walked() == self.walked().push(item@),
    {
        proof {
            use_type_invariant(&self);
        }
        let ghost before = self.items@;
        let ghost after = before.push(item@);
        let FileScan { top_n, mut files, mut links, items } = self;
        proof {
            assert(after.drop_last() =~= before);
            assert(after.last() == item@);
            lemma_remembered(links@, before, item@);
        }
        match item {
            WalkItem::Entry { is_file: true, path, metadata: Some(meta) } => {
                let mut fresh = true;
                if meta.nlink > 1 {
                    fresh = links.insert(key_of(meta.dev, meta.ino));
                }
                if fresh {
                    let file = FoundFile { path, size_bytes: meta.len };
                    keep_file(&mut files, file, top_n, Ghost(counted(before)));
                }
            },
            _ => {},
        }
        FileScan { top_n, files, links, items: Ghost(after) }
    }

    /// The files to list once the walk is over.
    pub fn finish(self) -> (list: Vec<FileEntry>)
        ensures
            is_listing(views(list@), self.walked(), self.limit()),
    {
        let ghost files = views(self.files@);
        proof {
            use_type_invariant(&self);
            assert(is_selection(files, self.items@, self.top_n as nat));
        }
        let mut list: Vec<FileEntry> = Vec::new();
        let mut i: usize = 0;
        while i < self.files.len()
            invariant
                i <= self.files.len(),
                list@.len() == i,
                files == views(self.files@),
                forall|k: int| 0 <= k < i ==> is_entry_of(#[trigger] views(list@)[k], files[k]),
            decreases self.files.len() - i,
        {
            let file = &self.files[i];
            let entry = FileEntry { path: to_lossy(&file.path), size_bytes: file.size_bytes };
            let ghost before = views(list@);
            list.push(entry);
            assert(views(list@) =~= before.push(entry@));
            assert(is_entry_of(entry@, files[i as int]));
            i = i + 1;
        }
        assert(are_entries_of(views(list@), files));
        list
    }
}

/// The `top_n` largest regular files that a walk comes across, the largest
/// first.
///
/// - What is no regular file, a symbolic link among them, is skipped.
/// - A file with several hard links counts once.
/// - What cannot be read is skipped in silence.
pub fn scan_mount(items: Vec<WalkItem>, top_n: usize) -> (list: Vec<FileEntry>)
    ensures
        is_listing(views(list@), views(items@), top_n as nat),
{
    let ghost walk = views(items@);
    let mut scan = FileScan::new(top_n);
    for item in iter: items
        invariant
            walk == views(iter.seq()),
            scan.limit() == top_n,
            scan.walked() == walk.take(iter.index()),
    {
        scan = scan.offer(item);
    }
    assert(walk.take(walk.len() as int) == walk);
    scan.finish()
}

/// Among any files one is the first to yield.
proof fn lemma_some_file_yields_first(files: Multiset<FoundFileView>)
    requires
        files.len() > 0,
    ensures
        exists|g: FoundFileView| first_to_yield(files, g),
    decreases files.len(),
{
    broadcast use vstd::multiset::group_multiset_axioms;

    let x = files.choose();
    let rest = files.remove(x);
    assert(files.contains(x));
    assert forall|g: FoundFileView| #[trigger] files.contains(g) implies g == x || rest.contains(
        g,
    ) by {
        if g != x {
            assert(rest.count(g) == files.count(g));
        }
    }
    lemma_yield_order(x, x);
    if rest.len() == 0 {
        assert(forall|g: FoundFileView| !#[trigger] rest.contains(g));
        assert(first_to_yield(files, x));
    } else {
        lemma_some_file_yields_first(rest);
        let y = choose|g: FoundFileView| first_to_yield(rest, g);
        assert(rest.contains(y) && files.contains(y));
        if yields_to(x, y) {
            assert forall|g: FoundFileView| #[trigger] files.contains(g) implies !yields_to(
                g,
                x,
            ) by {
                if g != x && yields_to(g, x) {
                    assert(rest.contains(g));
                    lemma_yield_transitive(g, x, y);
                }
            }
            assert(first_to_yield(files, x));
        } else {
            assert(first_to_yield(files, y));
        }
    }
}

/// As long as no more files are offered than asked for, every file is kept.
proof fn lemma_all_kept_while_room(files: Seq<FoundFileView>, n: nat)
    requires
        files.len() <= n,
    ensures
        kept(files, n) == files.to_multiset(),
    decreases files.len(),
{
    broadcast use vstd::multiset::group_multiset_axioms;

    vstd::seq_lib::to_multiset_len(files);
    if files.len() > 0 {
        let prefix = files.drop_last();
        lemma_all_kept_while_room(prefix, n);
        vstd::seq_lib::to_multiset_len(prefix);
        assert(files =~= prefix.push(files.last()));
        vstd::seq_lib::to_multiset_build(prefix, files.last());
    }
}

/// What is kept are the largest of the files that were offered: as many as
/// asked for or else all of them, each one of those offered, and none smaller
/// than any that was left out.
pub proof fn law_largest_are_kept(files: Seq<FoundFileView>, n: nat)
    ensures
        kept(files, n).len() == if files.len() < n { files.len() } else { n },
        kept(files, n).subset_of(files.to_multiset()),
        forall|out: FoundFileView, inside: FoundFileView|
            files.to_multiset().count(out) > #[trigger] kept(files, n).count(out)
                && #[trigger] kept(files, n).contains(inside) ==> out.size_bytes
                <= inside.size_bytes,
    decreases files.len(),
{
    broadcast use vstd::multiset::group_multiset_axioms;

    if files.len() == 0 {
        vstd::seq_lib::to_multiset_len(files);
    } else {
        let prefix = files.drop_last();
        let file = files.last();
        let before = kept(prefix, n);
        let after = kept(files, n);
        law_largest_are_kept(prefix, n);
        assert(files =~= prefix.push(file));
        vstd::seq_lib::to_multiset_build(prefix, file);
        let offered = prefix.to_multiset();
        let weakest = choose|g: FoundFileView| first_to_yield(before, g);
        if before.len() < n {
            lemma_all_kept_while_room(files, n);
        } else if n > 0 {
            lemma_some_file_yields_first(before);
            assert(before.contains(weakest));
            assert forall|out: FoundFileView, inside: FoundFileView|
                files.to_multiset().count(out) > #[trigger] after.count(out)
                    && #[trigger] after.contains(inside) implies out.size_bytes
                <= inside.size_bytes by {
                if weakest.size_bytes < file.size_bytes {
                    // `weakest` left, so everything out is no larger than it.
                    if out != weakest {
                        assert(offered.count(out) > before.count(out));
                        assert(before.contains(weakest));
                    }
                    if inside != file {
                        assert(before.contains(inside));
                        assert(!yields_to(inside, weakest));
                    }
                } else {
                    assert(before.contains(inside));
                    assert(!yields_to(inside, weakest));
                    if out != file {
                        assert(offered.count(out) > before.count(out));
                    }
                }
            }
        }
    }
}

/// What is selected are the largest files of the walk: as many as asked for or
/// else all that count, and no file that counts and is left out is larger than
/// one that is selected.
pub proof fn law_selection_is_largest(
    files: Seq<FoundFileView>,
    items: Seq<WalkItemView>,
    n: nat,
)
    requires
        is_selection(files, items, n),
    ensures
        files.len() == if counted(items).len() < n { counted(items).len() } else { n },
        files.to_multiset().subset_of(counted(items).to_multiset()),
        forall|out: FoundFileView, i: int|
            0 <= i < files.len() && #[trigger] counted(items).to_multiset().count(out)
                > files.to_multiset().count(out) ==> out.size_bytes
                <= #[trigger] files[i].size_bytes,
{
    broadcast use vstd::seq_lib::group_to_multiset_ensures;

    law_largest_are_kept(counted(items), n);
    assert forall|out: FoundFileView, i: int|
        0 <= i < files.len() && #[trigger] counted(items).to_multiset().count(out)
            > files.to_multiset().count(out) implies out.size_bytes
        <= #[trigger] files[i].size_bytes by {
        assert(files.contains(files[i]));
        assert(kept(counted(items), n).contains(files[i]));
        assert(kept(counted(items), n).count(out) == files.to_multiset().count(out));
    }
}

/// A listing shows the largest files of the walk, the largest first: as many as
/// asked for or else all that count. What it shows are files that count, and it
/// shows every one that is larger than another that it shows.
pub proof fn law_listing_is_largest(
    list: Seq<FileEntryView>,
    items: Seq<WalkItemView>,
    n: nat,
)
    requires
        is_listing(list, items, n),
    ensures
        list.len() == if counted(items).len() < n { counted(items).len() } else { n },
        forall|i: int, j: int|
            0 <= i < j < list.len() ==> #[trigger] list[i].size_bytes
                >= #[trigger] list[j].size_bytes,
        forall|i: int| 0 <= i < list.len() ==> shows_one_of(#[trigger] list[i], counted(items)),
        forall|k: int, i: int|
            0 <= k < counted(items).len() && 0 <= i < list.len() && (#[trigger] counted(
                items,
            )[k]).size_bytes > (#[trigger] list[i]).size_bytes ==> is_shown_in(
                counted(items)[k],
                list,
            ),
{
    broadcast use vstd::seq_lib::group_to_multiset_ensures;

    let files = choose|files: Seq<FoundFileView>| #[trigger]
        is_selection(files, items, n) && are_entries_of(list, files);
    law_selection_is_largest(files, items, n);
    assert forall|i: int| 0 <= i < list.len() implies shows_one_of(
        #[trigger] list[i],
        counted(items),
    ) by {
        assert(is_entry_of(list[i], files[i]));
        assert(files.contains(files[i]));
        assert(files.to_multiset().count(files[i]) > 0);
        assert(counted(items).to_multiset().count(files[i]) > 0);
        assert(counted(items).contains(files[i]));
        let k = choose|k: int| 0 <= k < counted(items).len() && counted(items)[k] == files[i];
        assert(is_entry_of(list[i], counted(items)[k]));
    }
    assert forall|i: int, j: int| 0 <= i < j < list.len() implies #[trigger] list[i].size_bytes
        >= #[trigger] list[j].size_bytes by {
        assert(is_entry_of(list[i], files[i]) && is_entry_of(list[j], files[j]));
        assert(!yields_to(files[i], files[j]));
    }
    assert forall|k: int, i: int|
        0 <= k < counted(items).len() && 0 <= i < list.len() && (#[trigger] counted(
            items,
        )[k]).size_bytes > (#[trigger] list[i]).size_bytes implies is_shown_in(
        counted(items)[k],
        list,
    ) by {
        let file = counted(items)[k];
        assert(is_entry_of(list[i], files[i]));
        assert(counted(items).contains(file));
        assert(counted(items).to_multiset().count(file) > 0);
        assert(files.to_multiset().count(file) > 0);
        assert(files.contains(file));
        let j = choose|j: int| 0 <= j < files.len() && files[j] == file;
        assert(is_entry_of(list[j], files[j]));
    }
}

/// Whether `file` is listed in `list`.
pub open spec fn is_shown_in(file: FoundFileView, list: Seq<FileEntryView>) -> bool {
    exists|j: int| 0 <= j < list.len() && is_entry_of(#[trigger] list[j], file)
}

/// Whether `entry` is how one of `files` is listed.
pub open spec fn shows_one_of(entry: FileEntryView, files: Seq<FoundFileView>) -> bool {
    exists|k: int| 0 <= k < files.len() && is_entry_of(entry, #[trigger] files[k])
}

/// A file with several names counts once: of all its names in a walk exactly
/// the first counts.
pub proof fn law_hard_links_count_once(items: Seq<WalkItemView>, i: int)
    requires
        0 <= i < items.len(),
        hard_link(items[i]) is Some,
    ensures
        exists|first: int|
            0 <= first <= i && hard_link(items[first]) == hard_link(items[i]) && counts(
                items,
                first,
            ),
        forall|j: int|
            i < j < items.len() && hard_link(#[trigger] items[j]) == hard_link(items[i])
                ==> !counts(items, j),
    decreases i,
{
    if seen_before(items, i) {
        let j = choose|j: int|
            0 <= j < i && hard_link(#[trigger] items[j]) == hard_link(items[i]);
        law_hard_links_count_once(items, j);
        let first = choose|first: int|
            0 <= first <= j && hard_link(items[first]) == hard_link(items[j]) && counts(
                items,
                first,
            );
        assert(counts(items, first));
    } else {
        assert(counts(items, i));
    }
    assert forall|j: int|
        i < j < items.len() && hard_link(#[trigger] items[j]) == hard_link(items[i])
        implies !counts(items, j) by {
        assert(seen_before(items, j));
    }
}

/// The items of a walk that are readable regular files.
pub open spec fn readable(items: Seq<WalkItemView>) -> Seq<WalkItemView> {
    items.filter(|item: WalkItemView| regular_file(item) is Some)
}

/// A hard link of a walk is among its readable regular files.
proof fn lemma_links_are_readable(items: Seq<WalkItemView>, link: (u64, u64))
    ensures
        (exists|j: int| 0 <= j < items.len() && hard_link(#[trigger] items[j]) == Some(link))
            <==> (exists|j: int|
            0 <= j < readable(items).len() && hard_link(#[trigger] readable(items)[j]) == Some(
                link,
            )),
{
    let pred = |item: WalkItemView| regular_file(item) is Some;
    let rest = readable(items);
    if exists|j: int| 0 <= j < items.len() && hard_link(#[trigger] items[j]) == Some(link) {
        let j = choose|j: int|
            0 <= j < items.len() && hard_link(#[trigger] items[j]) == Some(link);
        items.lemma_filter_contains(pred, j);
        let k = choose|k: int| 0 <= k < rest.len() && rest[k] == items[j];
        assert(hard_link(rest[k]) == Some(link));
    }
    if exists|j: int| 0 <= j < rest.len() && hard_link(#[trigger] rest[j]) == Some(link) {
        let j = choose|j: int| 0 <= j < rest.len() && hard_link(#[trigger] rest[j]) == Some(link);
        assert(rest.contains(rest[j]));
        items.lemma_filter_contains_rev(pred, rest[j]);
        let k = choose|k: int| 0 <= k < items.len() && items[k] == rest[j];
        assert(hard_link(items[k]) == Some(link));
    }
}

/// What is no readable regular file makes no difference to what counts.
proof fn lemma_skipped_items_do_not_count(items: Seq<WalkItemView>)
    ensures
        counted(items) == counted(readable(items)),
    decreases items.len(),
{
    reveal(Seq::filter);
    if items.len() > 0 {
        let prefix = items.drop_last();
        let item = items.last();
        let last = items.len() - 1;
        lemma_skipped_items_do_not_count(prefix);
        let rest = readable(prefix);
        if regular_file(item) is Some {
            let all = readable(items);
            assert(all == rest.push(item));
            assert(all.drop_last() =~= rest);
            let end = all.len() - 1;
            assert(all[end] == item && items[last] == item);
            assert(forall|j: int| 0 <= j < end ==> all[j] == rest[j]);
            assert(forall|j: int| 0 <= j < last ==> items[j] == prefix[j]);
            if let Some(link) = hard_link(item) {
                lemma_links_are_readable(prefix, link);
                if seen_before(items, last) {
                    let j = choose|j: int|
                        0 <= j < last && hard_link(#[trigger] items[j]) == hard_link(items[last]);
                    assert(hard_link(prefix[j]) == Some(link));
                    let k = choose|k: int|
                        0 <= k < rest.len() && hard_link(#[trigger] rest[k]) == Some(link);
                    assert(hard_link(all[k]) == hard_link(all[end]));
                }
                if seen_before(all, end) {
                    let j = choose|j: int|
                        0 <= j < end && hard_link(#[trigger] all[j]) == hard_link(all[end]);
                    assert(hard_link(rest[j]) == Some(link));
                    let k = choose|k: int|
                        0 <= k < prefix.len() && hard_link(#[trigger] prefix[k]) == Some(link);
                    assert(hard_link(items[k]) == hard_link(items[last]));
                }
            }
        } else {
            assert(readable(items) == rest);
        }
    }
}

/// Files stand with the strongest first in one way only.
proof fn lemma_one_order(a: Seq<FoundFileView>, b: Seq<FoundFileView>)
    requires
        strongest_first(a),
        strongest_first(b),
        a.to_multiset() == b.to_multiset(),
    ensures
        a == b,
    decreases a.len(),
{
    vstd::seq_lib::to_multiset_len(a);
    vstd::seq_lib::to_multiset_len(b);
    if a.len() > 0 {
        lemma_last_yields_first(a);
        lemma_last_yields_first(b);
        assert(first_to_yield(a.to_multiset(), b.last()));
        let (x, y) = (a.drop_last(), b.drop_last());
        assert(x =~= a.remove(a.len() - 1));
        assert(y =~= b.remove(b.len() - 1));
        vstd::seq_lib::to_multiset_remove(a, a.len() - 1);
        vstd::seq_lib::to_multiset_remove(b, b.len() - 1);
        assert forall|i: int, j: int| 0 <= i < j < x.len() implies !#[trigger] yields_to(
            x[i],
            x[j],
        ) by {
            assert(!yields_to(a[i], a[j]));
        }
        assert forall|i: int, j: int| 0 <= i < j < y.len() implies !#[trigger] yields_to(
            y[i],
            y[j],
        ) by {
            assert(!yields_to(b[i], b[j]));
        }
        lemma_one_order(x, y);
        assert(a =~= x.push(a.last()));
        assert(b =~= y.push(b.last()));
    } else {
        assert(a =~= b);
    }
}

/// Walks with the same files that count, in the same order, have one listing:
/// what is listed depends on nothing else.
pub proof fn law_one_walk_has_one_listing(
    list: Seq<FileEntryView>,
    items: Seq<WalkItemView>,
    other_list: Seq<FileEntryView>,
    other_items: Seq<WalkItemView>,
    n: nat,
)
    requires
        is_listing(list, items, n),
        is_listing(other_list, other_items, n),
        counted(items) == counted(other_items),
    ensures
        list == other_list,
{
    let a = choose|a: Seq<FoundFileView>| #[trigger]
        is_selection(a, items, n) && are_entries_of(list, a);
    let b = choose|b: Seq<FoundFileView>| #[trigger]
        is_selection(b, other_items, n) && are_entries_of(other_list, b);
    lemma_one_order(a, b);
    assert forall|i: int| 0 <= i < list.len() implies list[i] == other_list[i] by {
        assert(is_entry_of(list[i], a[i]) && is_entry_of(other_list[i], b[i]));
    }
    assert(list =~= other_list);
}

/// To leave out some of what is no readable regular file leaves the readable
/// regular files.
proof fn lemma_readable_of_fewer(items: Seq<WalkItemView>, keeps: spec_fn(WalkItemView) -> bool)
    requires
        forall|item: WalkItemView| #[trigger] regular_file(item) is Some ==> keeps(item),
    ensures
        readable(items.filter(keeps)) == readable(items),
    decreases items.len(),
{
    reveal(Seq::filter);
    if items.len() > 0 {
        let prefix = items.drop_last();
        let item = items.last();
        let fewer = prefix.filter(keeps);
        lemma_readable_of_fewer(prefix, keeps);
        if keeps(item) {
            assert(items.filter(keeps) == fewer.push(item));
            assert(fewer.push(item).drop_last() =~= fewer);
            assert(fewer.push(item).last() == item);
        } else {
            assert(regular_file(item) is None);
            assert(items.filter(keeps) == fewer);
        }
    }
}

/// What cannot be read, and what is no regular file, makes no difference: the
/// listing of a walk equals that of the same walk with any such items left out.
/// A walk of which nothing can be read, as that of a mount point that is
/// missing, lists nothing.
pub proof fn law_skipped_items_change_nothing(
    list: Seq<FileEntryView>,
    items: Seq<WalkItemView>,
    keeps: spec_fn(WalkItemView) -> bool,
    other_list: Seq<FileEntryView>,
    n: nat,
)
    requires
        is_listing(list, items, n),
        is_listing(other_list, items.filter(keeps), n),
        forall|item: WalkItemView| #[trigger] regular_file(item) is Some ==> keeps(item),
    ensures
        list == other_list,
        readable(items).len() == 0 ==> list.len() == 0,
{
    let fewer = items.filter(keeps);
    lemma_skipped_items_do_not_count(items);
    lemma_skipped_items_do_not_count(fewer);
    lemma_readable_of_fewer(items, keeps);
    law_one_walk_has_one_listing(list, items, other_list, fewer, n);
    law_listing_is_largest(list, items, n);
}

/// The elements of `s` that stand from `i` on are among those of `s`, and what
/// does not stand there stands before.
proof fn lemma_split_counts(s: Seq<FoundFileView>, i: int, x: FoundFileView)
    requires
        0 <= i <= s.len(),
    ensures
        s.take(i).to_multiset().count(x) <= s.to_multiset().count(x),
        !s.skip(i).contains(x) ==> s.take(i).to_multiset().count(x) == s.to_multiset().count(x),
{
    broadcast use vstd::multiset::group_multiset_axioms;

    assert(s =~= s.take(i) + s.skip(i));
    vstd::seq_lib::lemma_multiset_commutative(s.take(i), s.skip(i));
    vstd::seq_lib::to_multiset_contains(s.skip(i), x);
}

/// Of two selections of the same files the one is nowhere larger than the other.
proof fn lemma_sizes_agree(
    a: Seq<FoundFileView>,
    b: Seq<FoundFileView>,
    files: Seq<FoundFileView>,
    others: Seq<FoundFileView>,
    n: nat,
    m: nat,
    i: int,
)
    requires
        strongest_first(a),
        strongest_first(b),
        a.to_multiset() == kept(files, n),
        b.to_multiset() == kept(others, m),
        files.to_multiset() == others.to_multiset(),
        0 <= i < a.len(),
        i < b.len(),
    ensures
        a[i].size_bytes <= b[i].size_bytes,
{
    broadcast use vstd::multiset::group_multiset_axioms;

    if a[i].size_bytes > b[i].size_bytes {
        let size = a[i].size_bytes;
        law_largest_are_kept(files, n);
        law_largest_are_kept(others, m);
        let upper = a.take(i + 1);
        let lower = b.take(i);
        assert forall|x: FoundFileView| upper.to_multiset().count(x)
            <= lower.to_multiset().count(x) by {
            if upper.to_multiset().count(x) > 0 {
                vstd::seq_lib::to_multiset_contains(upper, x);
                let k = choose|k: int| 0 <= k < upper.len() && upper[k] == x;
                assert(k == i || !yields_to(a[k], a[i]));
                assert(a[k] == x && x.size_bytes >= size);
                lemma_split_counts(a, i + 1, x);
                assert(kept(files, n).count(x) <= files.to_multiset().count(x));
                if others.to_multiset().count(x) > b.to_multiset().count(x) {
                    vstd::seq_lib::to_multiset_contains(b, b[i]);
                    assert(b.contains(b[i]));
                    assert(kept(others, m).contains(b[i]));
                }
                assert(!b.skip(i).contains(x)) by {
                    if b.skip(i).contains(x) {
                        let j = choose|j: int| 0 <= j < b.skip(i).len() && b.skip(i)[j] == x;
                        assert(b[i + j] == x);
                        assert(j == 0 || !yields_to(b[i], b[i + j]));
                    }
                }
                lemma_split_counts(b, i, x);
            }
        }
        assert(upper.to_multiset().subset_of(lower.to_multiset()));
        vstd::seq_lib::to_multiset_len(upper);
        vstd::seq_lib::to_multiset_len(lower);
        vstd::multiset::axiom_len_sub(lower.to_multiset(), upper.to_multiset());
    }
}

/// A shorter listing of some files is, by its sizes, the front of a longer one,
/// in whatever order the two walks come across them.
pub proof fn law_shorter_listing_is_the_front(
    list: Seq<FileEntryView>,
    items: Seq<WalkItemView>,
    n: nat,
    longer: Seq<FileEntryView>,
    other_items: Seq<WalkItemView>,
    m: nat,
)
    requires
        is_listing(list, items, n),
        is_listing(longer, other_items, m),
        counted(items).to_multiset() == counted(other_items).to_multiset(),
        n <= m,
    ensures
        list.len() == if longer.len() < n { longer.len() } else { n },
        forall|i: int|
            0 <= i < list.len() ==> #[trigger] list[i].size_bytes == longer[i].size_bytes,
{
    let (files, others) = (counted(items), counted(other_items));
    vstd::seq_lib::to_multiset_len(files);
    vstd::seq_lib::to_multiset_len(others);
    law_listing_is_largest(list, items, n);
    law_listing_is_largest(longer, other_items, m);
    let a = choose|a: Seq<FoundFileView>| #[trigger]
        is_selection(a, items, n) && are_entries_of(list, a);
    let b = choose|b: Seq<FoundFileView>| #[trigger]
        is_selection(b, other_items, m) && are_entries_of(longer, b);
    assert forall|i: int| 0 <= i < list.len() implies #[trigger] list[i].size_bytes
        == longer[i].size_bytes by {
        lemma_sizes_agree(a, b, files, others, n, m, i);
        lemma_sizes_agree(b, a, others, files, m, n, i);
        assert(is_entry_of(list[i], a[i]) && is_entry_of(longer[i], b[i]));
    }
}

/// The sizes that are listed depend on the files alone, not on the order in
/// which a walk comes across them.
pub proof fn law_sizes_do_not_depend_on_the_walk(
    list: Seq<FileEntryView>,
    items: Seq<WalkItemView>,
    other_list: Seq<FileEntryView>,
    other_items: Seq<WalkItemView>,
    n: nat,
)
    requires
        is_listing(list, items, n),
        is_listing(other_list, other_items, n),
        counted(items).to_multiset() == counted(other_items).to_multiset(),
    ensures
        list.len() == other_list.len(),
        forall|i: int|
            0 <= i < list.len() ==> #[trigger] list[i].size_bytes == other_list[i].size_bytes,
{
    law_shorter_listing_is_the_front(list, items, n, other_list, other_items, n);
    law_shorter_listing_is_the_front(other_list, other_items, n, list, items, n);
}

/// A regular file is an entry that is one and whose metadata could be had, with
/// the path and the metadata of that entry; what has several names is known by
/// its device and inode.
pub proof fn law_regular_files_are_read(item: WalkItem, path: Seq<u8>, meta: FileMeta)
    ensures
        regular_file(item@) == Some((path, meta)) <==> (item matches WalkItem::Entry {
            is_file,
            path: bytes,
            metadata,
        } && is_file && bytes@ == path && metadata == Some(meta)),
        regular_file(item@) == Some((path, meta)) ==> hard_link(item@) == if meta.nlink > 1 {
            Some((meta.dev, meta.ino))
        } else {
            None
        },
        regular_file(item@) is None ==> hard_link(item@) is None,
        regular_file(item@) == Some((path, meta)) ==> found(item@).path == path && found(
            item@,
        ).size_bytes == meta.len,
{
}

/// Where the files of a walk that count stand in it.
spec fn counted_at(items: Seq<WalkItemView>) -> Seq<int>
    decreases items.len(),
{
    if items.len() == 0 {
        Seq::empty()
    } else if counts(items, items.len() - 1) {
        counted_at(items.drop_last()).push(items.len() - 1)
    } else {
        counted_at(items.drop_last())
    }
}

/// Whether an item counts depends on what comes up to it.
proof fn lemma_counts_of_longer(items: Seq<WalkItemView>, k: int)
    requires
        0 <= k < items.len() - 1,
    ensures
        counts(items, k) == counts(items.drop_last(), k),
{
    let prefix = items.drop_last();
    assert(forall|j: int| 0 <= j <= k ==> prefix[j] == items[j]);
    if seen_before(items, k) {
        let j = choose|j: int| 0 <= j < k && hard_link(#[trigger] items[j]) == hard_link(items[k]);
        assert(hard_link(prefix[j]) == hard_link(prefix[k]));
    }
    if seen_before(prefix, k) {
        let j = choose|j: int| 0 <= j < k && hard_link(#[trigger] prefix[j]) == hard_link(prefix[k]);
        assert(hard_link(items[j]) == hard_link(items[k]));
    }
}

/// Every file that counts stands where it was found, each in a place of its own.
proof fn lemma_counted_at(items: Seq<WalkItemView>)
    ensures
        counted_at(items).len() == counted(items).len(),
        forall|j: int|
            0 <= j < counted(items).len() ==> {
                let k = #[trigger] counted_at(items)[j];
                0 <= k < items.len() && counts(items, k) && counted(items)[j] == found(items[k])
            },
        forall|i: int, j: int|
            0 <= i < j < counted(items).len() ==> #[trigger] counted_at(items)[i]
                < #[trigger] counted_at(items)[j],
        forall|k: int|
            0 <= k < items.len() && #[trigger] counts(items, k) ==> counted_at(items).contains(k),
    decreases items.len(),
{
    if items.len() > 0 {
        let prefix = items.drop_last();
        let last = items.len() - 1;
        let (before, after) = (counted_at(prefix), counted_at(items));
        lemma_counted_at(prefix);
        assert forall|j: int| 0 <= j < counted(items).len() implies {
            let k = #[trigger] after[j];
            0 <= k < items.len() && counts(items, k) && counted(items)[j] == found(items[k])
        } by {
            if j < before.len() {
                assert(after[j] == before[j]);
                assert(counts(prefix, before[j]));
                lemma_counts_of_longer(items, before[j]);
                assert(counted(items)[j] == counted(prefix)[j]);
                assert(prefix[before[j]] == items[before[j]]);
            }
        }
        assert forall|i: int, j: int| 0 <= i < j < counted(items).len() implies #[trigger] after[i]
            < #[trigger] after[j] by {
            assert(after[i] == before[i]);
            if j < before.len() {
                assert(after[j] == before[j]);
            }
        }
        assert forall|k: int| 0 <= k < items.len() && #[trigger] counts(
            items,
            k,
        ) implies after.contains(k) by {
            if k < last {
                lemma_counts_of_longer(items, k);
                let j = choose|j: int| 0 <= j < before.len() && before[j] == k;
                assert(after[j] == k);
            } else {
                assert(after[before.len() as int] == k);
            }
        }
    }
}

/// Files that are among others, none more often than there, are some of those,
/// each in a place of its own. What stands in a place that is left over occurs
/// there more often.
proof fn lemma_places(a: Seq<FoundFileView>, b: Seq<FoundFileView>) -> (at: Seq<int>)
    requires
        a.to_multiset().subset_of(b.to_multiset()),
    ensures
        at.len() == a.len(),
        at.no_duplicates(),
        forall|i: int|
            0 <= i < a.len() ==> 0 <= #[trigger] at[i] < b.len() && b[at[i]] == a[i],
        forall|j: int|
            0 <= j < b.len() && !at.contains(j) ==> a.to_multiset().count(#[trigger] b[j])
                < b.to_multiset().count(b[j]),
    decreases a.len(),
{
    broadcast use vstd::multiset::group_multiset_axioms;

    if a.len() == 0 {
        vstd::seq_lib::to_multiset_len(a);
        assert forall|j: int| 0 <= j < b.len() implies a.to_multiset().count(#[trigger] b[j])
            < b.to_multiset().count(b[j]) by {
            assert(b.contains(b[j]));
            vstd::seq_lib::to_multiset_contains(b, b[j]);
            vstd::seq_lib::to_multiset_contains(a, b[j]);
        }
        Seq::empty()
    } else {
        let last = a.len() - 1;
        let x = a[last];
        let front = a.drop_last();
        assert(a.contains(x));
        vstd::seq_lib::to_multiset_contains(a, x);
        vstd::seq_lib::to_multiset_contains(b, x);
        let k = choose|k: int| 0 <= k < b.len() && b[k] == x;
        let rest = b.remove(k);
        vstd::seq_lib::to_multiset_remove(b, k);
        assert(front =~= a.remove(last));
        vstd::seq_lib::to_multiset_remove(a, last);
        assert(front.to_multiset() == a.to_multiset().remove(x));
        assert(rest.to_multiset() == b.to_multiset().remove(x));
        assert forall|y: FoundFileView| front.to_multiset().count(y) <= rest.to_multiset().count(
            y,
        ) by {
            assert(a.to_multiset().count(y) <= b.to_multiset().count(y));
        }
        let before = lemma_places(front, rest);
        let at = Seq::new(
            a.len(),
            |i: int|
                if i == last {
                    k
                } else if before[i] < k {
                    before[i]
                } else {
                    before[i] + 1
                },
        );
        assert forall|i: int| 0 <= i < a.len() implies 0 <= #[trigger] at[i] < b.len() && b[at[i]]
            == a[i] by {
            if i < last {
                assert(rest[before[i]] == front[i]);
            }
        }
        assert(at.no_duplicates()) by {
            assert forall|i: int, j: int| 0 <= i < at.len() && 0 <= j < at.len() && i
                != j implies at[i] != at[j] by {
                if i < last && j < last {
                    assert(before[i] != before[j]);
                }
            }
        }
        assert forall|j: int| 0 <= j < b.len() && !at.contains(j) implies a.to_multiset().count(
            #[trigger] b[j],
        ) < b.to_multiset().count(b[j]) by {
            assert(at[last] == k);
            assert(j != k);
            let m = if j < k { j } else { j - 1 };
            assert(rest[m] == b[j]);
            if before.contains(m) {
                let i = choose|i: int| 0 <= i < before.len() && before[i] == m;
                assert(at[i] == j);
            }
            assert(front.to_multiset().count(rest[m]) < rest.to_multiset().count(rest[m]));
        }
        at
    }
}

/// Every entry of a listing is a regular file of the walk, each another one,
/// listed with its exact length and its path as text; of the names of one file
/// it is the first that the walk comes across. They stand with the longest
/// first, and of those of one length the one whose path comes last. What is
/// left out is no longer than anything listed, and nothing is left out while
/// there is room.
pub proof fn law_listing_shows_the_walk(
    list: Seq<FileEntryView>,
    items: Seq<WalkItemView>,
    n: nat,
) -> (origin: Seq<int>)
    requires
        is_listing(list, items, n),
    ensures
        list.len() <= n,
        origin.len() == list.len(),
        origin.no_duplicates(),
        forall|i: int|
            0 <= i < list.len() ==> 0 <= #[trigger] origin[i] < items.len() && (regular_file(
                items[origin[i]],
            ) matches Some((path, meta)) && list[i].size_bytes == meta.len && list[i].path
                == lossy_text(path) && (valid_utf8(path) ==> list[i].path == decode_utf8(path))
                && (meta.nlink <= 1 || forall|j: int|
                0 <= j < origin[i] ==> (regular_file(#[trigger] items[j]) matches Some((_, other))
                    ==> other.nlink <= 1 || other.dev != meta.dev || other.ino != meta.ino))),
        forall|i: int, j: int|
            0 <= i < j < list.len() ==> {
                let (p, q) = (
                    regular_file(items[#[trigger] origin[i]]).unwrap().0,
                    regular_file(items[#[trigger] origin[j]]).unwrap().0,
                );
                list[i].size_bytes > list[j].size_bytes || list[i].size_bytes
                    == list[j].size_bytes && !path_before(p, q)
            },
        forall|k: int|
            0 <= k < items.len() && !origin.contains(k) ==> (regular_file(#[trigger] items[k])
                matches Some((path, meta)) ==> ((meta.nlink <= 1 || forall|j: int|
                0 <= j < k ==> (regular_file(#[trigger] items[j]) matches Some((_, other))
                    ==> other.nlink <= 1 || other.dev != meta.dev || other.ino != meta.ino))
                ==> list.len() == n && forall|i: int|
                0 <= i < list.len() ==> meta.len <= (#[trigger] list[i]).size_bytes)),
{
    broadcast use vstd::seq_lib::group_to_multiset_ensures;

    let files = choose|files: Seq<FoundFileView>| #[trigger]
        is_selection(files, items, n) && are_entries_of(list, files);
    let all = counted(items);
    let places = counted_at(items);
    law_selection_is_largest(files, items, n);
    lemma_counted_at(items);
    let at = lemma_places(files, all);
    let origin = Seq::new(files.len(), |i: int| places[at[i]]);
    assert(origin.no_duplicates()) by {
        assert forall|i: int, j: int| 0 <= i < origin.len() && 0 <= j < origin.len() && i
            != j implies origin[i] != origin[j] by {
            assert(at[i] != at[j]);
            if at[i] < at[j] {
                assert(places[at[i]] < places[at[j]]);
            } else {
                assert(places[at[j]] < places[at[i]]);
            }
        }
    }
    assert forall|i: int| 0 <= i < list.len() implies 0 <= #[trigger] origin[i] < items.len() && (
    regular_file(items[origin[i]]) matches Some((path, meta)) && list[i].size_bytes == meta.len
        && list[i].path == lossy_text(path) && (valid_utf8(path) ==> list[i].path == decode_utf8(
        path,
    )) && (meta.nlink <= 1 || forall|j: int|
        0 <= j < origin[i] ==> (regular_file(#[trigger] items[j]) matches Some((_, other))
            ==> other.nlink <= 1 || other.dev != meta.dev || other.ino != meta.ino))) by {
        let k = places[at[i]];
        assert(counts(items, k) && all[at[i]] == found(items[k]));
        assert(is_entry_of(list[i], files[i]));
        let (path, meta) = regular_file(items[k]).unwrap();
        if meta.nlink > 1 {
            assert forall|j: int| 0 <= j < k implies (regular_file(#[trigger] items[j]) matches
                Some((_, other)) ==> other.nlink <= 1 || other.dev != meta.dev || other.ino
                != meta.ino) by {
                if hard_link(items[j]) == hard_link(items[k]) {
                    assert(seen_before(items, k));
                }
            }
        }
    }
    assert forall|i: int, j: int| 0 <= i < j < list.len() implies {
        let (p, q) = (
            regular_file(items[#[trigger] origin[i]]).unwrap().0,
            regular_file(items[#[trigger] origin[j]]).unwrap().0,
        );
        list[i].size_bytes > list[j].size_bytes || list[i].size_bytes == list[j].size_bytes
            && !path_before(p, q)
    } by {
        assert(!yields_to(files[i], files[j]));
        assert(is_entry_of(list[i], files[i]) && is_entry_of(list[j], files[j]));
        assert(all[at[i]] == found(items[places[at[i]]]));
        assert(all[at[j]] == found(items[places[at[j]]]));
    }
    assert forall|k: int| 0 <= k < items.len() && !origin.contains(k) implies (regular_file(
        #[trigger] items[k],
    ) matches Some((path, meta)) ==> ((meta.nlink <= 1 || forall|j: int|
        0 <= j < k ==> (regular_file(#[trigger] items[j]) matches Some((_, other)) ==> other.nlink
            <= 1 || other.dev != meta.dev || other.ino != meta.ino)) ==> list.len() == n
        && forall|i: int| 0 <= i < list.len() ==> meta.len <= (#[trigger] list[i]).size_bytes)) by {
        if let Some((path, meta)) = regular_file(items[k]) {
            if meta.nlink <= 1 || forall|j: int|
                0 <= j < k ==> (regular_file(#[trigger] items[j]) matches Some((_, other))
                    ==> other.nlink <= 1 || other.dev != meta.dev || other.ino != meta.ino) {
                if seen_before(items, k) {
                    let j = choose|j: int|
                        0 <= j < k && hard_link(#[trigger] items[j]) == hard_link(items[k]);
                    assert(regular_file(items[j]) is Some);
                }
                assert(counts(items, k));
                let m = choose|m: int| 0 <= m < places.len() && places[m] == k;
                if at.contains(m) {
                    let i = choose|i: int| 0 <= i < at.len() && at[i] == m;
                    assert(origin[i] == k);
                }
                assert(all[m] == found(items[k]));
                let out = all[m];
                assert(files.to_multiset().count(out) < all.to_multiset().count(out));
                if all.len() <= n {
                    lemma_all_kept_while_room(all, n);
                }
                assert forall|i: int| 0 <= i < list.len() implies meta.len <= (
                #[trigger] list[i]).size_bytes by {
                    assert(is_entry_of(list[i], files[i]));
                    assert(out.size_bytes <= files[i].size_bytes);
                }
            }
        }
    }
    origin
}

/// What a scan lists, told by the items of the walk: every entry is a regular
/// file among them, each another one, with its exact length and its path as
/// text, the longest first. A regular file that is not listed, and is not
/// another name of an earlier one, is no longer than anything listed, and the
/// list is then as long as it may be.
pub proof fn law_scan_lists_the_longest_files(
    items: Vec<WalkItem>,
    top_n: usize,
    list: Vec<FileEntry>,
) -> (origin: Seq<int>)
    requires
        call_ensures(scan_mount, (items, top_n), list),
    ensures
        list@.len() <= top_n,
        origin.len() == list@.len(),
        origin.no_duplicates(),
        forall|i: int|
            0 <= i < list@.len() ==> 0 <= #[trigger] origin[i] < items@.len() && (items@[origin[i]]
                matches WalkItem::Entry { is_file, path, metadata: Some(meta) } && is_file
                && list@[i].size_bytes == meta.len && list@[i].path@ == lossy_text(path@) && (
            valid_utf8(path@) ==> list@[i].path@ == decode_utf8(path@)) && (meta.nlink <= 1
                || forall|j: int|
                0 <= j < origin[i] ==> (#[trigger] items@[j] matches WalkItem::Entry {
                    is_file: file,
                    path: _,
                    metadata: Some(other),
                } ==> !file || other.nlink <= 1 || other.dev != meta.dev || other.ino
                    != meta.ino))),
        forall|i: int, j: int|
            0 <= i < j < list@.len() ==> (#[trigger] list@[i]).size_bytes >= (
            #[trigger] list@[j]).size_bytes,
        forall|k: int|
            0 <= k < items@.len() && !origin.contains(k) ==> (#[trigger] items@[k] matches
                WalkItem::Entry { is_file, path, metadata: Some(meta) } ==> (is_file && (meta.nlink
                <= 1 || forall|j: int|
                0 <= j < k ==> (#[trigger] items@[j] matches WalkItem::Entry {
                    is_file: file,
                    path: _,
                    metadata: Some(other),
                } ==> !file || other.nlink <= 1 || other.dev != meta.dev || other.ino != meta.ino))
                ==> list@.len() == top_n && forall|i: int|
                0 <= i < list@.len() ==> meta.len <= (#[trigger] list@[i]).size_bytes)),
{
    let (shown, walk) = (views(list@), views(items@));
    assert(shown.len() == list@.len() && walk.len() == items@.len());
    assert forall|i: int| 0 <= i < list@.len() implies shown[i] == (#[trigger] list@[i])@ by {}
    assert forall|k: int| 0 <= k < items@.len() implies walk[k] == (#[trigger] items@[k])@ by {}
    let origin = law_listing_shows_the_walk(shown, walk, top_n as nat);
    assert forall|i: int| 0 <= i < list@.len() implies 0 <= #[trigger] origin[i] < items@.len() && (
    items@[origin[i]] matches WalkItem::Entry { is_file, path, metadata: Some(meta) } && is_file
        && list@[i].size_bytes == meta.len && list@[i].path@ == lossy_text(path@) && (valid_utf8(
        path@,
    ) ==> list@[i].path@ == decode_utf8(path@)) && (meta.nlink <= 1 || forall|j: int|
        0 <= j < origin[i] ==> (#[trigger] items@[j] matches WalkItem::Entry {
            is_file: file,
            path: _,
            metadata: Some(other),
        } ==> !file || other.nlink <= 1 || other.dev != meta.dev || other.ino != meta.ino))) by {
        let k = origin[i];
        assert(walk[k] == items@[k]@ && shown[i] == list@[i]@);
        let meta = regular_file(walk[k]).unwrap().1;
        if meta.nlink > 1 {
            assert forall|j: int| 0 <= j < k implies (#[trigger] items@[j] matches WalkItem::Entry {
                is_file: file,
                path: _,
                metadata: Some(other),
            } ==> !file || other.nlink <= 1 || other.dev != meta.dev || other.ino != meta.ino) by {
                assert(walk[j] == items@[j]@);
            }
        }
    }
    assert forall|i: int, j: int| 0 <= i < j < list@.len() implies (#[trigger] list@[i]).size_bytes
        >= (#[trigger] list@[j]).size_bytes by {
        assert(shown[i] == list@[i]@ && shown[j] == list@[j]@);
        let (p, q) = (origin[i], origin[j]);
    }
    assert forall|k: int| 0 <= k < items@.len() && !origin.contains(k) implies (#[trigger] items@[k]
        matches WalkItem::Entry { is_file, path, metadata: Some(meta) } ==> (is_file && (meta.nlink
        <= 1 || forall|j: int|
        0 <= j < k ==> (#[trigger] items@[j] matches WalkItem::Entry {
            is_file: file,
            path: _,
            metadata: Some(other),
        } ==> !file || other.nlink <= 1 || other.dev != meta.dev || other.ino != meta.ino))
        ==> list@.len() == top_n && forall|i: int|
        0 <= i < list@.len() ==> meta.len <= (#[trigger] list@[i]).size_bytes)) by {
        assert(walk[k] == items@[k]@);
        if let WalkItem::Entry { is_file, path, metadata: Some(meta) } = items@[k] {
            if is_file && (meta.nlink <= 1 || forall|j: int|
                0 <= j < k ==> (#[trigger] items@[j] matches WalkItem::Entry {
                    is_file: file,
                    path: _,
                    metadata: Some(other),
                } ==> !file || other.nlink <= 1 || other.dev != meta.dev || other.ino
                    != meta.ino)) {
                assert(regular_file(walk[k]) == Some((path@, meta)));
                assert forall|j: int| 0 <= j < k && meta.nlink > 1 implies (regular_file(
                    #[trigger] walk[j],
                ) matches Some((_, other)) ==> other.nlink <= 1 || other.dev != meta.dev
                    || other.ino != meta.ino) by {
                    assert(walk[j] == items@[j]@);
                }
                assert forall|i: int| 0 <= i < list@.len() implies meta.len <= (
                #[trigger] list@[i]).size_bytes by {
                    assert(shown[i] == list@[i]@);
                }
            }
        }
    }
    origin
}

/// There is a place for one more file.
proof fn lemma_place_for(files: Seq<FoundFileView>, file: FoundFileView) -> (at: int)
    requires
        strongest_first(files),
    ensures
        0 <= at <= files.len(),
        strongest_first(files.insert(at, file)),
        files.insert(at, file).to_multiset() == files.to_multiset().insert(file),
    decreases files.len(),
{
    if files.len() > 0 && yields_to(files.last(), file) {
        let front = files.drop_last();
        assert forall|i: int, j: int| 0 <= i < j < front.len() implies !#[trigger] yields_to(
            front[i],
            front[j],
        ) by {
            assert(!yields_to(files[i], files[j]));
        }
        let at = lemma_place_for(front, file);
        let (less, more) = (front.insert(at, file), files.insert(at, file));
        assert(more =~= less.push(files.last()));
        assert forall|i: int, j: int| 0 <= i < j < more.len() implies !#[trigger] yields_to(
            more[i],
            more[j],
        ) by {
            if j < less.len() {
                assert(!yields_to(less[i], less[j]));
            } else if i == at {
                lemma_yield_order(file, files.last());
            } else {
                let k = if i < at { i } else { i - 1 };
                assert(!yields_to(files[k], files[files.len() - 1]));
            }
        }
        vstd::seq_lib::to_multiset_insert(files, at, file);
        at
    } else {
        let at = files.len() as int;
        let more = files.insert(at, file);
        assert forall|i: int, j: int| 0 <= i < j < more.len() implies !#[trigger] yields_to(
            more[i],
            more[j],
        ) by {
            if j < files.len() {
                assert(!yields_to(files[i], files[j]));
            } else if yields_to(files[i], file) {
                // What follows is no stronger, so the last would yield to it too.
                let last = files.len() - 1;
                if i < last {
                    assert(!yields_to(files[i], files[last]));
                    lemma_yield_order(files[i], files[last]);
                    if files[i] != files[last] {
                        lemma_yield_transitive(files[last], files[i], file);
                    }
                }
            }
        }
        vstd::seq_lib::to_multiset_insert(files, at, file);
        at
    }
}

/// How files are listed follows from what they are.
proof fn lemma_entries_agree(
    list: Seq<FileEntryView>,
    files: Seq<FoundFileView>,
    other_list: Seq<FileEntryView>,
    others: Seq<FoundFileView>,
    i: int,
    j: int,
)
    requires
        are_entries_of(list, files),
        are_entries_of(other_list, others),
        0 <= i < files.len(),
        0 <= j < others.len(),
        files[i] == others[j],
    ensures
        list[i] == other_list[j],
{
    assert(is_entry_of(list[i], files[i]) && is_entry_of(other_list[j], others[j]));
    assert(list[i] =~= other_list[j]);
}

/// What one more item of the walk does to the listing. It does nothing if it is
/// no regular file that could be read, or is another name of an earlier one.
/// While there is room, one entry is added. Once there is none, a file that is
/// longer than the last of the list takes the place of that one, and a file
/// that is not, changes nothing, of one length with it or not.
pub proof fn law_one_more_item(
    list: Seq<FileEntryView>,
    items: Seq<WalkItemView>,
    item: WalkItemView,
    after: Seq<FileEntryView>,
    n: nat,
) -> (at: int)
    requires
        is_listing(list, items, n),
        is_listing(after, items.push(item), n),
    ensures
        regular_file(item) is None ==> after == list,
        regular_file(item) matches Some((path, meta)) ==> {
            let fresh = meta.nlink <= 1 || forall|j: int|
                0 <= j < items.len() ==> (regular_file(#[trigger] items[j]) matches Some((_, other))
                    ==> other.nlink <= 1 || other.dev != meta.dev || other.ino != meta.ino);
            let longer = n > 0 && meta.len > list.last().size_bytes;
            &&& !fresh ==> after == list
            &&& fresh && list.len() == n && !longer ==> after == list
            &&& fresh && (list.len() < n || longer) ==> 0 <= at < after.len()
                && after[at].size_bytes == meta.len && after[at].path == lossy_text(path)
                && after.remove(at) == if list.len() < n {
                list
            } else {
                list.drop_last()
            }
        },
{
    let more = items.push(item);
    let last = items.len() as int;
    assert(more.drop_last() =~= items);
    assert(more[last] == item && more.last() == item);
    let a = choose|a: Seq<FoundFileView>| #[trigger]
        is_selection(a, items, n) && are_entries_of(list, a);
    let b = choose|b: Seq<FoundFileView>| #[trigger]
        is_selection(b, more, n) && are_entries_of(after, b);
    law_selection_is_largest(a, items, n);
    vstd::seq_lib::to_multiset_len(a);
    assert(forall|j: int| 0 <= j < last ==> more[j] == items[j]);
    if !counts(more, last) {
        law_one_walk_has_one_listing(list, items, after, more, n);
        if let Some((path, meta)) = regular_file(item) {
            assert(seen_before(more, last));
            let j = choose|j: int|
                0 <= j < last && hard_link(#[trigger] more[j]) == hard_link(more[last]);
            assert(regular_file(items[j]) is Some);
        }
        0
    } else {
        let (path, meta) = regular_file(item).unwrap();
        let file = found(item);
        assert(file.size_bytes == meta.len && file.path == path);
        assert(meta.nlink <= 1 || forall|j: int|
            0 <= j < items.len() ==> (regular_file(#[trigger] items[j]) matches Some((_, other))
                ==> other.nlink <= 1 || other.dev != meta.dev || other.ino != meta.ino)) by {
            if meta.nlink > 1 {
                assert forall|j: int| 0 <= j < items.len() implies (regular_file(
                    #[trigger] items[j],
                ) matches Some((_, other)) ==> other.nlink <= 1 || other.dev != meta.dev
                    || other.ino != meta.ino) by {
                    assert(more[j] == items[j]);
                    if hard_link(more[j]) == hard_link(more[last]) {
                        assert(seen_before(more, last));
                    }
                }
            }
        }
        let before = counted(items);
        assert(counted(more) == before.push(file));
        assert(before.push(file).drop_last() =~= before);
        assert(before.push(file).last() == file);
        if a.len() < n {
            let at = lemma_place_for(a, file);
            lemma_one_order(b, a.insert(at, file));
            lemma_entry_added(list, a, after, b, file, at);
            at
        } else if n > 0 {
            lemma_last_yields_first(a);
            assert(is_entry_of(list[a.len() - 1], a[a.len() - 1]));
            if a.last().size_bytes < file.size_bytes {
                let front = a.drop_last();
                assert(front =~= a.remove(a.len() - 1));
                vstd::seq_lib::to_multiset_remove(a, a.len() - 1);
                assert forall|i: int, j: int| 0 <= i < j < front.len() implies !#[trigger] yields_to(
                    front[i],
                    front[j],
                ) by {
                    assert(!yields_to(a[i], a[j]));
                }
                let at = lemma_place_for(front, file);
                lemma_one_order(b, front.insert(at, file));
                assert forall|i: int| 0 <= i < front.len() implies is_entry_of(
                    #[trigger] list.drop_last()[i],
                    front[i],
                ) by {
                    assert(is_entry_of(list[i], a[i]));
                }
                assert(are_entries_of(list.drop_last(), front));
                lemma_entry_added(list.drop_last(), front, after, b, file, at);
                at
            } else {
                lemma_one_order(a, b);
                lemma_same_entries(list, after, a);
                0
            }
        } else {
            lemma_one_order(a, b);
            lemma_same_entries(list, after, a);
            0
        }
    }
}

/// Files are listed in one way.
proof fn lemma_same_entries(
    list: Seq<FileEntryView>,
    other_list: Seq<FileEntryView>,
    files: Seq<FoundFileView>,
)
    requires
        are_entries_of(list, files),
        are_entries_of(other_list, files),
    ensures
        list == other_list,
{
    assert forall|i: int| 0 <= i < list.len() implies list[i] == other_list[i] by {
        lemma_entries_agree(list, files, other_list, files, i, i);
    }
    assert(list =~= other_list);
}

/// One file more is one entry more.
proof fn lemma_entry_added(
    list: Seq<FileEntryView>,
    files: Seq<FoundFileView>,
    after: Seq<FileEntryView>,
    more: Seq<FoundFileView>,
    file: FoundFileView,
    at: int,
)
    requires
        are_entries_of(list, files),
        are_entries_of(after, more),
        0 <= at <= files.len(),
        more == files.insert(at, file),
    ensures
        at < after.len(),
        is_entry_of(after[at], file),
        after.remove(at) == list,
{
    assert(more[at] == file);
    assert(is_entry_of(after[at], more[at]));
    assert forall|i: int| 0 <= i < list.len() implies after.remove(at)[i] == list[i] by {
        let j = if i < at { i } else { i + 1 };
        assert(more[j] == files[i]);
        lemma_entries_agree(list, files, after, more, i, j);
    }
    assert(after.remove(at) =~= list);
}

/// One more item at the end of a walk does to what is listed what it does to
/// any listing of that walk.
pub proof fn law_scan_with_one_more_item(
    items: Vec<WalkItem>,
    list: Vec<FileEntry>,
    more: Vec<WalkItem>,
    item: WalkItem,
    after: Vec<FileEntry>,
    top_n: usize,
) -> (at: int)
    requires
        call_ensures(scan_mount, (items, top_n), list),
        more@ == items@.push(item),
        call_ensures(scan_mount, (more, top_n), after),
    ensures
        regular_file(item@) is None ==> views(after@) == views(list@),
        regular_file(item@) matches Some((path, meta)) ==> {
            let fresh = meta.nlink <= 1 || forall|j: int|
                0 <= j < items@.len() ==> (regular_file((#[trigger] items@[j])@) matches Some(
                    (_, other),
                ) ==> other.nlink <= 1 || other.dev != meta.dev || other.ino != meta.ino);
            let longer = top_n > 0 && meta.len > list@.last().size_bytes;
            &&& !fresh ==> views(after@) == views(list@)
            &&& fresh && list@.len() == top_n && !longer ==> views(after@) == views(list@)
            &&& fresh && (list@.len() < top_n || longer) ==> 0 <= at < after@.len()
                && after@[at].size_bytes == meta.len && after@[at].path@ == lossy_text(path)
                && views(after@).remove(at) == if list@.len() < top_n {
                views(list@)
            } else {
                views(list@).drop_last()
            }
        },
{
    let walk = views(items@);
    let (before, later) = (views(list@), views(after@));
    assert(views(more@) =~= walk.push(item@));
    assert(walk.len() == items@.len() && before.len() == list@.len() && later.len()
        == after@.len());
    let at = law_one_more_item(before, walk, item@, later, top_n as nat);
    if let Some((path, meta)) = regular_file(item@) {
        if forall|j: int|
            0 <= j < items@.len() ==> (regular_file((#[trigger] items@[j])@) matches Some(
                (_, other),
            ) ==> other.nlink <= 1 || other.dev != meta.dev || other.ino != meta.ino) {
            assert forall|j: int| 0 <= j < walk.len() implies (regular_file(#[trigger] walk[j])
                matches Some((_, other)) ==> other.nlink <= 1 || other.dev != meta.dev || other.ino
                != meta.ino) by {
                assert(walk[j] == items@[j]@);
            }
        }
        if forall|j: int|
            0 <= j < walk.len() ==> (regular_file(#[trigger] walk[j]) matches Some((_, other))
                ==> other.nlink <= 1 || other.dev != meta.dev || other.ino != meta.ino) {
            assert forall|j: int| 0 <= j < items@.len() implies (regular_file(
                (#[trigger] items@[j])@,
            ) matches Some((_, other)) ==> other.nlink <= 1 || other.dev != meta.dev || other.ino
                != meta.ino) by {
                assert(walk[j] == items@[j]@);
            }
        }
        if list@.len() > 0 {
            assert(before.last() == list@.last()@);
        }
        if 0 <= at < after@.len() {
            assert(later[at] == after@[at]@);
        }
    }
    at
}

/// A scan starts with nothing and with the number that it was given, takes the
/// items one after the other, each as it is, and ends with the listing of all of
/// them.
pub proof fn law_scan_follows_the_walk(
    top_n: usize,
    started: FileScan,
    scan: FileScan,
    item: WalkItem,
    next: FileScan,
    list: Vec<FileEntry>,
)
    requires
        call_ensures(FileScan::new, (top_n,), started),
        call_ensures(FileScan::offer, (scan, item), next),
        call_ensures(FileScan::finish, (scan,), list),
    ensures
        started.limit() == top_n,
        started.walked().len() == 0,
        next.limit() == scan.limit(),
        next.walked().len() == scan.walked().len() + 1,
        next.walked().drop_last() == scan.walked(),
        next.walked().last() == item@,
        is_listing(views(list@), scan.walked(), scan.limit()),
{
    assert(next.walked().drop_last() =~= scan.walked());
}

} // verus!
