//! The most recent scan result of each mount.

use vstd::prelude::*;

use crate::model::{option_view, views, FileEntry, FileEntryView};
use crate::text::{contains_text, same_text};

verus! {

/// What a finished scan of a mount found.
#[derive(Debug)]
pub struct ScanResult {
    pub files: Vec<FileEntry>,
    pub scanned_at: String,
}

/// The view of a `ScanResult`.
#[verifier::ext_equal]
pub struct ScanResultView {
    pub files: Seq<FileEntryView>,
    pub scanned_at: Seq<char>,
}

impl View for ScanResult {
    type V = ScanResultView;

    open spec fn view(&self) -> ScanResultView {
        ScanResultView { files: views(self.files@), scanned_at: self.scanned_at@ }
    }
}

impl Clone for ScanResult {
    fn clone(&self) -> (copy: Self)
        ensures
            copy@ == self@,
    {
        let copy = ScanResult { files: self.files.clone(), scanned_at: self.scanned_at.clone() };
        assert(views(copy.files@) =~= views(self.files@));
        copy
    }
}

/// Maps each mount point to the most recent scan result of that mount. The
/// sampler reads it when it assembles a snapshot; the scanner writes it after
/// every full walk.
pub struct LargestFilesCache {
    entries: Vec<(String, ScanResult)>,
}

/// Whether no mount point occurs twice.
spec fn distinct_keys(entries: Seq<(String, ScanResult)>) -> bool {
    forall|i: int, j: int|
        0 <= i < j < entries.len() ==> #[trigger] entries[i].0@ != #[trigger] entries[j].0@
}

/// Whether `entries` hold a result for `key`.
spec fn has_key(entries: Seq<(String, ScanResult)>, key: Seq<char>) -> bool {
    exists|i: int| 0 <= i < entries.len() && (#[trigger] entries[i]).0@ == key
}

/// Where `key` stands among `entries`.
spec fn position(entries: Seq<(String, ScanResult)>, key: Seq<char>) -> int {
    choose|i: int| 0 <= i < entries.len() && (#[trigger] entries[i]).0@ == key
}

/// What `entries` map mount points to.
spec fn as_map(entries: Seq<(String, ScanResult)>) -> Map<Seq<char>, ScanResultView> {
    Map::new(
        |key: Seq<char>| has_key(entries, key),
        |key: Seq<char>| entries[position(entries, key)].1@,
    )
}

/// The result that `scans` has for a mount point, if it has one.
pub open spec fn lookup(
    scans: Map<Seq<char>, ScanResultView>,
    mount_point: Seq<char>,
) -> Option<ScanResultView> {
    if scans.dom().contains(mount_point) {
        Some(scans[mount_point])
    } else {
        None
    }
}

impl View for LargestFilesCache {
    type V = Map<Seq<char>, ScanResultView>;

    closed spec fn view(&self) -> Map<Seq<char>, ScanResultView> {
        as_map(self.entries@)
    }
}

impl Default for LargestFilesCache {
    /// A cache without results.
    fn default() -> (cache: Self)
        ensures
            cache@ == Map::<Seq<char>, ScanResultView>::empty(),
    {
        let cache = LargestFilesCache { entries: Vec::new() };
        assert(cache@ =~= Map::<Seq<char>, ScanResultView>::empty());
        cache
    }
}

/// The place of `key` is the only entry with that key.
proof fn lemma_position(entries: Seq<(String, ScanResult)>, i: int)
    requires
        distinct_keys(entries),
        0 <= i < entries.len(),
    ensures
        has_key(entries, entries[i].0@),
        position(entries, entries[i].0@) == i,
{
    let key = entries[i].0@;
    let p = position(entries, key);
    assert(entries[i].0@ == key);
    assert(0 <= p < entries.len() && entries[p].0@ == key);
    if p < i {
        assert(entries[p].0@ != entries[i].0@);
    } else if i < p {
        assert(entries[i].0@ != entries[p].0@);
    }
}

/// One entry more with a key of its own adds that key to the map.
proof fn lemma_push(entries: Seq<(String, ScanResult)>, entry: (String, ScanResult))
    requires
        distinct_keys(entries),
        !has_key(entries, entry.0@),
    ensures
        distinct_keys(entries.push(entry)),
        as_map(entries.push(entry)) == as_map(entries).insert(entry.0@, entry.1@),
{
    let after = entries.push(entry);
    let last = entries.len() as int;
    assert(after[last] == entry);
    assert(forall|j: int| 0 <= j < last ==> after[j] == entries[j]);
    assert forall|j: int, k: int| 0 <= j < k < after.len() implies #[trigger] after[j].0@
        != #[trigger] after[k].0@ by {
        assert(entries[j] == after[j]);
        if k < last {
            assert(entries[k] == after[k]);
        }
    }
    lemma_position(after, last);
    assert forall|key: Seq<char>| key != entry.0@ implies has_key(after, key) == has_key(
        entries,
        key,
    ) && (has_key(after, key) ==> as_map(after)[key] == as_map(entries)[key]) by {
        if has_key(entries, key) {
            let j = position(entries, key);
            assert(entries[j].0@ == key);
            assert(after[j].0@ == key);
            lemma_position(after, j);
        }
        if has_key(after, key) {
            let j = position(after, key);
            assert(after[j].0@ == key);
            assert(entries[j].0@ == key);
        }
    }
    assert(as_map(after) =~= as_map(entries).insert(entry.0@, entry.1@));
}

impl LargestFilesCache {
    #[verifier::type_invariant]
    spec fn well_formed(self) -> bool {
        distinct_keys(self.entries@)
    }

    /// A cache without results.
    pub fn new() -> (cache: Self)
        ensures
            cache@ == Map::<Seq<char>, ScanResultView>::empty(),
    {
        Self::default()
    }

    /// The most recent result for `mount_point`, if there is one.
    pub fn get(&self, mount_point: &str) -> (found: Option<ScanResult>)
        ensures
            option_view(found) == lookup(self@, mount_point@),
    {
        proof {
            use_type_invariant(self);
        }
        let mut i: usize = 0;
        while i < self.entries.len()
            invariant
                i <= self.entries.len(),
                distinct_keys(self.entries@),
                forall|j: int| 0 <= j < i ==> (#[trigger] self.entries@[j]).0@ != mount_point@,
            decreases self.entries.len() - i,
        {
            if same_text(self.entries[i].0.as_str(), mount_point) {
                proof {
                    lemma_position(self.entries@, i as int);
                }
                return Some(self.entries[i].1.clone());
            }
            i = i + 1;
        }
        None
    }

    /// Makes `result` the most recent result for `mount_point`.
    pub fn put(&mut self, mount_point: String, result: ScanResult)
        ensures
            final(self)@ == old(self)@.insert(mount_point@, result@),
    {
        proof {
            use_type_invariant(&*self);
        }
        let ghost before = self.entries@;
        let mut entries: Vec<(String, ScanResult)> = Vec::new();
        std::mem::swap(&mut entries, &mut self.entries);
        let mut i: usize = 0;
        while i < entries.len() && !same_text(entries[i].0.as_str(), mount_point.as_str())
            invariant
                i <= entries.len(),
                entries@ == before,
                forall|j: int| 0 <= j < i ==> (#[trigger] before[j]).0@ != mount_point@,
            decreases entries.len() - i,
        {
            i = i + 1;
        }
        let ghost key = mount_point@;
        let ghost view = result@;
        if i < entries.len() {
            entries[i] = (mount_point, result);
        } else {
            entries.push((mount_point, result));
        }
        proof {
            let after = entries@;
            assert(after[i as int].0@ == key && after[i as int].1@ == view);
            assert(forall|j: int|
                0 <= j < before.len() && j != i ==> #[trigger] after[j] == before[j]);
            assert(after.len() == before.len() || after.len() == before.len() + 1 && i
                == before.len());
            assert(distinct_keys(after)) by {
                assert forall|j: int, k: int| 0 <= j < k < after.len() implies #[trigger] after[j].0@
                    != #[trigger] after[k].0@ by {
                    if i < before.len() {
                        assert(before[i as int].0@ == key);
                        assert(before[j].0@ != before[k].0@);
                    } else {
                        assert(before[j] == after[j]);
                        if k < before.len() {
                            assert(before[k] == after[k]);
                        }
                    }
                }
            }
            lemma_position(after, i as int);
            let expected = as_map(before).insert(key, view);
            assert forall|k: Seq<char>| #[trigger] as_map(after).dom().contains(k)
                <==> expected.dom().contains(k) by {
                if k != key && has_key(before, k) {
                    let j = position(before, k);
                    assert(before[j].0@ == k);
                    assert(j != i);
                    assert(after[j] == before[j]);
                }
                if k != key && has_key(after, k) {
                    let j = position(after, k);
                    assert(after[j].0@ == k);
                    assert(j != i);
                    assert(before[j] == after[j]);
                }
            }
            assert forall|k: Seq<char>| #[trigger] as_map(after).dom().contains(k) implies as_map(
                after,
            )[k] == expected[k] by {
                if k != key {
                    let j = position(after, k);
                    assert(after[j].0@ == k);
                    assert(j != i);
                    assert(before[j] == after[j]);
                    lemma_position(before, j);
                }
            }
            assert(as_map(after) =~= expected);
        }
        self.entries = entries;
    }

    /// Forgets the results of all mounts but those in `keep`.
    pub fn retain(&mut self, keep: &[String])
        ensures
            final(self)@ == old(self)@.restrict(views(keep@).to_set()),
    {
        proof {
            use_type_invariant(&*self);
        }
        let ghost before = self.entries@;
        let ghost wanted = views(keep@);
        let mut entries: Vec<(String, ScanResult)> = Vec::new();
        std::mem::swap(&mut entries, &mut self.entries);
        let mut left: Vec<(String, ScanResult)> = Vec::new();
        assert(as_map(left@) =~= as_map(before.take(0)).restrict(wanted.to_set()));
        for entry in iter: entries
            invariant
                iter.seq() == before,
                wanted == views(keep@),
                distinct_keys(before),
                distinct_keys(left@),
                as_map(left@) == as_map(before.take(iter.index())).restrict(wanted.to_set()),
        {
            proof {
                let seen = before.take(iter.index());
                assert(before.take(iter.index() + 1) =~= seen.push(entry));
                assert(distinct_keys(seen));
                assert(!as_map(seen).dom().contains(entry.0@)) by {
                    if has_key(seen, entry.0@) {
                        let k = position(seen, entry.0@);
                        assert(seen[k].0@ == entry.0@);
                        assert(before[k].0@ != before[iter.index()].0@);
                    }
                }
                assert(!as_map(left@).dom().contains(entry.0@));
                lemma_push(seen, entry);
                lemma_push(left@, entry);
            }
            if contains_text(keep, entry.0.as_str()) {
                left.push(entry);
            }
            assert(as_map(left@) =~= as_map(before.take(iter.index() + 1)).restrict(
                wanted.to_set(),
            ));
        }
        assert(before.take(before.len() as int) == before);
        self.entries = left;
    }
}

/// What was put is what is got back, and nothing else changes.
pub proof fn law_get_after_put(
    scans: Map<Seq<char>, ScanResultView>,
    mount_point: Seq<char>,
    result: ScanResultView,
    other: Seq<char>,
)
    ensures
        lookup(scans.insert(mount_point, result), mount_point) == Some(result),
        other != mount_point ==> lookup(scans.insert(mount_point, result), other) == lookup(
            scans,
            other,
        ),
{
}

/// What is retained is got back as before, and the rest is gone.
pub proof fn law_get_after_retain(
    scans: Map<Seq<char>, ScanResultView>,
    keep: Seq<Seq<char>>,
    mount_point: Seq<char>,
)
    ensures
        lookup(scans.restrict(keep.to_set()), mount_point) == if keep.contains(mount_point) {
            lookup(scans, mount_point)
        } else {
            None
        },
{
}

/// A result is found exactly where there is one, and is the one that is there.
pub proof fn law_lookup_finds_what_is_there(
    scans: Map<Seq<char>, ScanResultView>,
    mount_point: Seq<char>,
)
    ensures
        lookup(scans, mount_point) is Some <==> scans.dom().contains(mount_point),
        lookup(scans, mount_point) matches Some(scan) ==> scan.files == scans[mount_point].files
            && scan.scanned_at == scans[mount_point].scanned_at,
{
}

/// What a result holds is seen whole: its files in their order, and its time.
pub proof fn law_results_are_seen_whole(result: ScanResult)
    ensures
        result@.scanned_at == result.scanned_at@,
        result@.files.len() == result.files@.len(),
        forall|i: int|
            0 <= i < result.files@.len() ==> (#[trigger] result@.files[i]).path
                == result.files@[i].path@ && result@.files[i].size_bytes
                == result.files@[i].size_bytes,
{
}

/// Whoever puts a result for a mount gets that result back from the cache, with
/// every file in its place. What the cache says of any other mount is as before.
pub proof fn law_put_is_got_back(
    cache: &mut LargestFilesCache,
    mount_point: String,
    result: ScanResult,
    done: (),
    later: LargestFilesCache,
    asked: &str,
    found: Option<ScanResult>,
    earlier: LargestFilesCache,
    found_earlier: Option<ScanResult>,
)
    requires
        call_ensures(LargestFilesCache::put, (cache, mount_point, result), done),
        earlier@ == old(cache)@,
        later@ == final(cache)@,
        call_ensures(LargestFilesCache::get, (&earlier, asked), found_earlier),
        call_ensures(LargestFilesCache::get, (&later, asked), found),
    ensures
        asked@ == mount_point@ ==> {
            &&& found is Some
            &&& found.unwrap().scanned_at@ == result.scanned_at@
            &&& found.unwrap().files@.len() == result.files@.len()
            &&& forall|i: int|
                0 <= i < result.files@.len() ==> (#[trigger] found.unwrap().files@[i]).path@
                    == result.files@[i].path@ && found.unwrap().files@[i].size_bytes
                    == result.files@[i].size_bytes
        },
        asked@ != mount_point@ ==> option_view(found) == option_view(found_earlier),
        asked@ != mount_point@ ==> (found is Some <==> found_earlier is Some),
{
    if asked@ == mount_point@ {
        let got = found.unwrap();
        assert(got@ == result@);
        assert(got.files@.len() == got@.files.len() && result.files@.len() == result@.files.len());
        assert forall|i: int| 0 <= i < result.files@.len() implies (#[trigger] got.files@[i]).path@
            == result.files@[i].path@ && got.files@[i].size_bytes == result.files@[i].size_bytes by {
            assert(got@.files[i] == got.files@[i]@ && result@.files[i] == result.files@[i]@);
        }
    }
}

/// Of a mount that is retained the cache says what it said before, and of one
/// that is not it says nothing.
pub proof fn law_retained_is_got_back(
    cache: &mut LargestFilesCache,
    keep: &[String],
    done: (),
    later: LargestFilesCache,
    asked: &str,
    found: Option<ScanResult>,
    earlier: LargestFilesCache,
    found_earlier: Option<ScanResult>,
)
    requires
        call_ensures(LargestFilesCache::retain, (cache, keep), done),
        earlier@ == old(cache)@,
        later@ == final(cache)@,
        call_ensures(LargestFilesCache::get, (&earlier, asked), found_earlier),
        call_ensures(LargestFilesCache::get, (&later, asked), found),
    ensures
        forall|i: int|
            0 <= i < keep@.len() && (#[trigger] keep@[i])@ == asked@ ==> option_view(found)
                == option_view(found_earlier),
        (forall|i: int| 0 <= i < keep@.len() ==> (#[trigger] keep@[i])@ != asked@) ==> found is None,
        found is Some ==> found_earlier is Some,
{
    let wanted = views(keep@);
    assert forall|i: int| 0 <= i < keep@.len() && (#[trigger] keep@[i])@ == asked@ implies option_view(
        found,
    ) == option_view(found_earlier) by {
        assert(wanted[i] == asked@);
        assert(wanted.to_set().contains(asked@));
    }
    if forall|i: int| 0 <= i < keep@.len() ==> (#[trigger] keep@[i])@ != asked@ {
        assert forall|i: int| 0 <= i < wanted.len() implies wanted[i] != asked@ by {
            assert(wanted[i] == keep@[i]@);
        }
        assert(!wanted.to_set().contains(asked@));
    }
}

/// A new cache says nothing of any mount.
pub proof fn law_new_cache_is_empty(
    cache: LargestFilesCache,
    asked: &str,
    found: Option<ScanResult>,
)
    requires
        call_ensures(LargestFilesCache::new, (), cache) || call_ensures(
            <LargestFilesCache as Default>::default,
            (),
            cache,
        ),
        call_ensures(LargestFilesCache::get, (&cache, asked), found),
    ensures
        found is None,
{
}

/// A copy of a result holds what the result holds.
pub proof fn law_copied_results_hold_the_same(result: ScanResult, copy: ScanResult)
    requires
        call_ensures(<ScanResult as Clone>::clone, (&result,), copy),
    ensures
        copy.scanned_at@ == result.scanned_at@,
        views(copy.files@) == views(result.files@),
{
}

} // verus!
