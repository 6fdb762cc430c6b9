//! Snapshots: what a source samples, joined with what the scanner has found.

use vstd::prelude::*;

use crate::cache::{LargestFilesCache, ScanResultView};
use crate::clock::{is_clock_text, timestamp_now};
use crate::model::{option_view, views, Mount, MountView, Snapshot, SnapshotView};
use crate::source::{DiskSource, SampleError};

verus! {

/// The mounts of a sample; a sample that failed has none.
pub open spec fn sampled(sample: Result<Vec<Mount>, SampleError>) -> Seq<MountView> {
    match sample {
        Ok(mounts) => views(mounts@),
        Err(_) => Seq::empty(),
    }
}

/// `mount` with the most recent scan of it, if `scans` has one.
pub open spec fn with_scan(
    mount: MountView,
    scans: Map<Seq<char>, ScanResultView>,
) -> MountView {
    if scans.dom().contains(mount.mount_point) {
        let scan = scans[mount.mount_point];
        MountView {
            largest_files: scan.files,
            largest_files_scanned_at: Some(scan.scanned_at),
            ..mount
        }
    } else {
        mount
    }
}

/// `mounts`, each with the most recent scan of it.
pub open spec fn with_scans(
    mounts: Seq<MountView>,
    scans: Map<Seq<char>, ScanResultView>,
) -> Seq<MountView> {
    mounts.map_values(|mount: MountView| with_scan(mount, scans))
}

/// The snapshot of a host without mounts, as of now.
pub fn empty_snapshot(host: &str) -> (snapshot: Snapshot)
    ensures
        is_clock_text(snapshot.timestamp@),
        snapshot.timestamp@.len() >= 25,
        snapshot.host@ == host@,
        snapshot.mounts@.len() == 0,
{
    Snapshot { timestamp: timestamp_now(), host: host.to_owned(), mounts: Vec::new() }
}

/// The snapshot that `sample` and the scans in `cache` make up at `timestamp`.
pub fn assemble_snapshot(
    host: &str,
    sample: Result<Vec<Mount>, SampleError>,
    cache: &LargestFilesCache,
    timestamp: String,
) -> (snapshot: Snapshot)
    ensures
        snapshot@ == (SnapshotView {
            timestamp: timestamp@,
            host: host@,
            mounts: with_scans(sampled(sample), cache@),
        }),
{
    let mut mounts: Vec<Mount> = match sample {
        Ok(mounts) => mounts,
        Err(_) => Vec::new(),
    };
    let ghost before = views(mounts@);
    assert(before =~= sampled(sample));
    let mut i: usize = 0;
    while i < mounts.len()
        invariant
            i <= mounts.len() == before.len(),
            forall|j: int| 0 <= j < i ==> (#[trigger] mounts@[j])@ == with_scan(before[j], cache@),
            forall|j: int| i <= j < mounts.len() ==> (#[trigger] mounts@[j])@ == before[j],
        decreases mounts.len() - i,
    {
        if let Some(scan) = cache.get(mounts[i].mount_point.as_str()) {
            mounts[i].largest_files = scan.files;
            mounts[i].largest_files_scanned_at = Some(scan.scanned_at);
        }
        i = i + 1;
    }
    assert(views(mounts@) =~= with_scans(before, cache@));
    Snapshot { timestamp, host: host.to_owned(), mounts }
}

/// The snapshot of what `source` samples now. A sample that fails makes a
/// snapshot without mounts.
pub fn build_snapshot<S: DiskSource + ?Sized>(
    host: &str,
    source: &S,
    cache: &LargestFilesCache,
) -> (snapshot: Snapshot)
    ensures
        is_clock_text(snapshot.timestamp@),
        snapshot.timestamp@.len() >= 25,
        snapshot.host@ == host@,
        exists|sample: Result<Vec<Mount>, SampleError>|
            #[trigger] call_ensures(S::sample, (source,), sample) && views(snapshot.mounts@)
                == with_scans(sampled(sample), cache@),
{
    let sample = source.sample();
    assemble_snapshot(host, sample, cache, timestamp_now())
}

/// The snapshot to serve before the first periodic one, after a first sample of
/// `source` with the outcome `trial`: that of what `source` samples now, or one
/// without mounts if it could not be sampled.
pub fn snapshot_after_trial<S: DiskSource + ?Sized>(
    host: &str,
    trial: Result<Vec<Mount>, SampleError>,
    source: &S,
    cache: &LargestFilesCache,
) -> (snapshot: Snapshot)
    ensures
        is_clock_text(snapshot.timestamp@),
        snapshot.timestamp@.len() >= 25,
        snapshot.host@ == host@,
        trial is Err ==> snapshot.mounts@.len() == 0,
        trial is Ok ==> exists|sample: Result<Vec<Mount>, SampleError>|
            #[trigger] call_ensures(S::sample, (source,), sample) && views(snapshot.mounts@)
                == with_scans(sampled(sample), cache@),
{
    match trial {
        Ok(_) => build_snapshot(host, source, cache),
        Err(_) => empty_snapshot(host),
    }
}

/// The snapshot to serve before the first periodic one: that of what `source`
/// samples, or one without mounts if it cannot be sampled at all. The source is
/// sampled a second time for the snapshot itself.
pub fn initial_snapshot<S: DiskSource + ?Sized>(
    host: &str,
    source: &S,
    cache: &LargestFilesCache,
) -> (snapshot: Snapshot)
    ensures
        is_clock_text(snapshot.timestamp@),
        snapshot.timestamp@.len() >= 25,
        snapshot.host@ == host@,
        exists|trial: Result<Vec<Mount>, SampleError>|
            #[trigger] call_ensures(S::sample, (source,), trial) && call_ensures(
                snapshot_after_trial::<S>,
                (host, trial, source, cache),
                snapshot,
            ),
{
    let trial = source.sample();
    snapshot_after_trial(host, trial, source, cache)
}

/// The name to report for a host whose own name is `name`, if it has one that
/// is text.
pub fn host_or_default(name: Option<String>) -> (host: String)
    ensures
        host@ == match name {
            Some(own) => own@,
            None => "localhost"@,
        },
{
    match name {
        Some(own) => own,
        None => "localhost".to_owned(),
    }
}

/// The shortest time between two samples, in milliseconds.
pub const MIN_SAMPLE_PERIOD_MS: u64 = 50;

/// The time between two samples, in milliseconds, when `interval_ms` is asked
/// for.
pub open spec fn sample_period(interval_ms: u64) -> u64 {
    if interval_ms < MIN_SAMPLE_PERIOD_MS {
        MIN_SAMPLE_PERIOD_MS
    } else {
        interval_ms
    }
}

/// The time between two samples, in milliseconds, when `interval_ms` is asked
/// for.
pub fn sample_period_ms(interval_ms: u64) -> (period: u64)
    ensures
        period == sample_period(interval_ms),
{
    if interval_ms < MIN_SAMPLE_PERIOD_MS {
        MIN_SAMPLE_PERIOD_MS
    } else {
        interval_ms
    }
}

/// What the periodic sampler is told.
#[derive(Debug)]
pub enum SamplerEvent {
    /// It is to begin.
    Started,
    /// The ticker has ticked.
    Ticked,
    /// The source has been sampled, with this outcome.
    Sampled(Result<Vec<Mount>, SampleError>),
    /// The snapshot has been handed on.
    Delivered,
    /// Nobody is left to take snapshots.
    ReceiversGone,
}

/// What the periodic sampler wants done next.
#[derive(Debug)]
pub enum SamplerAction {
    /// Set up a ticker that ticks at once, and then once in every period, and
    /// wait for its first tick. `makes_up` says whether ticks that come late
    /// are made up for in a burst; if not, the next one is a period away.
    StartTicker { period_ms: u64, makes_up: bool },
    /// Wait for the next tick.
    AwaitTick,
    /// Sample the source.
    Sample,
    /// Hand this snapshot on.
    Publish(Snapshot),
    /// Stop sampling.
    Stop,
}

/// Whether `snapshot` is what `host` reports after `sample`, with the scans in
/// `scans`.
pub open spec fn is_snapshot_of(
    snapshot: Snapshot,
    host: Seq<char>,
    sample: Result<Vec<Mount>, SampleError>,
    scans: Map<Seq<char>, ScanResultView>,
) -> bool {
    &&& is_clock_text(snapshot.timestamp@)
    &&& snapshot.host@ == host
    &&& views(snapshot.mounts@) == with_scans(sampled(sample), scans)
}

/// Whether `action` is what `event` makes the sampler ask for. A tick makes one
/// sample, and every sample, a failed one too, makes one snapshot.
pub open spec fn is_sampler_step(
    event: SamplerEvent,
    interval_ms: u64,
    host: Seq<char>,
    scans: Map<Seq<char>, ScanResultView>,
    action: SamplerAction,
) -> bool {
    match event {
        SamplerEvent::Started => action == (SamplerAction::StartTicker {
            period_ms: sample_period(interval_ms),
            makes_up: false,
        }),
        SamplerEvent::Ticked => action == SamplerAction::Sample,
        SamplerEvent::Sampled(sample) => action matches SamplerAction::Publish(snapshot)
            && is_snapshot_of(snapshot, host, sample, scans),
        SamplerEvent::Delivered => action == SamplerAction::AwaitTick,
        SamplerEvent::ReceiversGone => action == SamplerAction::Stop,
    }
}

/// What the periodic sampler of `host` does upon `event`, when a sample is
/// asked for every `interval_ms`.
pub fn sampler_step(
    event: SamplerEvent,
    interval_ms: u64,
    host: &str,
    cache: &LargestFilesCache,
) -> (action: SamplerAction)
    ensures
        is_sampler_step(event, interval_ms, host@, cache@, action),
{
    match event {
        SamplerEvent::Started => SamplerAction::StartTicker {
            period_ms: sample_period_ms(interval_ms),
            makes_up: false,
        },
        SamplerEvent::Ticked => SamplerAction::Sample,
        SamplerEvent::Sampled(sample) => {
            let snapshot = assemble_snapshot(host, sample, cache, timestamp_now());
            SamplerAction::Publish(snapshot)
        },
        SamplerEvent::Delivered => SamplerAction::AwaitTick,
        SamplerEvent::ReceiversGone => SamplerAction::Stop,
    }
}

/// Whether `event` can be what comes of `action`.
pub open spec fn answers(action: SamplerAction, event: SamplerEvent) -> bool {
    match action {
        SamplerAction::StartTicker { .. } => event is Ticked,
        SamplerAction::AwaitTick => event is Ticked,
        SamplerAction::Sample => event is Sampled,
        SamplerAction::Publish(_) => event is Delivered || event is ReceiversGone,
        SamplerAction::Stop => false,
    }
}

/// Whether `actions` are what the sampler asks for upon one of `events` after
/// the other, each of them what came of the last action. `scans` holds the
/// scans that are known at each.
pub open spec fn is_sampler_run(
    events: Seq<SamplerEvent>,
    interval_ms: u64,
    host: Seq<char>,
    scans: Seq<Map<Seq<char>, ScanResultView>>,
    actions: Seq<SamplerAction>,
) -> bool {
    &&& actions.len() == events.len()
    &&& scans.len() == events.len()
    &&& events.len() > 0 ==> events[0] is Started
    &&& forall|i: int|
        0 <= i < events.len() ==> is_sampler_step(
            #[trigger] events[i],
            interval_ms,
            host,
            scans[i],
            actions[i],
        )
    &&& forall|i: int| 0 < i < events.len() ==> answers(actions[i - 1], #[trigger] events[i])
}

/// The sampler makes one snapshot of one sample for each tick, the first tick
/// among them, which comes at once; late ticks are not made up for. Samples
/// that fail do not end it: it asks for the next tick after every snapshot, and
/// stops only when nobody is left to take one.
pub proof fn law_every_tick_gives_a_snapshot(
    events: Seq<SamplerEvent>,
    interval_ms: u64,
    host: Seq<char>,
    scans: Seq<Map<Seq<char>, ScanResultView>>,
    actions: Seq<SamplerAction>,
    i: int,
)
    requires
        is_sampler_run(events, interval_ms, host, scans, actions),
        0 <= i < events.len(),
    ensures
        i == 0 ==> actions[i] == (SamplerAction::StartTicker {
            period_ms: sample_period(interval_ms),
            makes_up: false,
        }),
        i % 3 == 1 ==> events[i] is Ticked && actions[i] is Sample,
        i % 3 == 2 ==> (events[i] matches SamplerEvent::Sampled(sample) && actions[i] matches
            SamplerAction::Publish(snapshot) && is_snapshot_of(snapshot, host, sample, scans[i])),
        i > 0 && i % 3 == 0 ==> actions[i] == if events[i] is ReceiversGone {
            SamplerAction::Stop
        } else {
            SamplerAction::AwaitTick
        },
        actions[i] is Stop <==> events[i] is ReceiversGone,
        actions[i] is Stop ==> i == events.len() - 1,
    decreases i,
{
    assert(is_sampler_step(events[i], interval_ms, host, scans[i], actions[i]));
    if i > 0 {
        law_every_tick_gives_a_snapshot(events, interval_ms, host, scans, actions, i - 1);
        assert(answers(actions[i - 1], events[i]));
    }
    if i + 1 < events.len() {
        assert(answers(actions[i + 1 - 1], events[i + 1]));
    }
}

/// A sample that fails makes a snapshot without mounts.
pub proof fn law_failed_sample_gives_an_empty_snapshot(
    snapshot: Snapshot,
    host: Seq<char>,
    error: SampleError,
    scans: Map<Seq<char>, ScanResultView>,
)
    requires
        is_snapshot_of(snapshot, host, Err(error), scans),
    ensures
        snapshot.mounts@.len() == 0,
        snapshot.host@ == host,
{
    assert(views(snapshot.mounts@).len() == 0);
}

/// Until a scan has completed, mounts are reported as they were sampled.
pub proof fn law_unscanned_mounts_are_as_sampled(mounts: Seq<MountView>)
    ensures
        with_scans(mounts, Map::empty()) == mounts,
{
    assert(with_scans(mounts, Map::empty()) =~= mounts);
}

/// A scan tells of the files on a mount and when they were found, and nothing
/// else about it.
pub proof fn law_scans_touch_files_only(
    mount: MountView,
    scans: Map<Seq<char>, ScanResultView>,
)
    ensures
        with_scan(mount, scans).mount_point == mount.mount_point,
        with_scan(mount, scans).device == mount.device,
        with_scan(mount, scans).fs_type == mount.fs_type,
        with_scan(mount, scans).usage == mount.usage,
{
}

/// What was put into the cache for a mount is what a snapshot shows of that
/// mount, and of no other.
pub proof fn law_snapshots_show_what_was_put(
    mount: MountView,
    scans: Map<Seq<char>, ScanResultView>,
    mount_point: Seq<char>,
    result: ScanResultView,
)
    ensures
        mount.mount_point == mount_point ==> with_scan(mount, scans.insert(mount_point, result))
            == (MountView {
            largest_files: result.files,
            largest_files_scanned_at: Some(result.scanned_at),
            ..mount
        }),
        mount.mount_point != mount_point ==> with_scan(mount, scans.insert(mount_point, result))
            == with_scan(mount, scans),
{
}

/// Snapshots of the mounts that the cache retains are as before; the others
/// are shown without files.
pub proof fn law_snapshots_forget_what_is_dropped(
    mount: MountView,
    scans: Map<Seq<char>, ScanResultView>,
    keep: Set<Seq<char>>,
)
    ensures
        keep.contains(mount.mount_point) ==> with_scan(mount, scans.restrict(keep)) == with_scan(
            mount,
            scans,
        ),
        !keep.contains(mount.mount_point) ==> with_scan(mount, scans.restrict(keep)) == mount,
{
}

/// There are as many mounts as were sampled, and each is the sampled one in its
/// place with the scan of its own mount point, whatever stands before it.
pub proof fn law_each_mount_gets_its_own_scan(
    mounts: Seq<MountView>,
    scans: Map<Seq<char>, ScanResultView>,
    i: int,
)
    requires
        0 <= i < mounts.len(),
    ensures
        with_scans(mounts, scans).len() == mounts.len(),
        with_scans(mounts, scans)[i].mount_point == mounts[i].mount_point,
        with_scans(mounts, scans)[i].device == mounts[i].device,
        with_scans(mounts, scans)[i].fs_type == mounts[i].fs_type,
        with_scans(mounts, scans)[i].usage == mounts[i].usage,
        scans.dom().contains(mounts[i].mount_point) ==> with_scans(mounts, scans)[i].largest_files
            == scans[mounts[i].mount_point].files && with_scans(
            mounts,
            scans,
        )[i].largest_files_scanned_at == Some(scans[mounts[i].mount_point].scanned_at),
        !scans.dom().contains(mounts[i].mount_point) ==> with_scans(mounts, scans)[i] == mounts[i],
{
}

/// The mounts of a sample are those that it holds, in their order.
pub proof fn law_samples_are_taken_whole(sample: Result<Vec<Mount>, SampleError>)
    ensures
        sample is Err ==> sampled(sample).len() == 0,
        sample matches Ok(mounts) ==> sampled(sample).len() == mounts@.len() && forall|i: int|
            0 <= i < mounts@.len() ==> #[trigger] sampled(sample)[i] == mounts@[i]@,
{
}

/// A snapshot holds every sampled mount in its place, as it was sampled. A mount
/// of which the cache has a scan shows the files of that scan and its time; any
/// other shows what it was sampled with. After a failed sample there are none.
pub proof fn law_snapshot_joins_sample_and_cache(
    host: &str,
    sample: Result<Vec<Mount>, SampleError>,
    cache: &LargestFilesCache,
    timestamp: String,
    snapshot: Snapshot,
)
    requires
        call_ensures(assemble_snapshot, (host, sample, cache, timestamp), snapshot),
    ensures
        snapshot.timestamp@ == timestamp@,
        snapshot.host@ == host@,
        sample is Err ==> snapshot.mounts@.len() == 0,
        sample matches Ok(mounts) ==> snapshot.mounts@.len() == mounts@.len() && forall|i: int|
            0 <= i < mounts@.len() ==> {
                let (shown, mount) = (#[trigger] snapshot.mounts@[i], mounts@[i]);
                let point = mount.mount_point@;
                &&& shown.mount_point@ == point
                &&& shown.device@ == mount.device@
                &&& shown.fs_type@ == mount.fs_type@
                &&& shown.usage == mount.usage
                &&& cache@.dom().contains(point) ==> views(shown.largest_files@)
                    == cache@[point].files && option_view(shown.largest_files_scanned_at) == Some(
                    cache@[point].scanned_at,
                )
                &&& !cache@.dom().contains(point) ==> views(shown.largest_files@) == views(
                    mount.largest_files@,
                ) && option_view(shown.largest_files_scanned_at) == option_view(
                    mount.largest_files_scanned_at,
                )
            },
{
    let shown = snapshot@.mounts;
    assert(shown.len() == snapshot.mounts@.len());
    if let Ok(mounts) = sample {
        let taken = views(mounts@);
        assert(sampled(sample) == taken && taken.len() == mounts@.len());
        assert(shown.len() == taken.len());
        assert forall|i: int| 0 <= i < mounts@.len() implies {
            let (shown, mount) = (#[trigger] snapshot.mounts@[i], mounts@[i]);
            let point = mount.mount_point@;
            &&& shown.mount_point@ == point
            &&& shown.device@ == mount.device@
            &&& shown.fs_type@ == mount.fs_type@
            &&& shown.usage == mount.usage
            &&& cache@.dom().contains(point) ==> views(shown.largest_files@)
                == cache@[point].files && option_view(shown.largest_files_scanned_at) == Some(
                cache@[point].scanned_at,
            )
            &&& !cache@.dom().contains(point) ==> views(shown.largest_files@) == views(
                mount.largest_files@,
            ) && option_view(shown.largest_files_scanned_at) == option_view(
                mount.largest_files_scanned_at,
            )
        } by {
            law_each_mount_gets_its_own_scan(taken, cache@, i);
            assert(shown[i] == snapshot.mounts@[i]@ && taken[i] == mounts@[i]@);
        }
    }
}

/// A snapshot that is built of a source holds what the source was sampled with,
/// every mount in its place and with the scan of its own mount point.
pub proof fn law_built_snapshot_shows_the_source<S: DiskSource + ?Sized>(
    host: &str,
    source: &S,
    cache: &LargestFilesCache,
    snapshot: Snapshot,
)
    requires
        call_ensures(build_snapshot::<S>, (host, source, cache), snapshot),
    ensures
        is_clock_text(snapshot.timestamp@),
        snapshot.host@ == host@,
        exists|sample: Result<Vec<Mount>, SampleError>| #[trigger]
            call_ensures(S::sample, (source,), sample) && (match sample {
                Ok(mounts) => snapshot.mounts@.len() == mounts@.len() && forall|i: int|
                    0 <= i < mounts@.len() ==> (#[trigger] snapshot.mounts@[i])@ == with_scan(
                        mounts@[i]@,
                        cache@,
                    ),
                Err(_) => snapshot.mounts@.len() == 0,
            }),
{
    let sample = choose|sample: Result<Vec<Mount>, SampleError>|
        #[trigger] call_ensures(S::sample, (source,), sample) && views(snapshot.mounts@)
            == with_scans(sampled(sample), cache@);
    assert(call_ensures(S::sample, (source,), sample));
    lemma_mounts_in_place(snapshot, sample, cache@);
}

/// Whoever shows a sample with its scans shows each mount in its place.
proof fn lemma_mounts_in_place(
    snapshot: Snapshot,
    sample: Result<Vec<Mount>, SampleError>,
    scans: Map<Seq<char>, ScanResultView>,
)
    requires
        views(snapshot.mounts@) == with_scans(sampled(sample), scans),
    ensures
        match sample {
            Ok(mounts) => snapshot.mounts@.len() == mounts@.len() && forall|i: int|
                0 <= i < mounts@.len() ==> (#[trigger] snapshot.mounts@[i])@ == with_scan(
                    mounts@[i]@,
                    scans,
                ),
            Err(_) => snapshot.mounts@.len() == 0,
        },
{
    let shown = views(snapshot.mounts@);
    assert(shown.len() == snapshot.mounts@.len());
    if let Ok(mounts) = sample {
        assert(shown.len() == mounts@.len());
        assert forall|i: int| 0 <= i < mounts@.len() implies (#[trigger] snapshot.mounts@[i])@
            == with_scan(mounts@[i]@, scans) by {
            assert(shown[i] == snapshot.mounts@[i]@);
            assert(sampled(sample)[i] == mounts@[i]@);
        }
    }
}

/// After a first sample that failed the first snapshot has no mounts; after one
/// that did not, it shows what the source is sampled with.
pub proof fn law_first_snapshot_follows_the_trial<S: DiskSource + ?Sized>(
    host: &str,
    trial: Result<Vec<Mount>, SampleError>,
    source: &S,
    cache: &LargestFilesCache,
    snapshot: Snapshot,
)
    requires
        call_ensures(snapshot_after_trial::<S>, (host, trial, source, cache), snapshot),
    ensures
        is_clock_text(snapshot.timestamp@),
        snapshot.host@ == host@,
        trial is Err ==> snapshot.mounts@.len() == 0,
        trial is Ok ==> exists|sample: Result<Vec<Mount>, SampleError>| #[trigger]
            call_ensures(S::sample, (source,), sample) && (match sample {
                Ok(mounts) => snapshot.mounts@.len() == mounts@.len() && forall|i: int|
                    0 <= i < mounts@.len() ==> (#[trigger] snapshot.mounts@[i])@ == with_scan(
                        mounts@[i]@,
                        cache@,
                    ),
                Err(_) => snapshot.mounts@.len() == 0,
            }),
{
    if trial is Ok {
        let sample = choose|sample: Result<Vec<Mount>, SampleError>|
            #[trigger] call_ensures(S::sample, (source,), sample) && views(snapshot.mounts@)
                == with_scans(sampled(sample), cache@);
        assert(call_ensures(S::sample, (source,), sample));
        lemma_mounts_in_place(snapshot, sample, cache@);
    }
}

/// The first snapshot follows upon a first sample of the source.
pub proof fn law_initial_snapshot_tries_the_source<S: DiskSource + ?Sized>(
    host: &str,
    source: &S,
    cache: &LargestFilesCache,
    snapshot: Snapshot,
)
    requires
        call_ensures(initial_snapshot::<S>, (host, source, cache), snapshot),
    ensures
        exists|trial: Result<Vec<Mount>, SampleError>| #[trigger]
            call_ensures(S::sample, (source,), trial) && call_ensures(
                snapshot_after_trial::<S>,
                (host, trial, source, cache),
                snapshot,
            ),
{
}

/// What the sampler asks for upon each event, told directly. The period is the
/// one asked for, and never under fifty milliseconds; late ticks are not made
/// up for; a sample makes a snapshot with every sampled mount in its place and
/// with the scan of its own mount point, and a failed one makes a snapshot
/// without mounts.
pub proof fn law_sampler_does_as_told(
    event: SamplerEvent,
    interval_ms: u64,
    host: &str,
    cache: &LargestFilesCache,
    action: SamplerAction,
)
    requires
        call_ensures(sampler_step, (event, interval_ms, host, cache), action),
    ensures
        event is Started ==> (action matches SamplerAction::StartTicker { period_ms, makes_up }
            && !makes_up && period_ms >= 50 && period_ms >= interval_ms && (period_ms == 50
            || period_ms == interval_ms)),
        event is Ticked ==> action is Sample,
        event is Delivered ==> action is AwaitTick,
        event is ReceiversGone ==> action is Stop,
        event matches SamplerEvent::Sampled(sample) ==> (action matches SamplerAction::Publish(
            snapshot,
        ) && is_clock_text(snapshot.timestamp@) && snapshot.host@ == host@ && match sample {
            Ok(mounts) => snapshot.mounts@.len() == mounts@.len() && forall|i: int|
                0 <= i < mounts@.len() ==> (#[trigger] snapshot.mounts@[i])@ == with_scan(
                    mounts@[i]@,
                    cache@,
                ),
            Err(_) => snapshot.mounts@.len() == 0,
        }),
{
    if let SamplerEvent::Sampled(sample) = event {
        if let SamplerAction::Publish(snapshot) = action {
            lemma_mounts_in_place(snapshot, sample, cache@);
        }
    }
}

/// Samples are taken as often as asked for, but no more often than every fifty
/// milliseconds.
pub proof fn law_period_is_the_longer_one(interval_ms: u64, period: u64)
    requires
        call_ensures(sample_period_ms, (interval_ms,), period),
    ensures
        period >= 50,
        period >= interval_ms,
        period == 50 || period == interval_ms,
{
}

/// A host goes by its own name, and without one it is the local host.
pub proof fn law_host_goes_by_its_name(name: Option<String>, host: String)
    requires
        call_ensures(host_or_default, (name,), host),
    ensures
        name matches Some(own) ==> host@ == own@,
        name is None ==> host@ == "localhost"@,
{
}

/// A snapshot without mounts still names its host and carries the time.
pub proof fn law_empty_snapshot_names_its_host(host: &str, snapshot: Snapshot)
    requires
        call_ensures(empty_snapshot, (host,), snapshot),
    ensures
        is_clock_text(snapshot.timestamp@),
        snapshot.host@ == host@,
        snapshot.mounts@.len() == 0,
{
}

} // verus!
