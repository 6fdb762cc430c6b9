//! The background scanner: when which mount is scanned, and what becomes of the
//! result.
//!
//! The scanner decides; whoever runs it keeps the timer, takes in requests and
//! walks filesystems as told, and reports back what came of it. There is one
//! timer. It is set for the time before the first scan, and from then on at the
//! end of every scan of everything, and by nothing else: requests for single
//! mounts do not put off the next scan of everything.

use vstd::prelude::*;

use crate::cache::{LargestFilesCache, ScanResult, ScanResultView};
use crate::clock::{is_clock_text, timestamp_now};
use crate::model::{option_view, views, FileEntry, MountView, Snapshot, SnapshotView};
use crate::text::contains_text;

verus! {

/// What somebody asks the scanner for.
#[derive(Debug, PartialEq, Eq)]
pub enum RescanRequest {
    /// A scan of every mount.
    All,
    /// A scan of the mount at this mount point.
    One(String),
}

/// The view of a `RescanRequest`.
#[verifier::ext_equal]
pub enum RescanRequestView {
    All,
    One(Seq<char>),
}

impl View for RescanRequest {
    type V = RescanRequestView;

    open spec fn view(&self) -> RescanRequestView {
        match self {
            RescanRequest::All => RescanRequestView::All,
            RescanRequest::One(mount_point) => RescanRequestView::One(mount_point@),
        }
    }
}

impl Clone for RescanRequest {
    fn clone(&self) -> (copy: Self)
        ensures
            copy@ == self@,
    {
        match self {
            RescanRequest::All => RescanRequest::All,
            RescanRequest::One(mount_point) => RescanRequest::One(mount_point.clone()),
        }
    }
}

/// How the scanner is set up.
#[derive(Clone, Copy, Debug, PartialEq, Eq)]
pub struct ScannerConfig {
    /// How many files are kept for each mount.
    pub top_n: usize,
    /// Seconds from the end of a scan of everything to the next one.
    pub refresh_interval_secs: u64,
    /// Seconds before the first scan.
    pub initial_delay_secs: u64,
}

impl Default for ScannerConfig {
    fn default() -> (config: Self)
        ensures
            config == (ScannerConfig {
                top_n: 20,
                refresh_interval_secs: 600,
                initial_delay_secs: 60,
            }),
    {
        ScannerConfig { top_n: 20, refresh_interval_secs: 600, initial_delay_secs: 60 }
    }
}

/// What a batch of requests comes to.
#[derive(Debug, PartialEq, Eq)]
pub enum RescanPlan {
    /// Every mount is to be scanned.
    All,
    /// The mounts at these mount points are to be scanned.
    Mounts(Vec<String>),
}

/// Joins requests that came in together: one for everything covers the others,
/// and a mount that is asked for several times is scanned once.
pub fn coalesce(requests: Vec<RescanRequest>) -> (plan: RescanPlan)
    ensures
        plan is All <==> views(requests@).contains(RescanRequestView::All),
        plan matches RescanPlan::Mounts(targets) ==> is_target_list(
            views(targets@),
            views(requests@),
        ),
{
    let ghost asked = views(requests@);
    let mut targets: Vec<String> = Vec::new();
    let mut all = false;
    for request in iter: requests
        invariant
            asked == views(iter.seq()),
            all == asked.take(iter.index()).contains(RescanRequestView::All),
            is_target_list(views(targets@), asked.take(iter.index())),
    {
        let ghost before = views(targets@);
        let ghost view = request@;
        let ghost earlier = asked.take(iter.index());
        proof {
            assert(asked.take(iter.index() + 1) =~= earlier.push(view));
            lemma_contains_push(earlier, view);
            lemma_target_added(before, earlier, view);
        }
        match request {
            RescanRequest::All => {
                all = true;
            },
            RescanRequest::One(mount_point) => {
                if !contains_text(targets.as_slice(), mount_point.as_str()) {
                    targets.push(mount_point);
                    assert(views(targets@) =~= before.push(mount_point@));
                }
            },
        }
    }
    assert(asked.take(asked.len() as int) == asked);
    if all {
        RescanPlan::All
    } else {
        RescanPlan::Mounts(targets)
    }
}

/// Whether `targets` are the mount points that `requests` name, each once.
pub open spec fn is_target_list(
    targets: Seq<Seq<char>>,
    requests: Seq<RescanRequestView>,
) -> bool {
    &&& targets.no_duplicates()
    &&& forall|target: Seq<char>|
        #[trigger] targets.contains(target) <==> requests.contains(RescanRequestView::One(target))
}

proof fn lemma_contains_push<A>(s: Seq<A>, x: A)
    ensures
        forall|y: A| #[trigger] s.push(x).contains(y) <==> s.contains(y) || y == x,
{
    assert forall|y: A| #[trigger] s.push(x).contains(y) <==> s.contains(y) || y == x by {
        if s.contains(y) {
            let i = choose|i: int| 0 <= i < s.len() && s[i] == y;
            assert(s.push(x)[i] == y);
        }
        assert(s.push(x)[s.len() as int] == x);
    }
}

proof fn lemma_target_added(
    targets: Seq<Seq<char>>,
    requests: Seq<RescanRequestView>,
    request: RescanRequestView,
)
    requires
        is_target_list(targets, requests),
    ensures
        match request {
            RescanRequestView::All => is_target_list(targets, requests.push(request)),
            RescanRequestView::One(target) => if targets.contains(target) {
                is_target_list(targets, requests.push(request))
            } else {
                is_target_list(targets.push(target), requests.push(request))
            },
        },
{
    lemma_contains_push(requests, request);
    if let RescanRequestView::One(target) = request {
        lemma_contains_push(targets, target);
    }
}

/// The mount points of the mounts of a snapshot, in its order.
pub open spec fn mount_points(snapshot: SnapshotView) -> Seq<Seq<char>> {
    snapshot.mounts.map_values(|mount: MountView| mount.mount_point)
}

/// The mount points of the mounts of `snapshot`.
pub fn mount_points_of(snapshot: &Snapshot) -> (points: Vec<String>)
    ensures
        views(points@) == mount_points(snapshot@),
{
    let mut points: Vec<String> = Vec::new();
    let mut i: usize = 0;
    while i < snapshot.mounts.len()
        invariant
            i <= snapshot.mounts.len(),
            views(points@) == mount_points(snapshot@).take(i as int),
        decreases snapshot.mounts.len() - i,
    {
        let ghost before = views(points@);
        points.push(snapshot.mounts[i].mount_point.clone());
        assert(views(points@) =~= before.push(mount_points(snapshot@)[i as int]));
        assert(mount_points(snapshot@).take(i + 1) =~= before.push(
            mount_points(snapshot@)[i as int],
        ));
        i = i + 1;
    }
    assert(mount_points(snapshot@).take(i as int) =~= mount_points(snapshot@));
    points
}

/// The result of a scan that found `files` and has ended now.
pub fn stamp_scan(files: Vec<FileEntry>) -> (result: ScanResult)
    ensures
        result.files == files,
        is_clock_text(result.scanned_at@),
        result.scanned_at@.len() >= 25,
{
    ScanResult { files, scanned_at: timestamp_now() }
}

/// What the scanner is told.
#[derive(Debug)]
pub enum ScannerEvent {
    /// The time for which the timer was set is over.
    TimerElapsed,
    /// Requests have come in.
    Requested(Vec<RescanRequest>),
    /// The scan that was asked for has ended with this result.
    Scanned(ScanResult),
    /// The scan that was asked for has broken down.
    ScanFailed,
}

/// The view of a `ScannerEvent`.
#[verifier::ext_equal]
pub enum ScannerEventView {
    TimerElapsed,
    Requested(Seq<RescanRequestView>),
    Scanned(ScanResultView),
    ScanFailed,
}

impl View for ScannerEvent {
    type V = ScannerEventView;

    open spec fn view(&self) -> ScannerEventView {
        match self {
            ScannerEvent::TimerElapsed => ScannerEventView::TimerElapsed,
            ScannerEvent::Requested(requests) => ScannerEventView::Requested(views(requests@)),
            ScannerEvent::Scanned(result) => ScannerEventView::Scanned(result@),
            ScannerEvent::ScanFailed => ScannerEventView::ScanFailed,
        }
    }
}

/// What there is to do besides keeping the timer.
#[derive(Debug, PartialEq, Eq)]
pub enum ScannerWork {
    /// Wait for what comes next; a scan that is under way goes on.
    Wait,
    /// Scan the mount at this mount point.
    Scan { mount_point: String, top_n: usize },
}

/// The view of a `ScannerWork`.
#[verifier::ext_equal]
pub enum ScannerWorkView {
    Wait,
    Scan { mount_point: Seq<char>, top_n: usize },
}

impl View for ScannerWork {
    type V = ScannerWorkView;

    open spec fn view(&self) -> ScannerWorkView {
        match self {
            ScannerWork::Wait => ScannerWorkView::Wait,
            ScannerWork::Scan { mount_point, top_n } => ScannerWorkView::Scan {
                mount_point: mount_point@,
                top_n: *top_n,
            },
        }
    }
}

/// What the scanner wants done next.
#[derive(Debug, PartialEq, Eq)]
pub struct ScannerAction {
    /// The seconds for which the timer is to be set from now on; without them
    /// the timer runs on as it is.
    pub timer: Option<u64>,
    /// What else is to be done.
    pub work: ScannerWork,
}

/// The view of a `ScannerAction`.
#[verifier::ext_equal]
pub struct ScannerActionView {
    pub timer: Option<u64>,
    pub work: ScannerWorkView,
}

impl View for ScannerAction {
    type V = ScannerActionView;

    open spec fn view(&self) -> ScannerActionView {
        ScannerActionView { timer: self.timer, work: self.work@ }
    }
}

/// A scanner: what is being scanned, what is to follow, and what was asked for
/// meanwhile.
pub struct Scanner {
    config: ScannerConfig,
    delayed: bool,
    due: bool,
    full: bool,
    current: Option<String>,
    queue: Vec<String>,
    waiting: Vec<RescanRequest>,
}

/// The view of a `Scanner`.
#[verifier::ext_equal]
pub struct ScannerView {
    pub config: ScannerConfig,
    /// Whether the time before the first scan is not over yet.
    pub delayed: bool,
    /// Whether the timer has asked for a scan of everything that has not begun.
    pub due: bool,
    /// Whether a scan of everything is under way.
    pub full: bool,
    /// The mount that is being scanned.
    pub current: Option<Seq<char>>,
    /// The mounts that are to follow.
    pub queue: Seq<Seq<char>>,
    /// The requests that have not been taken up.
    pub waiting: Seq<RescanRequestView>,
}

impl View for Scanner {
    type V = ScannerView;

    closed spec fn view(&self) -> ScannerView {
        ScannerView {
            config: self.config,
            delayed: self.delayed,
            due: self.due,
            full: self.full,
            current: option_view(self.current),
            queue: views(self.queue@),
            waiting: views(self.waiting@),
        }
    }
}

/// The scanner at its start.
pub open spec fn started(config: ScannerConfig) -> ScannerView {
    ScannerView {
        config,
        delayed: true,
        due: false,
        full: false,
        current: None,
        queue: Seq::empty(),
        waiting: Seq::empty(),
    }
}

/// The scanner once it has taken note of `event`. The timer ends the time
/// before the first scan, and a scan of everything is due from then on, unless
/// one is under way.
pub open spec fn noted(before: ScannerView, event: ScannerEventView) -> ScannerView {
    match event {
        ScannerEventView::TimerElapsed => ScannerView {
            delayed: false,
            due: before.due || !before.full,
            ..before
        },
        ScannerEventView::Requested(requests) => ScannerView {
            waiting: before.waiting + requests,
            ..before
        },
        ScannerEventView::Scanned(_) => ScannerView { current: None, ..before },
        ScannerEventView::ScanFailed => ScannerView { current: None, ..before },
    }
}

/// The scan results once `event` has been noted: a scan that ends is recorded.
pub open spec fn scans_noted(
    before: ScannerView,
    event: ScannerEventView,
    scans: Map<Seq<char>, ScanResultView>,
) -> Map<Seq<char>, ScanResultView> {
    match (event, before.current) {
        (ScannerEventView::Scanned(result), Some(point)) => scans.insert(point, result),
        _ => scans,
    }
}

/// How the timer is set by a step in which a scan of everything has ended, or
/// has not.
pub open spec fn timer_after(config: ScannerConfig, ended: bool) -> Option<u64> {
    if ended {
        Some(config.refresh_interval_secs)
    } else {
        None
    }
}

/// The scanner once it has set about the first mount of `queue`, which is a
/// scan of everything if `full`. There is none for an empty queue.
pub open spec fn at_work(
    state: ScannerView,
    queue: Seq<Seq<char>>,
    full: bool,
) -> ScannerView {
    if queue.len() == 0 {
        ScannerView { full: false, current: None, queue, ..state }
    } else {
        ScannerView { full, current: Some(queue[0]), queue: queue.drop_first(), ..state }
    }
}

/// What setting about the first mount of `queue` asks for. A scan of everything
/// of which nothing is left has ended.
pub open spec fn work_for(
    config: ScannerConfig,
    queue: Seq<Seq<char>>,
    full: bool,
    ended: bool,
) -> ScannerActionView {
    if queue.len() == 0 {
        ScannerActionView {
            timer: timer_after(config, ended || full),
            work: ScannerWorkView::Wait,
        }
    } else {
        ScannerActionView {
            timer: timer_after(config, ended),
            work: ScannerWorkView::Scan { mount_point: queue[0], top_n: config.top_n },
        }
    }
}

/// Whether the waiting requests take an idle scanner from `state` and `scans`
/// to `after` and `later`, while `points` are mounted. A request for everything
/// covers the others, and starts by forgetting what is no longer mounted; in
/// which order requested mounts are scanned is left open.
pub open spec fn is_service(
    state: ScannerView,
    ended: bool,
    points: Seq<Seq<char>>,
    scans: Map<Seq<char>, ScanResultView>,
    after: ScannerView,
    later: Map<Seq<char>, ScanResultView>,
    action: ScannerActionView,
) -> bool {
    let taken = ScannerView { waiting: Seq::empty(), ..state };
    if state.waiting.contains(RescanRequestView::All) {
        &&& after == at_work(taken, points, true)
        &&& action == work_for(state.config, points, true, ended)
        &&& later == scans.restrict(points.to_set())
    } else {
        &&& exists|targets: Seq<Seq<char>>| #[trigger]
            is_target_list(targets, state.waiting) && after == at_work(taken, targets, false)
                && action == work_for(state.config, targets, false, ended)
        &&& later == scans
    }
}

/// Whether a scanner that has noted what it was told goes on from `state` and
/// `scans` to `after` and `later`, while `points` are mounted. It sees its queue
/// through first, then to a scan of everything that is due, and then to the
/// waiting requests.
pub open spec fn is_continued(
    state: ScannerView,
    points: Seq<Seq<char>>,
    scans: Map<Seq<char>, ScanResultView>,
    after: ScannerView,
    later: Map<Seq<char>, ScanResultView>,
    action: ScannerActionView,
) -> bool {
    if state.delayed || state.current is Some {
        &&& after == state
        &&& later == scans
        &&& action == (ScannerActionView { timer: None, work: ScannerWorkView::Wait })
    } else if state.queue.len() > 0 {
        &&& after == at_work(state, state.queue, state.full)
        &&& later == scans
        &&& action == work_for(state.config, state.queue, state.full, false)
    } else if state.due && points.len() > 0 {
        &&& after == at_work(ScannerView { due: false, ..state }, points, true)
        &&& later == scans.restrict(points.to_set())
        &&& action == work_for(state.config, points, true, state.full)
    } else if state.due {
        is_service(
            ScannerView { due: false, full: false, ..state },
            true,
            points,
            scans.restrict(points.to_set()),
            after,
            later,
            action,
        )
    } else {
        is_service(
            ScannerView { full: false, ..state },
            state.full,
            points,
            scans,
            after,
            later,
            action,
        )
    }
}

/// Whether `event` takes the scanner from `before` to `after`, the scan results
/// from `scans` to `later`, and makes it ask for `action`, while `points` are
/// mounted.
pub open spec fn is_step(
    before: ScannerView,
    event: ScannerEventView,
    points: Seq<Seq<char>>,
    scans: Map<Seq<char>, ScanResultView>,
    after: ScannerView,
    later: Map<Seq<char>, ScanResultView>,
    action: ScannerActionView,
) -> bool {
    is_continued(
        noted(before, event),
        points,
        scans_noted(before, event, scans),
        after,
        later,
        action,
    )
}

impl Scanner {
    /// A scanner at its start, and the first thing that it wants done.
    pub fn start(config: ScannerConfig) -> (start: (Scanner, ScannerAction))
        ensures
            start.0@ == started(config),
            start.1@ == (ScannerActionView {
                timer: Some(config.initial_delay_secs),
                work: ScannerWorkView::Wait,
            }),
    {
        let scanner = Scanner {
            config,
            delayed: true,
            due: false,
            full: false,
            current: None,
            queue: Vec::new(),
            waiting: Vec::new(),
        };
        assert(scanner@ =~= started(config));
        (scanner, ScannerAction { timer: Some(config.initial_delay_secs), work: ScannerWork::Wait })
    }

    /// Takes note of `event`, while `snapshot` tells what is mounted, and says
    /// what is to be done next. Requests that wait together are joined.
    pub fn step(
        &mut self,
        event: ScannerEvent,
        snapshot: &Snapshot,
        cache: &mut LargestFilesCache,
    ) -> (action: ScannerAction)
        ensures
            is_step(
                old(self)@,
                event@,
                mount_points(snapshot@),
                old(cache)@,
                final(self)@,
                final(cache)@,
                action@,
            ),
    {
        let ghost before = self@;
        let ghost told = event@;
        let ghost scans = cache@;
        self.note(event, cache);
        let ghost state = self@;
        if self.delayed || self.current.is_some() {
            return ScannerAction { timer: None, work: ScannerWork::Wait };
        }
        if self.queue.len() > 0 {
            return self.set_about(false);
        }
        let mut ended = self.full;
        self.full = false;
        if self.due {
            self.due = false;
            self.queue = begin_full_pass(snapshot, cache);
            if self.queue.len() > 0 {
                self.full = true;
                assert(self@ =~= ScannerView {
                    due: false,
                    full: true,
                    queue: mount_points(snapshot@),
                    ..state
                });
                return self.set_about(ended);
            }
            ended = true;
        }
        assert(self@ =~= ScannerView { due: false, full: false, ..state });
        self.serve(ended, snapshot, cache)
    }

    /// Takes note of `event`.
    fn note(&mut self, event: ScannerEvent, cache: &mut LargestFilesCache)
        ensures
            final(self)@ == noted(old(self)@, event@),
            final(cache)@ == scans_noted(old(self)@, event@, old(cache)@),
    {
        let ghost before = self@;
        match event {
            ScannerEvent::TimerElapsed => {
                self.delayed = false;
                if !self.full {
                    self.due = true;
                }
            },
            ScannerEvent::Requested(requests) => {
                let mut requests = requests;
                let ghost asked = views(requests@);
                self.waiting.append(&mut requests);
                assert(views(self.waiting@) =~= before.waiting + asked);
            },
            ScannerEvent::Scanned(result) => {
                if let Some(mount_point) = self.current.take() {
                    cache.put(mount_point, result);
                }
            },
            ScannerEvent::ScanFailed => {
                self.current = None;
            },
        }
        assert(self@ =~= noted(before, event@));
    }

    /// Sets about the first mount of the queue.
    fn set_about(&mut self, ended: bool) -> (action: ScannerAction)
        ensures
            final(self)@ == at_work(old(self)@, old(self)@.queue, old(self)@.full),
            action@ == work_for(
                old(self)@.config,
                old(self)@.queue,
                old(self)@.full,
                ended,
            ),
    {
        let ghost before = self@;
        let ghost queue = before.queue;
        if self.queue.len() == 0 {
            let timer = if ended || self.full {
                Some(self.config.refresh_interval_secs)
            } else {
                None
            };
            self.full = false;
            self.current = None;
            assert(self@ =~= at_work(before, queue, before.full));
            ScannerAction { timer, work: ScannerWork::Wait }
        } else {
            let mount_point = self.queue.remove(0);
            self.current = Some(mount_point.clone());
            assert(views(self.queue@) =~= queue.drop_first());
            assert(self@ =~= at_work(before, queue, before.full));
            let timer = if ended {
                Some(self.config.refresh_interval_secs)
            } else {
                None
            };
            ScannerAction {
                timer,
                work: ScannerWork::Scan { mount_point, top_n: self.config.top_n },
            }
        }
    }

    /// Takes up the waiting requests.
    fn serve(
        &mut self,
        ended: bool,
        snapshot: &Snapshot,
        cache: &mut LargestFilesCache,
    ) -> (action: ScannerAction)
        requires
            !old(self)@.full,
        ensures
            is_service(
                old(self)@,
                ended,
                mount_points(snapshot@),
                old(cache)@,
                final(self)@,
                final(cache)@,
                action@,
            ),
    {
        let ghost before = self@;
        let mut requests: Vec<RescanRequest> = Vec::new();
        requests.append(&mut self.waiting);
        assert(views(requests@) =~= before.waiting);
        assert(views(self.waiting@) =~= Seq::<RescanRequestView>::empty());
        let ghost taken = ScannerView { waiting: Seq::empty(), ..before };
        match coalesce(requests) {
            RescanPlan::All => {
                self.queue = begin_full_pass(snapshot, cache);
                self.full = true;
                assert(self@ =~= ScannerView {
                    full: true,
                    queue: mount_points(snapshot@),
                    ..taken
                });
            },
            RescanPlan::Mounts(targets) => {
                let ghost wanted = views(targets@);
                self.queue = targets;
                assert(self@ =~= ScannerView { queue: wanted, ..taken });
                assert(is_target_list(wanted, before.waiting));
            },
        }
        self.set_about(ended)
    }
}

/// Starts a scan of everything: forgets the mounts that are gone, and tells
/// those that are there.
fn begin_full_pass(snapshot: &Snapshot, cache: &mut LargestFilesCache) -> (queue: Vec<String>)
    ensures
        views(queue@) == mount_points(snapshot@),
        final(cache)@ == old(cache)@.restrict(mount_points(snapshot@).to_set()),
{
    let queue = mount_points_of(snapshot);
    cache.retain(queue.as_slice());
    queue
}

/// What holds of a scanner between two events. One that scans nothing has
/// nothing left to do, unless the time before the first scan is not over, and
/// no scan of everything is due while one is under way.
pub open spec fn is_consistent(state: ScannerView) -> bool {
    &&& state.current is None ==> state.queue.len() == 0 && !state.full
    &&& state.current is None && !state.delayed ==> !state.due && state.waiting.len() == 0
    &&& state.delayed ==> state.current is None && !state.due
    &&& state.full ==> !state.due
}

/// Whether the scanner waits for the timer and for requests, the time before
/// the first scan being over.
pub open spec fn is_idle(state: ScannerView) -> bool {
    is_consistent(state) && !state.delayed && state.current is None
}

/// A scanner is consistent at its start, and stays so. Its configuration does
/// not change.
pub proof fn law_scanner_stays_consistent(
    config: ScannerConfig,
    before: ScannerView,
    event: ScannerEventView,
    points: Seq<Seq<char>>,
    scans: Map<Seq<char>, ScanResultView>,
    after: ScannerView,
    later: Map<Seq<char>, ScanResultView>,
    action: ScannerActionView,
)
    requires
        is_consistent(before),
        is_step(before, event, points, scans, after, later, action),
    ensures
        is_consistent(started(config)),
        is_consistent(after),
        after.config == before.config,
{
}

/// Whether a scan of everything ends as the scanner is told of `event`: the last
/// mount of one has been scanned, or one begins and nothing is mounted.
pub open spec fn ends_full_pass(
    before: ScannerView,
    event: ScannerEventView,
    points: Seq<Seq<char>>,
) -> bool {
    let state = noted(before, event);
    &&& !state.delayed && state.current is None && state.queue.len() == 0
    &&& state.full || points.len() == 0 && (state.due || state.waiting.contains(
        RescanRequestView::All,
    ))
}

/// The timer is set at the end of a scan of everything, for the time until the
/// next one, and by nothing else.
pub proof fn law_only_full_passes_set_the_timer(
    before: ScannerView,
    event: ScannerEventView,
    points: Seq<Seq<char>>,
    scans: Map<Seq<char>, ScanResultView>,
    after: ScannerView,
    later: Map<Seq<char>, ScanResultView>,
    action: ScannerActionView,
)
    requires
        is_step(before, event, points, scans, after, later, action),
    ensures
        action.timer == if ends_full_pass(before, event, points) {
            Some(before.config.refresh_interval_secs)
        } else {
            None
        },
{
}

/// The next scan of everything is always to come: the timer runs, or such a
/// scan is due, or one is under way.
pub proof fn law_next_full_pass_is_to_come(
    running: bool,
    before: ScannerView,
    event: ScannerEventView,
    points: Seq<Seq<char>>,
    scans: Map<Seq<char>, ScanResultView>,
    after: ScannerView,
    later: Map<Seq<char>, ScanResultView>,
    action: ScannerActionView,
)
    requires
        is_consistent(before),
        is_step(before, event, points, scans, after, later, action),
        running || before.due || before.full,
    ensures
        running && event !is TimerElapsed || action.timer is Some || after.due || after.full,
{
}

/// Whether the scanner goes through `states`, and the scan results through
/// `scans`, as it is told of one of `events` after the other. `mounted` says
/// what is mounted at each.
pub open spec fn is_run(
    states: Seq<ScannerView>,
    scans: Seq<Map<Seq<char>, ScanResultView>>,
    events: Seq<ScannerEventView>,
    mounted: Seq<Seq<Seq<char>>>,
    actions: Seq<ScannerActionView>,
) -> bool {
    &&& states.len() == events.len() + 1
    &&& scans.len() == events.len() + 1
    &&& mounted.len() == events.len()
    &&& actions.len() == events.len()
    &&& forall|i: int|
        0 <= i < events.len() ==> is_step(
            states[i],
            #[trigger] events[i],
            mounted[i],
            scans[i],
            states[i + 1],
            scans[i + 1],
            actions[i],
        )
}

/// The requests that come in with `events`.
pub open spec fn requests_in(events: Seq<ScannerEventView>) -> Seq<RescanRequestView>
    decreases events.len(),
{
    if events.len() == 0 {
        Seq::empty()
    } else if let ScannerEventView::Requested(requests) = events.last() {
        requests_in(events.drop_last()) + requests
    } else {
        requests_in(events.drop_last())
    }
}

/// Until the time before the first scan is over, nothing is scanned, the scan
/// results stay as they are, and requests are kept for later.
pub proof fn law_nothing_is_scanned_before_the_initial_delay(
    config: ScannerConfig,
    states: Seq<ScannerView>,
    scans: Seq<Map<Seq<char>, ScanResultView>>,
    events: Seq<ScannerEventView>,
    mounted: Seq<Seq<Seq<char>>>,
    actions: Seq<ScannerActionView>,
    n: int,
)
    requires
        is_run(states, scans, events, mounted, actions),
        states[0] == started(config),
        0 <= n <= events.len(),
        forall|i: int| 0 <= i < n ==> #[trigger] events[i] !is TimerElapsed,
    ensures
        states[n] == (ScannerView { waiting: requests_in(events.take(n)), ..started(config) }),
        scans[n] == scans[0],
        n > 0 ==> actions[n - 1] == (ScannerActionView {
            timer: None,
            work: ScannerWorkView::Wait,
        }),
    decreases n,
{
    if n == 0 {
        assert(events.take(0) =~= Seq::<ScannerEventView>::empty());
    } else {
        let i = n - 1;
        law_nothing_is_scanned_before_the_initial_delay(
            config,
            states,
            scans,
            events,
            mounted,
            actions,
            i,
        );
        assert(events[i] !is TimerElapsed);
        assert(events.take(n).drop_last() =~= events.take(i));
        assert(events.take(n).last() == events[i]);
    }
}

/// The first scan is one of everything that is mounted when the time before it
/// is over. Requests that came before then wait until it is done.
pub proof fn law_first_scan_is_of_everything(
    before: ScannerView,
    points: Seq<Seq<char>>,
    scans: Map<Seq<char>, ScanResultView>,
    after: ScannerView,
    later: Map<Seq<char>, ScanResultView>,
    action: ScannerActionView,
)
    requires
        is_consistent(before),
        before.delayed,
        points.len() > 0,
        is_step(before, ScannerEventView::TimerElapsed, points, scans, after, later, action),
    ensures
        action == (ScannerActionView {
            timer: None,
            work: ScannerWorkView::Scan { mount_point: points[0], top_n: before.config.top_n },
        }),
        after == (ScannerView {
            delayed: false,
            full: true,
            current: Some(points[0]),
            queue: points.drop_first(),
            ..before
        }),
        later == scans.restrict(points.to_set()),
{
}

/// Neither requests nor the timer disturb a scan that is under way.
pub proof fn law_scans_are_not_disturbed(
    before: ScannerView,
    event: ScannerEventView,
    points: Seq<Seq<char>>,
    scans: Map<Seq<char>, ScanResultView>,
    after: ScannerView,
    later: Map<Seq<char>, ScanResultView>,
    action: ScannerActionView,
)
    requires
        before.current is Some,
        event is TimerElapsed || event is Requested,
        is_step(before, event, points, scans, after, later, action),
    ensures
        after.current == before.current,
        after.queue == before.queue,
        after.full == before.full,
        later == scans,
        action == (ScannerActionView { timer: None, work: ScannerWorkView::Wait }),
        event is TimerElapsed && !before.full ==> after.due,
        event matches ScannerEventView::Requested(requests) ==> after.waiting == before.waiting
            + requests,
{
}

/// A scan of everything that is due begins as soon as the scan under way and
/// those queued behind it are done, before any waiting request.
pub proof fn law_due_full_pass_begins(
    before: ScannerView,
    event: ScannerEventView,
    points: Seq<Seq<char>>,
    scans: Map<Seq<char>, ScanResultView>,
    after: ScannerView,
    later: Map<Seq<char>, ScanResultView>,
    action: ScannerActionView,
)
    requires
        is_consistent(before),
        points.len() > 0,
        before.due && before.queue.len() == 0 && (event is Scanned || event is ScanFailed)
            || is_idle(before) && event is TimerElapsed,
        is_step(before, event, points, scans, after, later, action),
    ensures
        after == at_work(ScannerView { due: false, ..before }, points, true),
        action == work_for(before.config, points, true, false),
        later == scans_noted(before, event, scans).restrict(points.to_set()),
{
}

/// Waiting requests are taken up, all together, as soon as the scan under way
/// and those queued behind it are done and no scan of everything is due. Every
/// mount that was asked for is then being scanned or queued.
pub proof fn law_waiting_requests_are_taken_up(
    before: ScannerView,
    event: ScannerEventView,
    points: Seq<Seq<char>>,
    scans: Map<Seq<char>, ScanResultView>,
    after: ScannerView,
    later: Map<Seq<char>, ScanResultView>,
    action: ScannerActionView,
    point: Seq<char>,
)
    requires
        is_consistent(before),
        !before.delayed && !before.due && before.queue.len() == 0,
        event is Scanned || event is ScanFailed,
        before.waiting.contains(RescanRequestView::One(point)),
        is_step(before, event, points, scans, after, later, action),
    ensures
        after.waiting.len() == 0,
        before.waiting.contains(RescanRequestView::All) ==> after == at_work(
            ScannerView { waiting: Seq::empty(), ..before },
            points,
            true,
        ),
        !before.waiting.contains(RescanRequestView::All) ==> after.current == Some(point)
            || after.queue.contains(point),
{
    if !before.waiting.contains(RescanRequestView::All) {
        let taken = ScannerView {
            waiting: Seq::empty(),
            full: false,
            ..noted(before, event)
        };
        let targets = choose|targets: Seq<Seq<char>>| #[trigger]
            is_target_list(targets, before.waiting) && after == at_work(taken, targets, false)
                && action == work_for(before.config, targets, false, before.full);
        assert(targets.contains(point));
        let i = choose|i: int| 0 <= i < targets.len() && targets[i] == point;
        if i > 0 {
            assert(targets.drop_first()[i - 1] == point);
        }
    }
}

/// Whether `requests` are for single mounts.
pub open spec fn single_mounts(requests: Seq<RescanRequestView>) -> bool {
    !requests.contains(RescanRequestView::All)
}

/// However many requests for single mounts come in, and whatever becomes of
/// their scans, the timer runs on: they do not put off the next scan of
/// everything.
pub proof fn law_single_mounts_leave_the_timer(
    states: Seq<ScannerView>,
    scans: Seq<Map<Seq<char>, ScanResultView>>,
    events: Seq<ScannerEventView>,
    mounted: Seq<Seq<Seq<char>>>,
    actions: Seq<ScannerActionView>,
    n: int,
)
    requires
        is_run(states, scans, events, mounted, actions),
        is_idle(states[0]),
        0 <= n <= events.len(),
        forall|i: int|
            0 <= i < n ==> #[trigger] events[i] !is TimerElapsed && (events[i] matches
                ScannerEventView::Requested(requests) ==> single_mounts(requests)),
    ensures
        forall|i: int| 0 <= i < n ==> (#[trigger] actions[i]).timer is None,
        !states[n].due && !states[n].full && !states[n].delayed,
        single_mounts(states[n].waiting),
    decreases n,
{
    if n > 0 {
        let i = n - 1;
        law_single_mounts_leave_the_timer(states, scans, events, mounted, actions, i);
        let (before, event) = (states[i], events[i]);
        assert(is_step(
            before,
            event,
            mounted[i],
            scans[i],
            states[n],
            scans[n],
            actions[i],
        ));
        if let ScannerEventView::Requested(requests) = event {
            let all = before.waiting + requests;
            if all.contains(RescanRequestView::All) {
                let k = choose|k: int| 0 <= k < all.len() && all[k] == RescanRequestView::All;
                if k < before.waiting.len() {
                    assert(before.waiting[k] == RescanRequestView::All);
                } else {
                    assert(requests[k - before.waiting.len()] == RescanRequestView::All);
                }
            }
        }
    }
}

/// What the scanner is told of a scan that ended with `outcome`.
pub open spec fn event_of(outcome: Option<ScanResultView>) -> ScannerEventView {
    match outcome {
        Some(result) => ScannerEventView::Scanned(result),
        None => ScannerEventView::ScanFailed,
    }
}

/// What the scanner is told as one scan after the other ends with `outcomes`.
pub open spec fn events_of(outcomes: Seq<Option<ScanResultView>>) -> Seq<ScannerEventView> {
    outcomes.map_values(|outcome: Option<ScanResultView>| event_of(outcome))
}

/// `scans` once the first `n` of `points` have been scanned with `outcomes`.
pub open spec fn recorded(
    scans: Map<Seq<char>, ScanResultView>,
    points: Seq<Seq<char>>,
    outcomes: Seq<Option<ScanResultView>>,
    n: nat,
) -> Map<Seq<char>, ScanResultView>
    decreases n,
{
    if n == 0 {
        scans
    } else {
        let before = recorded(scans, points, outcomes, (n - 1) as nat);
        match outcomes[n - 1] {
            Some(result) => before.insert(points[n - 1], result),
            None => before,
        }
    }
}

/// A scanner with nothing queued, due or waiting goes idle.
proof fn lemma_goes_idle(
    state: ScannerView,
    points: Seq<Seq<char>>,
    scans: Map<Seq<char>, ScanResultView>,
    after: ScannerView,
    later: Map<Seq<char>, ScanResultView>,
    action: ScannerActionView,
)
    requires
        !state.delayed && !state.due && state.current is None,
        state.queue.len() == 0 && state.waiting.len() == 0,
        is_continued(state, points, scans, after, later, action),
    ensures
        after == (ScannerView { full: false, ..state }),
        later == scans,
        action == (ScannerActionView {
            timer: timer_after(state.config, state.full),
            work: ScannerWorkView::Wait,
        }),
{
    let idle = ScannerView { full: false, ..state };
    let taken = ScannerView { waiting: Seq::empty(), ..idle };
    let targets = choose|targets: Seq<Seq<char>>| #[trigger]
        is_target_list(targets, idle.waiting) && after == at_work(taken, targets, false) && action
            == work_for(state.config, targets, false, state.full);
    if targets.len() > 0 {
        assert(targets.contains(targets[0]));
    }
    assert(after =~= idle);
}

/// The mounts in a queue are scanned one by one and in order, whatever becomes
/// of each scan, and each result is recorded under its own mount. At the end,
/// if nothing is due or waiting, the scanner goes idle, and sets the timer if
/// that was a scan of everything.
pub proof fn law_queue_is_worked_off(
    base: ScannerView,
    queue: Seq<Seq<char>>,
    full: bool,
    states: Seq<ScannerView>,
    scans: Seq<Map<Seq<char>, ScanResultView>>,
    outcomes: Seq<Option<ScanResultView>>,
    mounted: Seq<Seq<Seq<char>>>,
    actions: Seq<ScannerActionView>,
    n: nat,
)
    requires
        is_run(states, scans, events_of(outcomes), mounted, actions),
        !base.delayed,
        states[0] == at_work(base, queue, full),
        outcomes.len() < queue.len() || outcomes.len() == queue.len() && !base.due
            && base.waiting.len() == 0,
        n <= outcomes.len(),
    ensures
        states[n as int] == at_work(base, queue.skip(n as int), full),
        n > 0 ==> actions[n - 1] == work_for(base.config, queue.skip(n as int), full, false),
        scans[n as int] == recorded(scans[0], queue, outcomes, n),
    decreases n,
{
    if n == 0 {
        assert(queue.skip(0) =~= queue);
    } else {
        let i = n - 1;
        law_queue_is_worked_off(
            base,
            queue,
            full,
            states,
            scans,
            outcomes,
            mounted,
            actions,
            i as nat,
        );
        let event = events_of(outcomes)[i];
        assert(event == event_of(outcomes[i]));
        assert(is_step(
            states[i],
            event,
            mounted[i],
            scans[i],
            states[i + 1],
            scans[i + 1],
            actions[i],
        ));
        let state = noted(states[i], event);
        assert(queue.skip(i)[0] == queue[i]);
        assert(queue.skip(i).drop_first() =~= queue.skip(n as int));
        if queue.len() == n {
            lemma_goes_idle(
                state,
                mounted[i],
                scans_noted(states[i], event, scans[i]),
                states[i + 1],
                scans[i + 1],
                actions[i],
            );
        }
        assert(states[i + 1] =~= at_work(base, queue.skip(n as int), full));
    }
}

/// How the scans that end with `events` come out.
pub open spec fn outcomes_in(events: Seq<ScannerEventView>) -> Seq<Option<ScanResultView>>
    decreases events.len(),
{
    if events.len() == 0 {
        Seq::empty()
    } else {
        let before = outcomes_in(events.drop_last());
        match events.last() {
            ScannerEventView::Scanned(result) => before.push(Some(result)),
            ScannerEventView::ScanFailed => before.push(None),
            _ => before,
        }
    }
}

/// What is recorded of the first `n` scans does not depend on a later one.
proof fn lemma_recorded_of_longer(
    scans: Map<Seq<char>, ScanResultView>,
    points: Seq<Seq<char>>,
    outcomes: Seq<Option<ScanResultView>>,
    outcome: Option<ScanResultView>,
    n: nat,
)
    requires
        n <= outcomes.len(),
    ensures
        recorded(scans, points, outcomes.push(outcome), n) == recorded(scans, points, outcomes, n),
    decreases n,
{
    if n > 0 {
        lemma_recorded_of_longer(scans, points, outcomes, outcome, (n - 1) as nat);
    }
}

/// Requests and the timer may come at any time while a queue is worked off: as
/// long as mounts are left, the next one is scanned whenever a scan ends, every
/// result is recorded under its own mount, nothing else changes what is known,
/// and the requests wait.
pub proof fn law_queue_is_worked_off_under_requests(
    base: ScannerView,
    queue: Seq<Seq<char>>,
    full: bool,
    states: Seq<ScannerView>,
    scans: Seq<Map<Seq<char>, ScanResultView>>,
    events: Seq<ScannerEventView>,
    mounted: Seq<Seq<Seq<char>>>,
    actions: Seq<ScannerActionView>,
    n: int,
)
    requires
        is_run(states, scans, events, mounted, actions),
        !base.delayed,
        states[0] == at_work(base, queue, full),
        0 <= n <= events.len(),
        outcomes_in(events.take(n)).len() < queue.len(),
    ensures
        ({
            let outcomes = outcomes_in(events.take(n));
            let done = outcomes.len() as int;
            &&& states[n].current == Some(queue[done])
            &&& states[n].queue == queue.skip(done + 1)
            &&& states[n].full == full
            &&& !states[n].delayed
            &&& states[n].config == base.config
            &&& states[n].waiting == base.waiting + requests_in(events.take(n))
            &&& scans[n] == recorded(scans[0], queue, outcomes, outcomes.len())
            &&& n > 0 ==> actions[n - 1] == if events[n - 1] is Scanned || events[n
                - 1] is ScanFailed {
                work_for(base.config, queue.skip(done), full, false)
            } else {
                ScannerActionView { timer: None, work: ScannerWorkView::Wait }
            }
        }),
    decreases n,
{
    if n == 0 {
        assert(events.take(0) =~= Seq::<ScannerEventView>::empty());
        assert(queue.skip(1) =~= queue.drop_first());
        assert(base.waiting + Seq::<RescanRequestView>::empty() =~= base.waiting);
    } else {
        let i = n - 1;
        let event = events[i];
        assert(events.take(n).drop_last() =~= events.take(i));
        assert(events.take(n).last() == event);
        let before = outcomes_in(events.take(i));
        let done = before.len() as int;
        law_queue_is_worked_off_under_requests(
            base,
            queue,
            full,
            states,
            scans,
            events,
            mounted,
            actions,
            i,
        );
        assert(is_step(
            states[i],
            event,
            mounted[i],
            scans[i],
            states[n],
            scans[n],
            actions[i],
        ));
        match event {
            ScannerEventView::Requested(requests) => {
                assert(base.waiting + (requests_in(events.take(i)) + requests) =~= (base.waiting
                    + requests_in(events.take(i))) + requests);
            },
            ScannerEventView::TimerElapsed => {},
            ScannerEventView::Scanned(result) => {
                lemma_recorded_of_longer(scans[0], queue, before, Some(result), before.len());
                assert(queue.skip(done + 1)[0] == queue[done + 1]);
                assert(queue.skip(done + 1).drop_first() =~= queue.skip(done + 2));
            },
            ScannerEventView::ScanFailed => {
                lemma_recorded_of_longer(scans[0], queue, before, None, before.len());
                assert(queue.skip(done + 1)[0] == queue[done + 1]);
                assert(queue.skip(done + 1).drop_first() =~= queue.skip(done + 2));
            },
        }
    }
}

/// A scan of everything visits the mounts that are there, each in its turn. At
/// its end the scanner waits with the timer set, and the results are those of
/// mounts that are there: of each the one that was found last, in this scan or
/// before.
pub proof fn law_full_pass(
    before: ScannerView,
    known: Map<Seq<char>, ScanResultView>,
    event: ScannerEventView,
    points: Seq<Seq<char>>,
    first: ScannerActionView,
    states: Seq<ScannerView>,
    scans: Seq<Map<Seq<char>, ScanResultView>>,
    outcomes: Seq<Option<ScanResultView>>,
    mounted: Seq<Seq<Seq<char>>>,
    actions: Seq<ScannerActionView>,
)
    requires
        is_consistent(before) && before.current is None && before.waiting.len() == 0,
        event is TimerElapsed || !before.delayed && (event matches ScannerEventView::Requested(
            requests,
        ) && requests.contains(RescanRequestView::All)),
        is_run(states, scans, events_of(outcomes), mounted, actions),
        is_step(before, event, points, known, states[0], scans[0], first),
        outcomes.len() == points.len(),
    ensures
        first == work_for(before.config, points, true, false),
        forall|i: int|
            0 <= i < points.len() ==> #[trigger] actions[i] == work_for(
                before.config,
                points.skip(i + 1),
                true,
                false,
            ),
        is_idle(states.last()),
        scans.last() == recorded(
            known.restrict(points.to_set()),
            points,
            outcomes,
            points.len(),
        ),
        forall|point: Seq<char>|
            #[trigger] scans.last().dom().contains(point) ==> points.contains(point),
        forall|i: int|
            0 <= i < points.len() && #[trigger] outcomes[i] is Some ==> scans.last().dom().contains(
                points[i],
            ),
{
    let config = before.config;
    let n = points.len();
    let base = ScannerView { delayed: false, due: false, waiting: Seq::empty(), ..before };
    let forgotten = known.restrict(points.to_set());
    lemma_full_pass_begins(before, known, event, points, states[0], scans[0], first);
    law_queue_is_worked_off(base, points, true, states, scans, outcomes, mounted, actions, n);
    assert(points.skip(n as int) =~= Seq::<Seq<char>>::empty());
    assert forall|i: int| 0 <= i < points.len() implies #[trigger] actions[i] == work_for(
        config,
        points.skip(i + 1),
        true,
        false,
    ) by {
        law_queue_is_worked_off(
            base,
            points,
            true,
            states,
            scans,
            outcomes,
            mounted,
            actions,
            (i + 1) as nat,
        );
    }
    lemma_recorded_domain(forgotten, points, outcomes, n);
    assert forall|i: int|
        0 <= i < points.len() && #[trigger] outcomes[i] is Some implies scans.last().dom().contains(
        points[i],
    ) by {
        lemma_recorded_result(forgotten, points, outcomes, n, i);
    }
}

/// A scanner without anything to do sets about a scan of everything at once.
proof fn lemma_full_pass_begins(
    before: ScannerView,
    known: Map<Seq<char>, ScanResultView>,
    event: ScannerEventView,
    points: Seq<Seq<char>>,
    after: ScannerView,
    later: Map<Seq<char>, ScanResultView>,
    action: ScannerActionView,
)
    requires
        is_consistent(before) && before.current is None && before.waiting.len() == 0,
        event is TimerElapsed || !before.delayed && (event matches ScannerEventView::Requested(
            requests,
        ) && requests.contains(RescanRequestView::All)),
        is_step(before, event, points, known, after, later, action),
    ensures
        after == at_work(
            ScannerView { delayed: false, due: false, waiting: Seq::empty(), ..before },
            points,
            true,
        ),
        action == work_for(before.config, points, true, false),
        later == known.restrict(points.to_set()),
{
    let base = ScannerView { delayed: false, due: false, waiting: Seq::empty(), ..before };
    assert(before.waiting =~= Seq::empty());
    if let ScannerEventView::Requested(requests) = event {
        assert(before.waiting + requests =~= requests);
        assert(after =~= at_work(base, points, true));
    } else if points.len() == 0 {
        let taken = ScannerView { full: false, ..base };
        let targets = choose|targets: Seq<Seq<char>>| #[trigger]
            is_target_list(targets, before.waiting) && after == at_work(taken, targets, false)
                && action == work_for(before.config, targets, false, true);
        if targets.len() > 0 {
            assert(targets.contains(targets[0]));
        }
        assert(after =~= at_work(base, points, true));
    } else {
        assert(after =~= at_work(base, points, true));
    }
}

/// What is recorded of a scan belongs to the mounts that were scanned.
proof fn lemma_recorded_domain(
    scans: Map<Seq<char>, ScanResultView>,
    points: Seq<Seq<char>>,
    outcomes: Seq<Option<ScanResultView>>,
    n: nat,
)
    requires
        n <= points.len(),
        forall|point: Seq<char>| #[trigger] scans.dom().contains(point) ==> points.contains(point),
    ensures
        forall|point: Seq<char>|
            #[trigger] recorded(scans, points, outcomes, n).dom().contains(point)
                ==> points.contains(point),
    decreases n,
{
    if n > 0 {
        lemma_recorded_domain(scans, points, outcomes, (n - 1) as nat);
        let before = recorded(scans, points, outcomes, (n - 1) as nat);
        assert forall|point: Seq<char>|
            #[trigger] recorded(scans, points, outcomes, n).dom().contains(
                point,
            ) implies points.contains(point) by {
            if point == points[n - 1] {
                assert(points.contains(points[n - 1]));
            } else {
                assert(before.dom().contains(point));
            }
        }
    }
}

/// A mount whose scan succeeded has a recorded result.
proof fn lemma_recorded_result(
    scans: Map<Seq<char>, ScanResultView>,
    points: Seq<Seq<char>>,
    outcomes: Seq<Option<ScanResultView>>,
    n: nat,
    i: int,
)
    requires
        0 <= i < n <= points.len(),
        n <= outcomes.len(),
        outcomes[i] is Some,
    ensures
        recorded(scans, points, outcomes, n).dom().contains(points[i]),
    decreases n,
{
    if i < n - 1 {
        lemma_recorded_result(scans, points, outcomes, (n - 1) as nat, i);
    }
}

/// Of a mount that occurs once among those scanned, a successful scan is what
/// is recorded at the end, and a failed one leaves what was known before.
pub proof fn law_each_mount_gets_its_own_result(
    scans: Map<Seq<char>, ScanResultView>,
    points: Seq<Seq<char>>,
    outcomes: Seq<Option<ScanResultView>>,
    i: int,
)
    requires
        points.no_duplicates(),
        outcomes.len() == points.len(),
        0 <= i < points.len(),
    ensures
        ({
            let after = recorded(scans, points, outcomes, points.len());
            match outcomes[i] {
                Some(result) => after.dom().contains(points[i]) && after[points[i]] == result,
                None => same_at(after, scans, points[i]),
            }
        }),
{
    lemma_recorded_so_far(scans, points, outcomes, points.len(), i);
}

/// Whether `a` and `b` say the same of `point`.
pub open spec fn same_at(
    a: Map<Seq<char>, ScanResultView>,
    b: Map<Seq<char>, ScanResultView>,
    point: Seq<char>,
) -> bool {
    a.dom().contains(point) == b.dom().contains(point) && (a.dom().contains(point) ==> a[point]
        == b[point])
}

proof fn lemma_recorded_so_far(
    scans: Map<Seq<char>, ScanResultView>,
    points: Seq<Seq<char>>,
    outcomes: Seq<Option<ScanResultView>>,
    n: nat,
    i: int,
)
    requires
        points.no_duplicates(),
        outcomes.len() == points.len(),
        0 <= i < points.len(),
        n <= points.len(),
    ensures
        ({
            let after = recorded(scans, points, outcomes, n);
            if n > i && outcomes[i] is Some {
                after.dom().contains(points[i]) && Some(after[points[i]]) == outcomes[i]
            } else {
                same_at(after, scans, points[i])
            }
        }),
    decreases n,
{
    if n > 0 {
        lemma_recorded_so_far(scans, points, outcomes, (n - 1) as nat, i);
        if n - 1 != i {
            assert(points[n - 1] != points[i]);
        }
    }
}

/// A mount that is asked for while nothing is scanned is scanned at once, and
/// the result of that scan is what is known of it from then on; nothing else is
/// forgotten or changed, and the timer runs on throughout.
pub proof fn law_requested_mount_is_scanned(
    before: ScannerView,
    known: Map<Seq<char>, ScanResultView>,
    point: Seq<char>,
    points: Seq<Seq<char>>,
    asked: ScannerView,
    meanwhile: Map<Seq<char>, ScanResultView>,
    scan: ScannerActionView,
    result: ScanResultView,
    later_points: Seq<Seq<char>>,
    done: ScannerView,
    later: Map<Seq<char>, ScanResultView>,
    next: ScannerActionView,
)
    requires
        is_idle(before),
        is_step(
            before,
            ScannerEventView::Requested(seq![RescanRequestView::One(point)]),
            points,
            known,
            asked,
            meanwhile,
            scan,
        ),
        is_step(
            asked,
            ScannerEventView::Scanned(result),
            later_points,
            meanwhile,
            done,
            later,
            next,
        ),
    ensures
        scan == (ScannerActionView {
            timer: None,
            work: ScannerWorkView::Scan { mount_point: point, top_n: before.config.top_n },
        }),
        next == (ScannerActionView { timer: None, work: ScannerWorkView::Wait }),
        done == before,
        later == known.insert(point, result),
{
    let requests = seq![RescanRequestView::One(point)];
    assert(requests[0] == RescanRequestView::One(point));
    assert(before.waiting + requests =~= requests);
    assert(forall|r: RescanRequestView|
        #[trigger] requests.contains(r) ==> r == RescanRequestView::One(point));
    let taken = ScannerView { full: false, waiting: Seq::empty(), ..before };
    let targets = choose|targets: Seq<Seq<char>>| #[trigger]
        is_target_list(targets, requests) && asked == at_work(taken, targets, false) && scan
            == work_for(before.config, targets, false, false);
    assert(targets.contains(point));
    assert forall|i: int| 0 <= i < targets.len() implies targets[i] == point by {
        assert(targets.contains(targets[i]));
    }
    if targets.len() > 1 {
        assert(targets[0] != targets[1]);
    }
    assert(targets.drop_first() =~= Seq::<Seq<char>>::empty());
    let event = ScannerEventView::Scanned(result);
    lemma_goes_idle(
        noted(asked, event),
        later_points,
        scans_noted(asked, event, meanwhile),
        done,
        later,
        next,
    );
    assert(done =~= before);
}

/// The mount points of a snapshot are as many as its mounts, and each is that
/// of the mount in its place, whatever else the mount says.
pub proof fn law_every_mount_has_its_mount_point(snapshot: &Snapshot, points: Vec<String>)
    requires
        call_ensures(mount_points_of, (snapshot,), points),
    ensures
        points@.len() == snapshot.mounts@.len(),
        forall|i: int|
            0 <= i < points@.len() ==> (#[trigger] points@[i])@
                == snapshot.mounts@[i].mount_point@,
        mount_points(snapshot@).len() == snapshot.mounts@.len(),
        forall|i: int|
            0 <= i < points@.len() ==> #[trigger] mount_points(snapshot@)[i]
                == snapshot.mounts@[i].mount_point@,
{
    lemma_mount_points(*snapshot);
    let told = views(points@);
    assert(told.len() == points@.len());
    assert forall|i: int| 0 <= i < points@.len() implies (#[trigger] points@[i])@
        == snapshot.mounts@[i].mount_point@ by {
        assert(told[i] == points@[i]@);
    }
}

proof fn lemma_mount_points(snapshot: Snapshot)
    ensures
        mount_points(snapshot@).len() == snapshot.mounts@.len(),
        forall|i: int|
            0 <= i < snapshot.mounts@.len() ==> #[trigger] mount_points(snapshot@)[i]
                == snapshot.mounts@[i].mount_point@,
{
    assert forall|i: int| 0 <= i < snapshot.mounts@.len() implies #[trigger] mount_points(
        snapshot@,
    )[i] == snapshot.mounts@[i].mount_point@ by {
        assert(snapshot@.mounts[i] == snapshot.mounts@[i]@);
    }
}

/// What is restricted to the mounts of a snapshot is what is known of those.
proof fn lemma_restricted(scans: Map<Seq<char>, ScanResultView>, snapshot: Snapshot)
    ensures
        ({
            let left = scans.restrict(mount_points(snapshot@).to_set());
            &&& forall|point: Seq<char>|
                #[trigger] left.dom().contains(point) <==> scans.dom().contains(point) && exists|
                    i: int,
                |
                    0 <= i < snapshot.mounts@.len() && (#[trigger] snapshot.mounts@[i]).mount_point@
                        == point
            &&& forall|point: Seq<char>| #[trigger]
                left.dom().contains(point) ==> left[point] == scans[point]
        }),
{
    let points = mount_points(snapshot@);
    let left = scans.restrict(points.to_set());
    lemma_mount_points(snapshot);
    assert forall|point: Seq<char>| points.contains(point) <==> exists|i: int|
        0 <= i < snapshot.mounts@.len() && (#[trigger] snapshot.mounts@[i]).mount_point@ == point by {
        if points.contains(point) {
            let i = choose|i: int| 0 <= i < points.len() && points[i] == point;
            assert(snapshot.mounts@[i].mount_point@ == point);
        }
        if exists|i: int|
            0 <= i < snapshot.mounts@.len() && (#[trigger] snapshot.mounts@[i]).mount_point@
                == point {
            let i = choose|i: int|
                0 <= i < snapshot.mounts@.len() && (#[trigger] snapshot.mounts@[i]).mount_point@
                    == point;
            assert(points[i] == point);
        }
    }
    assert forall|point: Seq<char>| #[trigger] left.dom().contains(point) <==> scans.dom().contains(
        point,
    ) && exists|i: int|
        0 <= i < snapshot.mounts@.len() && (#[trigger] snapshot.mounts@[i]).mount_point@ == point by {
        assert(points.to_set().contains(point) <==> points.contains(point));
    }
}

/// Requests that come together are joined: one for everything makes it all,
/// and otherwise each mount that is asked for is a target once, and nothing
/// else is.
pub proof fn law_requests_are_joined(requests: Vec<RescanRequest>, plan: RescanPlan)
    requires
        call_ensures(coalesce, (requests,), plan),
    ensures
        plan is All <==> exists|i: int| 0 <= i < requests@.len() && (#[trigger] requests@[i]) is All,
        plan matches RescanPlan::Mounts(targets) ==> {
            &&& views(targets@).len() == targets@.len()
            &&& views(targets@).no_duplicates()
            &&& forall|point: Seq<char>|
                #[trigger] views(targets@).contains(point) <==> exists|i: int|
                    0 <= i < requests@.len() && asks_for(#[trigger] requests@[i], point)
        },
{
    lemma_asked(requests@);
    if let RescanPlan::Mounts(targets) = plan {
        assert forall|point: Seq<char>|
            #[trigger] views(targets@).contains(point) <==> exists|i: int|
                0 <= i < requests@.len() && asks_for(#[trigger] requests@[i], point) by {
            assert(views(requests@).contains(RescanRequestView::One(point)) <==> exists|i: int|
                0 <= i < requests@.len() && asks_for(#[trigger] requests@[i], point));
        }
    }
}

/// Whether `request` asks for a scan of the mount at `point`.
pub open spec fn asks_for(request: RescanRequest, point: Seq<char>) -> bool {
    request matches RescanRequest::One(asked) && asked@ == point
}

/// What is asked for is asked for by some request.
proof fn lemma_asked(requests: Seq<RescanRequest>)
    ensures
        views(requests).contains(RescanRequestView::All) <==> exists|i: int|
            0 <= i < requests.len() && (#[trigger] requests[i]) is All,
        forall|point: Seq<char>| #[trigger]
            views(requests).contains(RescanRequestView::One(point)) <==> exists|i: int|
                0 <= i < requests.len() && asks_for(#[trigger] requests[i], point),
{
    let asked = views(requests);
    assert(asked.len() == requests.len());
    assert forall|i: int| 0 <= i < requests.len() implies asked[i] == (#[trigger] requests[i])@ by {}
    if asked.contains(RescanRequestView::All) {
        let i = choose|i: int| 0 <= i < asked.len() && asked[i] == RescanRequestView::All;
        assert(asked[i] == requests[i]@);
    }
    if exists|i: int| 0 <= i < requests.len() && (#[trigger] requests[i]) is All {
        let i = choose|i: int| 0 <= i < requests.len() && (#[trigger] requests[i]) is All;
        assert(asked[i] == RescanRequestView::All);
    }
    assert forall|point: Seq<char>| #[trigger]
        asked.contains(RescanRequestView::One(point)) <==> exists|i: int|
            0 <= i < requests.len() && asks_for(#[trigger] requests[i], point) by {
        if asked.contains(RescanRequestView::One(point)) {
            let i = choose|i: int|
                0 <= i < asked.len() && asked[i] == RescanRequestView::One(point);
            assert(asked[i] == requests[i]@);
            assert(asks_for(requests[i], point));
        }
        if exists|i: int| 0 <= i < requests.len() && asks_for(#[trigger] requests[i], point) {
            let i = choose|i: int| 0 <= i < requests.len() && asks_for(#[trigger] requests[i], point);
            assert(asked[i] == RescanRequestView::One(point));
        }
    }
}

/// A finished scan is recorded with the files that it found and the time.
pub proof fn law_results_carry_files_and_time(files: Vec<FileEntry>, result: ScanResult)
    requires
        call_ensures(stamp_scan, (files,), result),
    ensures
        result.files@ == files@,
        is_clock_text(result.scanned_at@),
{
}

/// The scanner is set up to keep twenty files, to scan everything ten minutes
/// after the last time, and first of all after one minute.
pub proof fn law_default_configuration(config: ScannerConfig)
    requires
        call_ensures(<ScannerConfig as Default>::default, (), config),
    ensures
        config.top_n == 20,
        config.refresh_interval_secs == 600,
        config.initial_delay_secs == 60,
{
}

/// A scanner starts by letting the time before the first scan pass, with nothing
/// under way, queued, due or waiting.
pub proof fn law_scanner_starts_by_waiting(
    config: ScannerConfig,
    start: (Scanner, ScannerAction),
)
    requires
        call_ensures(Scanner::start, (config,), start),
    ensures
        start.1.timer == Some(config.initial_delay_secs),
        start.1.work is Wait,
        start.0@.config == config,
        start.0@.delayed && !start.0@.due && !start.0@.full,
        start.0@.current is None,
        start.0@.queue.len() == 0,
        start.0@.waiting.len() == 0,
{
}

/// While a scan is under way, or the time before the first one is not over,
/// requests are put behind those that wait, and nothing else happens.
pub proof fn law_requests_wait_their_turn(
    scanner: &mut Scanner,
    event: ScannerEvent,
    snapshot: &Snapshot,
    cache: &mut LargestFilesCache,
    action: ScannerAction,
)
    requires
        call_ensures(Scanner::step, (scanner, event, snapshot, cache), action),
        event is Requested,
        old(scanner)@.delayed || old(scanner)@.current is Some,
    ensures
        action.timer is None && action.work is Wait,
        final(cache)@ == old(cache)@,
        ({
            let (before, after) = (old(scanner)@, final(scanner)@);
            let requests = event->Requested_0@;
            &&& after.config == before.config && after.delayed == before.delayed
            &&& after.due == before.due && after.full == before.full
            &&& after.current == before.current && after.queue == before.queue
            &&& after.waiting.len() == before.waiting.len() + requests.len()
            &&& forall|i: int|
                0 <= i < before.waiting.len() ==> #[trigger] after.waiting[i] == before.waiting[i]
            &&& forall|i: int|
                0 <= i < requests.len() ==> after.waiting[before.waiting.len() + i] == match (
                #[trigger] requests[i]) {
                    RescanRequest::All => RescanRequestView::All,
                    RescanRequest::One(point) => RescanRequestView::One(point@),
                }
        }),
{
    let requests = event->Requested_0@;
    let asked = views(requests);
    assert(asked.len() == requests.len());
    let (before, after) = (old(scanner)@.waiting, final(scanner)@.waiting);
    assert forall|i: int| 0 <= i < requests.len() implies after[before.len() + i] == match (
    #[trigger] requests[i]) {
        RescanRequest::All => RescanRequestView::All,
        RescanRequest::One(point) => RescanRequestView::One(point@),
    } by {
        assert(asked[i] == requests[i]@);
    }
}

/// When the timer elapses during a scan of everything, nothing happens; when it
/// does during another scan, a scan of everything is due from then on.
pub proof fn law_timer_waits_its_turn(
    scanner: &mut Scanner,
    event: ScannerEvent,
    snapshot: &Snapshot,
    cache: &mut LargestFilesCache,
    action: ScannerAction,
)
    requires
        call_ensures(Scanner::step, (scanner, event, snapshot, cache), action),
        event is TimerElapsed,
        old(scanner)@.current is Some,
    ensures
        action.timer is None && action.work is Wait,
        final(cache)@ == old(cache)@,
        ({
            let (before, after) = (old(scanner)@, final(scanner)@);
            &&& after.config == before.config && !after.delayed
            &&& after.full == before.full && after.current == before.current
            &&& after.queue == before.queue && after.waiting == before.waiting
            &&& before.full ==> after.due == before.due
            &&& !before.full ==> after.due
        }),
{
}

/// When the timer elapses and nothing is under way, a scan of everything begins:
/// of every mount of the snapshot in its place, with the asked-for number of
/// files. What is known of those mounts is kept, and the rest is forgotten.
/// Requests that wait go on waiting.
pub proof fn law_elapsed_timer_begins_a_full_pass(
    scanner: &mut Scanner,
    event: ScannerEvent,
    snapshot: &Snapshot,
    cache: &mut LargestFilesCache,
    action: ScannerAction,
)
    requires
        call_ensures(Scanner::step, (scanner, event, snapshot, cache), action),
        event is TimerElapsed,
        old(scanner)@.current is None && old(scanner)@.queue.len() == 0 && !old(scanner)@.full,
        snapshot.mounts@.len() > 0,
    ensures
        action.timer == None::<u64>,
        action.work matches ScannerWork::Scan { mount_point, top_n } && mount_point@
            == snapshot.mounts@[0].mount_point@ && top_n == old(scanner)@.config.top_n,
        final(scanner)@.full && !final(scanner)@.due && !final(scanner)@.delayed,
        final(scanner)@.config == old(scanner)@.config,
        final(scanner)@.current == Some(snapshot.mounts@[0].mount_point@),
        final(scanner)@.queue.len() == snapshot.mounts@.len() - 1,
        forall|i: int|
            0 < i < snapshot.mounts@.len() ==> final(scanner)@.queue[i - 1] == (
            #[trigger] snapshot.mounts@[i]).mount_point@,
        forall|point: Seq<char>|
            #[trigger] final(cache)@.dom().contains(point) <==> old(cache)@.dom().contains(point)
                && exists|i: int|
                0 <= i < snapshot.mounts@.len() && (#[trigger] snapshot.mounts@[i]).mount_point@
                    == point,
        forall|point: Seq<char>| #[trigger]
            final(cache)@.dom().contains(point) ==> final(cache)@[point] == old(cache)@[point],
        final(scanner)@.waiting == old(scanner)@.waiting,
{
    lemma_mount_points(*snapshot);
    lemma_restricted(old(cache)@, *snapshot);
    lemma_queue_behind(*snapshot);
}

/// Behind the first mount the others are queued in their places.
proof fn lemma_queue_behind(snapshot: Snapshot)
    requires
        snapshot.mounts@.len() > 0,
    ensures
        ({
            let queue = mount_points(snapshot@).drop_first();
            &&& queue.len() == snapshot.mounts@.len() - 1
            &&& forall|i: int|
                0 < i < snapshot.mounts@.len() ==> queue[i - 1] == (
                #[trigger] snapshot.mounts@[i]).mount_point@
        }),
{
    lemma_mount_points(snapshot);
    let points = mount_points(snapshot@);
    assert forall|i: int| 0 < i < snapshot.mounts@.len() implies points.drop_first()[i - 1] == (
    #[trigger] snapshot.mounts@[i]).mount_point@ by {
        assert(points[i] == snapshot.mounts@[i].mount_point@);
    }
}

/// When a scan ends, the first mount of the queue is scanned next. A result is
/// recorded under the mount that was scanned, and nothing else that is known
/// changes, nor does the timer.
pub proof fn law_next_of_the_queue_is_scanned(
    scanner: &mut Scanner,
    event: ScannerEvent,
    snapshot: &Snapshot,
    cache: &mut LargestFilesCache,
    action: ScannerAction,
)
    requires
        call_ensures(Scanner::step, (scanner, event, snapshot, cache), action),
        event is Scanned || event is ScanFailed,
        old(scanner)@.current is Some && !old(scanner)@.delayed,
        old(scanner)@.queue.len() > 0,
    ensures
        action.timer is None,
        action.work matches ScannerWork::Scan { mount_point, top_n } && mount_point@
            == old(scanner)@.queue[0] && top_n == old(scanner)@.config.top_n,
        ({
            let (before, after) = (old(scanner)@, final(scanner)@);
            &&& after.config == before.config && !after.delayed
            &&& after.due == before.due && after.full == before.full
            &&& after.waiting == before.waiting
            &&& after.current == Some(before.queue[0])
            &&& after.queue == before.queue.skip(1)
        }),
        forall|point: Seq<char>|
            #[trigger] final(cache)@.dom().contains(point) <==> old(cache)@.dom().contains(point)
                || event is Scanned && old(scanner)@.current == Some(point),
        forall|point: Seq<char>| #[trigger]
            final(cache)@.dom().contains(point) ==> final(cache)@[point] == if event is Scanned
                && old(scanner)@.current == Some(point) {
                event->Scanned_0@
            } else {
                old(cache)@[point]
            },
{
    assert(old(scanner)@.queue.drop_first() =~= old(scanner)@.queue.skip(1));
}

/// When the last scan of the queue ends and a scan of everything is due, that
/// one begins, before any request that waits is taken up.
pub proof fn law_due_full_pass_follows(
    scanner: &mut Scanner,
    event: ScannerEvent,
    snapshot: &Snapshot,
    cache: &mut LargestFilesCache,
    action: ScannerAction,
)
    requires
        call_ensures(Scanner::step, (scanner, event, snapshot, cache), action),
        event is Scanned || event is ScanFailed,
        old(scanner)@.current is Some && !old(scanner)@.delayed,
        old(scanner)@.queue.len() == 0 && old(scanner)@.due,
        snapshot.mounts@.len() > 0,
    ensures
        action.timer == if old(scanner)@.full {
            Some(old(scanner)@.config.refresh_interval_secs)
        } else {
            None
        },
        action.work matches ScannerWork::Scan { mount_point, top_n } && mount_point@
            == snapshot.mounts@[0].mount_point@ && top_n == old(scanner)@.config.top_n,
        final(scanner)@.full && !final(scanner)@.due && !final(scanner)@.delayed,
        final(scanner)@.config == old(scanner)@.config,
        final(scanner)@.current == Some(snapshot.mounts@[0].mount_point@),
        final(scanner)@.queue.len() == snapshot.mounts@.len() - 1,
        forall|i: int|
            0 < i < snapshot.mounts@.len() ==> final(scanner)@.queue[i - 1] == (
            #[trigger] snapshot.mounts@[i]).mount_point@,
        forall|point: Seq<char>|
            #[trigger] final(cache)@.dom().contains(point) <==> (old(cache)@.dom().contains(point)
                || event is Scanned && old(scanner)@.current == Some(point)) && exists|i: int|
                0 <= i < snapshot.mounts@.len() && (#[trigger] snapshot.mounts@[i]).mount_point@
                    == point,
        forall|point: Seq<char>| #[trigger]
            final(cache)@.dom().contains(point) ==> final(cache)@[point] == (if event is Scanned
                && old(scanner)@.current == Some(point) {
                event->Scanned_0@
            } else {
                old(cache)@[point]
            }),
        final(scanner)@.waiting == old(scanner)@.waiting,
{
    lemma_mount_points(*snapshot);
    lemma_restricted(scans_noted(old(scanner)@, event@, old(cache)@), *snapshot);
    lemma_queue_behind(*snapshot);
}

/// When the last scan of the queue ends and nothing is due or waiting, the
/// scanner goes idle. The timer is set if that was a scan of everything, and is
/// left alone otherwise.
pub proof fn law_last_scan_ends_the_work(
    scanner: &mut Scanner,
    event: ScannerEvent,
    snapshot: &Snapshot,
    cache: &mut LargestFilesCache,
    action: ScannerAction,
)
    requires
        call_ensures(Scanner::step, (scanner, event, snapshot, cache), action),
        event is Scanned || event is ScanFailed,
        old(scanner)@.current is Some && !old(scanner)@.delayed,
        old(scanner)@.queue.len() == 0 && !old(scanner)@.due && old(scanner)@.waiting.len() == 0,
    ensures
        action.timer == if old(scanner)@.full {
            Some(old(scanner)@.config.refresh_interval_secs)
        } else {
            None
        },
        action.work is Wait,
        ({
            let after = final(scanner)@;
            &&& after.config == old(scanner)@.config && !after.delayed
            &&& !after.due && !after.full && after.current is None
            &&& after.queue.len() == 0 && after.waiting.len() == 0
        }),
        forall|point: Seq<char>|
            #[trigger] final(cache)@.dom().contains(point) <==> old(cache)@.dom().contains(point)
                || event is Scanned && old(scanner)@.current == Some(point),
        forall|point: Seq<char>| #[trigger]
            final(cache)@.dom().contains(point) ==> final(cache)@[point] == if event is Scanned
                && old(scanner)@.current == Some(point) {
                event->Scanned_0@
            } else {
                old(cache)@[point]
            },
{
    lemma_goes_idle(
        noted(old(scanner)@, event@),
        mount_points(snapshot@),
        scans_noted(old(scanner)@, event@, old(cache)@),
        final(scanner)@,
        final(cache)@,
        action@,
    );
}

/// When the last scan of the queue ends, none is due, and a request for
/// everything waits, a scan of everything begins, and covers all that wait.
pub proof fn law_waiting_full_pass_follows(
    scanner: &mut Scanner,
    event: ScannerEvent,
    snapshot: &Snapshot,
    cache: &mut LargestFilesCache,
    action: ScannerAction,
)
    requires
        call_ensures(Scanner::step, (scanner, event, snapshot, cache), action),
        event is Scanned || event is ScanFailed,
        old(scanner)@.current is Some && !old(scanner)@.delayed,
        old(scanner)@.queue.len() == 0 && !old(scanner)@.due,
        old(scanner)@.waiting.contains(RescanRequestView::All),
        snapshot.mounts@.len() > 0,
    ensures
        action.timer == if old(scanner)@.full {
            Some(old(scanner)@.config.refresh_interval_secs)
        } else {
            None
        },
        action.work matches ScannerWork::Scan { mount_point, top_n } && mount_point@
            == snapshot.mounts@[0].mount_point@ && top_n == old(scanner)@.config.top_n,
        final(scanner)@.full && !final(scanner)@.due && !final(scanner)@.delayed,
        final(scanner)@.config == old(scanner)@.config,
        final(scanner)@.current == Some(snapshot.mounts@[0].mount_point@),
        final(scanner)@.queue.len() == snapshot.mounts@.len() - 1,
        forall|i: int|
            0 < i < snapshot.mounts@.len() ==> final(scanner)@.queue[i - 1] == (
            #[trigger] snapshot.mounts@[i]).mount_point@,
        forall|point: Seq<char>|
            #[trigger] final(cache)@.dom().contains(point) <==> (old(cache)@.dom().contains(point)
                || event is Scanned && old(scanner)@.current == Some(point)) && exists|i: int|
                0 <= i < snapshot.mounts@.len() && (#[trigger] snapshot.mounts@[i]).mount_point@
                    == point,
        forall|point: Seq<char>| #[trigger]
            final(cache)@.dom().contains(point) ==> final(cache)@[point] == (if event is Scanned
                && old(scanner)@.current == Some(point) {
                event->Scanned_0@
            } else {
                old(cache)@[point]
            }),
        final(scanner)@.waiting.len() == 0,
{
    lemma_mount_points(*snapshot);
    lemma_restricted(scans_noted(old(scanner)@, event@, old(cache)@), *snapshot);
    lemma_queue_behind(*snapshot);
}

/// When the last scan of the queue ends, none is due, and only requests for
/// single mounts wait, all the mounts that they name are scanned, each once, and
/// no others.
pub proof fn law_waiting_mounts_follow(
    scanner: &mut Scanner,
    event: ScannerEvent,
    snapshot: &Snapshot,
    cache: &mut LargestFilesCache,
    action: ScannerAction,
)
    requires
        call_ensures(Scanner::step, (scanner, event, snapshot, cache), action),
        event is Scanned || event is ScanFailed,
        old(scanner)@.current is Some && !old(scanner)@.delayed,
        old(scanner)@.queue.len() == 0 && !old(scanner)@.due,
        old(scanner)@.waiting.len() > 0,
        !old(scanner)@.waiting.contains(RescanRequestView::All),
    ensures
        action.timer == if old(scanner)@.full {
            Some(old(scanner)@.config.refresh_interval_secs)
        } else {
            None
        },
        final(scanner)@.current is Some && !final(scanner)@.full && !final(scanner)@.due,
        final(scanner)@.config == old(scanner)@.config && !final(scanner)@.delayed,
        final(scanner)@.waiting.len() == 0,
        action.work matches ScannerWork::Scan { mount_point, top_n } && Some(mount_point@)
            == final(scanner)@.current && top_n == old(scanner)@.config.top_n,
        (seq![final(scanner)@.current.unwrap()] + final(scanner)@.queue).no_duplicates(),
        forall|point: Seq<char>| #[trigger]
            (seq![final(scanner)@.current.unwrap()] + final(scanner)@.queue).contains(point)
                <==> old(scanner)@.waiting.contains(RescanRequestView::One(point)),
        forall|point: Seq<char>|
            #[trigger] final(cache)@.dom().contains(point) <==> old(cache)@.dom().contains(point)
                || event is Scanned && old(scanner)@.current == Some(point),
        forall|point: Seq<char>| #[trigger]
            final(cache)@.dom().contains(point) ==> final(cache)@[point] == if event is Scanned
                && old(scanner)@.current == Some(point) {
                event->Scanned_0@
            } else {
                old(cache)@[point]
            },
{
    let state = ScannerView { full: false, ..noted(old(scanner)@, event@) };
    lemma_targets_served(
        state,
        old(scanner)@.full,
        mount_points(snapshot@),
        scans_noted(old(scanner)@, event@, old(cache)@),
        final(scanner)@,
        final(cache)@,
        action@,
    );
}

/// Requests for single mounts that are taken up are for what is then being
/// scanned or queued.
proof fn lemma_targets_served(
    state: ScannerView,
    ended: bool,
    points: Seq<Seq<char>>,
    scans: Map<Seq<char>, ScanResultView>,
    after: ScannerView,
    later: Map<Seq<char>, ScanResultView>,
    action: ScannerActionView,
)
    requires
        is_service(state, ended, points, scans, after, later, action),
        state.waiting.len() > 0,
        !state.waiting.contains(RescanRequestView::All),
    ensures
        later == scans,
        action.timer == timer_after(state.config, ended),
        after.current is Some && !after.full,
        after.config == state.config && after.delayed == state.delayed && after.due == state.due,
        after.waiting.len() == 0,
        action.work == (ScannerWorkView::Scan {
            mount_point: after.current.unwrap(),
            top_n: state.config.top_n,
        }),
        (seq![after.current.unwrap()] + after.queue).no_duplicates(),
        forall|point: Seq<char>| #[trigger]
            (seq![after.current.unwrap()] + after.queue).contains(point)
                <==> state.waiting.contains(RescanRequestView::One(point)),
{
    let taken = ScannerView { waiting: Seq::empty(), ..state };
    let targets = choose|targets: Seq<Seq<char>>| #[trigger]
        is_target_list(targets, state.waiting) && after == at_work(taken, targets, false) && action
            == work_for(state.config, targets, false, ended);
    let first = state.waiting[0];
    assert(state.waiting.contains(first));
    if let RescanRequestView::One(point) = first {
        assert(targets.contains(point));
    }
    assert(targets.len() > 0);
    assert(seq![targets[0]] + targets.drop_first() =~= targets);
}

/// A request for everything that comes while the scanner is idle begins a scan
/// of everything at once, and the timer runs on.
pub proof fn law_requested_full_pass_begins(
    scanner: &mut Scanner,
    event: ScannerEvent,
    snapshot: &Snapshot,
    cache: &mut LargestFilesCache,
    action: ScannerAction,
)
    requires
        call_ensures(Scanner::step, (scanner, event, snapshot, cache), action),
        event matches ScannerEvent::Requested(requests) && exists|i: int|
            0 <= i < requests@.len() && (#[trigger] requests@[i]) is All,
        old(scanner)@.current is None && !old(scanner)@.delayed && !old(scanner)@.due,
        old(scanner)@.queue.len() == 0 && !old(scanner)@.full && old(scanner)@.waiting.len() == 0,
        snapshot.mounts@.len() > 0,
    ensures
        action.timer == None::<u64>,
        action.work matches ScannerWork::Scan { mount_point, top_n } && mount_point@
            == snapshot.mounts@[0].mount_point@ && top_n == old(scanner)@.config.top_n,
        final(scanner)@.full && !final(scanner)@.due && !final(scanner)@.delayed,
        final(scanner)@.config == old(scanner)@.config,
        final(scanner)@.current == Some(snapshot.mounts@[0].mount_point@),
        final(scanner)@.queue.len() == snapshot.mounts@.len() - 1,
        forall|i: int|
            0 < i < snapshot.mounts@.len() ==> final(scanner)@.queue[i - 1] == (
            #[trigger] snapshot.mounts@[i]).mount_point@,
        forall|point: Seq<char>|
            #[trigger] final(cache)@.dom().contains(point) <==> old(cache)@.dom().contains(point)
                && exists|i: int|
                0 <= i < snapshot.mounts@.len() && (#[trigger] snapshot.mounts@[i]).mount_point@
                    == point,
        forall|point: Seq<char>| #[trigger]
            final(cache)@.dom().contains(point) ==> final(cache)@[point] == old(cache)@[point],
        final(scanner)@.waiting.len() == 0,
{
    let requests = event->Requested_0@;
    lemma_asked(requests);
    assert(old(scanner)@.waiting + views(requests) =~= views(requests));
    lemma_mount_points(*snapshot);
    lemma_restricted(old(cache)@, *snapshot);
    lemma_queue_behind(*snapshot);
}

/// Requests for single mounts that come while the scanner is idle have those
/// mounts scanned at once, each once, and no others. What is known stays, and
/// the timer runs on.
pub proof fn law_requested_mounts_are_scanned_at_once(
    scanner: &mut Scanner,
    event: ScannerEvent,
    snapshot: &Snapshot,
    cache: &mut LargestFilesCache,
    action: ScannerAction,
)
    requires
        call_ensures(Scanner::step, (scanner, event, snapshot, cache), action),
        event matches ScannerEvent::Requested(requests) && requests@.len() > 0 && forall|i: int|
            0 <= i < requests@.len() ==> (#[trigger] requests@[i]) !is All,
        old(scanner)@.current is None && !old(scanner)@.delayed && !old(scanner)@.due,
        old(scanner)@.queue.len() == 0 && !old(scanner)@.full && old(scanner)@.waiting.len() == 0,
    ensures
        action.timer == None::<u64>,
        final(scanner)@.current is Some && !final(scanner)@.full && !final(scanner)@.due,
        final(scanner)@.config == old(scanner)@.config && !final(scanner)@.delayed,
        final(scanner)@.waiting.len() == 0,
        action.work matches ScannerWork::Scan { mount_point, top_n } && Some(mount_point@)
            == final(scanner)@.current && top_n == old(scanner)@.config.top_n,
        (seq![final(scanner)@.current.unwrap()] + final(scanner)@.queue).no_duplicates(),
        forall|point: Seq<char>| #[trigger]
            (seq![final(scanner)@.current.unwrap()] + final(scanner)@.queue).contains(point)
                <==> exists|i: int|
                0 <= i < event->Requested_0@.len() && asks_for(
                    #[trigger] event->Requested_0@[i],
                    point,
                ),
        final(cache)@ == old(cache)@,
{
    let requests = event->Requested_0@;
    lemma_asked(requests);
    assert(old(scanner)@.waiting + views(requests) =~= views(requests));
    assert(views(requests).len() == requests.len());
    lemma_targets_served(
        ScannerView { full: false, ..noted(old(scanner)@, event@) },
        false,
        mount_points(snapshot@),
        old(cache)@,
        final(scanner)@,
        final(cache)@,
        action@,
    );
    assert forall|point: Seq<char>| #[trigger]
        (seq![final(scanner)@.current.unwrap()] + final(scanner)@.queue).contains(point)
            <==> exists|i: int|
            0 <= i < requests.len() && asks_for(#[trigger] requests[i], point) by {
        assert(views(requests).contains(RescanRequestView::One(point)) <==> exists|i: int|
            0 <= i < requests.len() && asks_for(#[trigger] requests[i], point));
    }
}

/// A scan of everything while nothing is mounted has ended as it begins: the
/// timer is set, and nothing is known any more.
pub proof fn law_empty_full_pass_ends_at_once(
    scanner: &mut Scanner,
    event: ScannerEvent,
    snapshot: &Snapshot,
    cache: &mut LargestFilesCache,
    action: ScannerAction,
)
    requires
        call_ensures(Scanner::step, (scanner, event, snapshot, cache), action),
        old(scanner)@.current is None && old(scanner)@.queue.len() == 0 && !old(scanner)@.full,
        old(scanner)@.waiting.len() == 0,
        event is TimerElapsed || !old(scanner)@.delayed && !old(scanner)@.due && (event matches
            ScannerEvent::Requested(requests) && exists|i: int|
            0 <= i < requests@.len() && (#[trigger] requests@[i]) is All),
        snapshot.mounts@.len() == 0,
    ensures
        action.timer == Some(old(scanner)@.config.refresh_interval_secs),
        action.work is Wait,
        forall|point: Seq<char>| !#[trigger] final(cache)@.dom().contains(point),
        ({
            let after = final(scanner)@;
            &&& after.config == old(scanner)@.config && !after.delayed
            &&& !after.due && !after.full && after.current is None
            &&& after.queue.len() == 0 && after.waiting.len() == 0
        }),
{
    lemma_mount_points(*snapshot);
    lemma_restricted(old(cache)@, *snapshot);
    let points = mount_points(snapshot@);
    if let ScannerEvent::Requested(requests) = event {
        lemma_asked(requests@);
        assert(old(scanner)@.waiting + views(requests@) =~= views(requests@));
    } else {
        let state = ScannerView { due: false, full: false, ..noted(old(scanner)@, event@) };
        let taken = ScannerView { waiting: Seq::empty(), ..state };
        let targets = choose|targets: Seq<Seq<char>>| #[trigger]
            is_target_list(targets, state.waiting) && final(scanner)@ == at_work(
                taken,
                targets,
                false,
            ) && action@ == work_for(state.config, targets, false, true);
        if targets.len() > 0 {
            assert(targets.contains(targets[0]));
        }
    }
}

/// When the last scan of the queue ends, a scan of everything is owed, and
/// nothing is mounted, the timer is set and nothing is known any more. Requests
/// for single mounts that wait are then taken up if the timer asked for the scan
/// of everything; if a request did, it covered them.
pub proof fn law_empty_full_pass_gives_way(
    scanner: &mut Scanner,
    event: ScannerEvent,
    snapshot: &Snapshot,
    cache: &mut LargestFilesCache,
    action: ScannerAction,
)
    requires
        call_ensures(Scanner::step, (scanner, event, snapshot, cache), action),
        event is Scanned || event is ScanFailed || event is TimerElapsed,
        event is TimerElapsed ==> old(scanner)@.current is None && !old(scanner)@.full,
        !(event is TimerElapsed) ==> old(scanner)@.current is Some && !old(scanner)@.delayed && (
        old(scanner)@.due || old(scanner)@.waiting.contains(RescanRequestView::All)),
        old(scanner)@.queue.len() == 0,
        snapshot.mounts@.len() == 0,
    ensures
        action.timer == Some(old(scanner)@.config.refresh_interval_secs),
        forall|point: Seq<char>| !#[trigger] final(cache)@.dom().contains(point),
        final(scanner)@.config == old(scanner)@.config,
        !final(scanner)@.delayed && !final(scanner)@.due && !final(scanner)@.full,
        final(scanner)@.waiting.len() == 0,
        old(scanner)@.waiting.contains(RescanRequestView::All) ==> action.work is Wait
            && final(scanner)@.current is None && final(scanner)@.queue.len() == 0,
        old(scanner)@.waiting.len() == 0 ==> action.work is Wait && final(scanner)@.current is None
            && final(scanner)@.queue.len() == 0,
        old(scanner)@.waiting.len() > 0 && !old(scanner)@.waiting.contains(RescanRequestView::All)
            ==> final(scanner)@.current is Some && (seq![final(scanner)@.current.unwrap()]
            + final(scanner)@.queue).no_duplicates() && forall|point: Seq<char>| #[trigger]
            (seq![final(scanner)@.current.unwrap()] + final(scanner)@.queue).contains(point)
                <==> old(scanner)@.waiting.contains(RescanRequestView::One(point)),
        action.work is Wait <==> final(scanner)@.current is None,
        action.work matches ScannerWork::Scan { mount_point, top_n } ==> Some(mount_point@)
            == final(scanner)@.current && top_n == old(scanner)@.config.top_n,
{
    lemma_mount_points(*snapshot);
    let noted_scans = scans_noted(old(scanner)@, event@, old(cache)@);
    let points = mount_points(snapshot@);
    let left = noted_scans.restrict(points.to_set());
    lemma_restricted(noted_scans, *snapshot);
    lemma_restricted(left, *snapshot);
    if !old(scanner)@.waiting.contains(RescanRequestView::All) {
        let state = ScannerView { due: false, full: false, ..noted(old(scanner)@, event@) };
        if old(scanner)@.waiting.len() > 0 {
            lemma_targets_served(state, true, points, left, final(scanner)@, final(cache)@, action@);
        } else {
            let taken = ScannerView { waiting: Seq::empty(), ..state };
            let targets = choose|targets: Seq<Seq<char>>| #[trigger]
                is_target_list(targets, state.waiting) && final(scanner)@ == at_work(
                    taken,
                    targets,
                    false,
                ) && action@ == work_for(state.config, targets, false, true);
            if targets.len() > 0 {
                assert(targets.contains(targets[0]));
            }
        }
    }
}

/// News of a scan when none is under way, and no requests at all while the
/// scanner is idle, change nothing.
pub proof fn law_no_news_changes_nothing(
    scanner: &mut Scanner,
    event: ScannerEvent,
    snapshot: &Snapshot,
    cache: &mut LargestFilesCache,
    action: ScannerAction,
)
    requires
        call_ensures(Scanner::step, (scanner, event, snapshot, cache), action),
        old(scanner)@.current is None && old(scanner)@.queue.len() == 0 && !old(scanner)@.full,
        old(scanner)@.delayed || !old(scanner)@.due && old(scanner)@.waiting.len() == 0,
        event is Scanned || event is ScanFailed || !old(scanner)@.delayed && (event matches
            ScannerEvent::Requested(requests) && requests@.len() == 0),
    ensures
        action.timer is None && action.work is Wait,
        final(cache)@ == old(cache)@,
        final(scanner)@ == old(scanner)@,
{
    if let ScannerEvent::Requested(requests) = event {
        assert(old(scanner)@.waiting + views(requests@) =~= old(scanner)@.waiting);
    }
    if !old(scanner)@.delayed {
        lemma_goes_idle(
            noted(old(scanner)@, event@),
            mount_points(snapshot@),
            scans_noted(old(scanner)@, event@, old(cache)@),
            final(scanner)@,
            final(cache)@,
            action@,
        );
    }
    assert(final(scanner)@ =~= old(scanner)@);
}

/// A copy of a request asks for the same.
pub proof fn law_copied_requests_ask_the_same(
    request: RescanRequest,
    copy: RescanRequest,
    point: Seq<char>,
)
    requires
        call_ensures(<RescanRequest as Clone>::clone, (&request,), copy),
    ensures
        copy is All <==> request is All,
        asks_for(copy, point) <==> asks_for(request, point),
{
}

} // verus!
