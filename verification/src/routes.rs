//! What the HTTP interface answers.

use vstd::prelude::*;

use crate::model::{option_view, views, Mount, MountView, Snapshot};
use crate::scanner::{RescanRequest, RescanRequestView};
use crate::text::{
    law_leading_slashes_are_cut, lemma_trimmed, root_path, rooted, same_text,
    trim_leading_slashes, without_leading_slashes,
};

verus! {

/// Why a request is refused.
#[derive(Clone, Copy, Debug, PartialEq, Eq)]
pub enum RouteError {
    NotFound,
    ServiceUnavailable,
    InternalServerError,
}

impl RouteError {
    /// The HTTP status that goes with the refusal.
    pub fn status(&self) -> (code: u16)
        ensures
            code == match self {
                RouteError::NotFound => 404u16,
                RouteError::ServiceUnavailable => 503,
                RouteError::InternalServerError => 500,
            },
    {
        match self {
            RouteError::NotFound => 404,
            RouteError::ServiceUnavailable => 503,
            RouteError::InternalServerError => 500,
        }
    }
}

/// That the daemon is up, and for how long.
#[derive(Debug, PartialEq, Eq)]
pub struct HealthResponse {
    pub status: &'static str,
    pub uptime_s: u64,
}

/// Answers a health check.
pub fn healthz(uptime_s: u64) -> (response: HealthResponse)
    ensures
        response.status@ == "ok"@,
        response.uptime_s == uptime_s,
{
    HealthResponse { status: "ok", uptime_s }
}

/// What runs where.
#[derive(Debug, PartialEq, Eq)]
pub struct InfoResponse {
    pub backend_version: &'static str,
    pub api_version: &'static str,
    pub host: String,
    pub kernel: Option<String>,
    pub mount_count: usize,
}

/// Tells what runs where.
pub fn info(
    backend_version: &'static str,
    api_version: &'static str,
    kernel: &Option<String>,
    snapshot: &Snapshot,
) -> (response: InfoResponse)
    ensures
        response.backend_version@ == backend_version@,
        response.api_version@ == api_version@,
        response.host@ == snapshot.host@,
        option_view(response.kernel) == option_view(*kernel),
        response.mount_count == snapshot.mounts@.len(),
{
    InfoResponse {
        backend_version,
        api_version,
        host: snapshot.host.clone(),
        kernel: kernel.clone(),
        mount_count: snapshot.mounts.len(),
    }
}

/// Tells the whole of the current snapshot.
pub fn snapshot(current: &Snapshot) -> (response: Snapshot)
    ensures
        response@ == current@,
{
    current.clone()
}

/// A mount in short.
#[derive(Debug, PartialEq, Eq)]
pub struct MountSummary {
    pub mount_point: String,
    pub device: String,
    pub fs_type: String,
    pub total_bytes: u64,
}

/// The view of a `MountSummary`.
#[verifier::ext_equal]
pub struct MountSummaryView {
    pub mount_point: Seq<char>,
    pub device: Seq<char>,
    pub fs_type: Seq<char>,
    pub total_bytes: u64,
}

impl View for MountSummary {
    type V = MountSummaryView;

    open spec fn view(&self) -> MountSummaryView {
        MountSummaryView {
            mount_point: self.mount_point@,
            device: self.device@,
            fs_type: self.fs_type@,
            total_bytes: self.total_bytes,
        }
    }
}

/// `mount` in short.
pub open spec fn summary_of(mount: MountView) -> MountSummaryView {
    MountSummaryView {
        mount_point: mount.mount_point,
        device: mount.device,
        fs_type: mount.fs_type,
        total_bytes: mount.usage.total_bytes,
    }
}

/// Tells the mounts of the current snapshot in short.
pub fn mounts(current: &Snapshot) -> (response: Vec<MountSummary>)
    ensures
        views(response@) == current@.mounts.map_values(|mount: MountView| summary_of(mount)),
{
    let ghost all = current@.mounts.map_values(|mount: MountView| summary_of(mount));
    let mut response: Vec<MountSummary> = Vec::new();
    let mut i: usize = 0;
    while i < current.mounts.len()
        invariant
            i <= current.mounts.len(),
            all == current@.mounts.map_values(|mount: MountView| summary_of(mount)),
            views(response@) == all.take(i as int),
        decreases current.mounts.len() - i,
    {
        let ghost before = views(response@);
        let mount = &current.mounts[i];
        response.push(
            MountSummary {
                mount_point: mount.mount_point.clone(),
                device: mount.device.clone(),
                fs_type: mount.fs_type.clone(),
                total_bytes: mount.usage.total_bytes,
            },
        );
        assert(views(response@) =~= before.push(all[i as int]));
        assert(all.take(i + 1) =~= before.push(all[i as int]));
        i = i + 1;
    }
    assert(all.take(i as int) =~= all);
    response
}

/// Whether `path`, which usually comes without the leading slash, names the
/// mount at `mount_point`.
pub open spec fn names(path: Seq<char>, mount_point: Seq<char>) -> bool {
    mount_point == rooted(path) || without_leading_slashes(mount_point) == path
}

/// The first of `mounts` that `path` names.
pub open spec fn find_mount(mounts: Seq<MountView>, path: Seq<char>) -> Option<MountView>
    decreases mounts.len(),
{
    if mounts.len() == 0 {
        None
    } else if names(path, mounts[0].mount_point) {
        Some(mounts[0])
    } else {
        find_mount(mounts.drop_first(), path)
    }
}

/// Tells the mount of the current snapshot that `path` names. `path` is the
/// mount point with the leading slash already stripped: `Volumes/External` for
/// `/Volumes/External`.
pub fn mount(current: &Snapshot, path: &str) -> (response: Result<Mount, RouteError>)
    ensures
        match response {
            Ok(mount) => find_mount(current@.mounts, path@) == Some(mount@),
            Err(error) => find_mount(current@.mounts, path@) is None && error
                == RouteError::NotFound,
        },
{
    let needle = root_path(path);
    let ghost all = current@.mounts;
    let mut i: usize = 0;
    assert(all.skip(0) =~= all);
    while i < current.mounts.len()
        invariant
            i <= current.mounts.len(),
            all == current@.mounts,
            needle@ == rooted(path@),
            find_mount(all, path@) == find_mount(all.skip(i as int), path@),
        decreases current.mounts.len() - i,
    {
        let mount = &current.mounts[i];
        assert(all.skip(i as int)[0] == mount@);
        if same_text(mount.mount_point.as_str(), needle.as_str()) || same_text(
            trim_leading_slashes(mount.mount_point.as_str()),
            path,
        ) {
            return Ok(mount.clone());
        }
        assert(all.skip(i as int).drop_first() =~= all.skip(i + 1));
        i = i + 1;
    }
    Err(RouteError::NotFound)
}

/// That a scan is under way, and of what.
#[derive(Debug, PartialEq, Eq)]
pub struct RescanResponse {
    pub queued: bool,
    pub target: String,
}

/// The request to hand to the scanner when a scan of everything is asked for.
/// Without a scanner it is refused.
pub fn rescan_all(scanner_runs: bool) -> (request: Result<RescanRequest, RouteError>)
    ensures
        request == if scanner_runs {
            Ok::<RescanRequest, RouteError>(RescanRequest::All)
        } else {
            Err(RouteError::ServiceUnavailable)
        },
{
    if !scanner_runs {
        return Err(RouteError::ServiceUnavailable);
    }
    Ok(RescanRequest::All)
}

/// Whether one of `mounts` is at `mount_point`.
pub open spec fn is_mounted(mounts: Seq<MountView>, mount_point: Seq<char>) -> bool {
    exists|i: int| 0 <= i < mounts.len() && (#[trigger] mounts[i]).mount_point == mount_point
}

/// The request to hand to the scanner when a scan of the mount at `path` is
/// asked for. Without a scanner it is refused, and so it is for a mount that
/// the current snapshot does not have.
pub fn rescan_one(
    scanner_runs: bool,
    current: &Snapshot,
    path: &str,
) -> (request: Result<RescanRequest, RouteError>)
    ensures
        match request {
            Ok(one) => scanner_runs && is_mounted(current@.mounts, rooted(path@)) && one@
                == RescanRequestView::One(rooted(path@)),
            Err(RouteError::ServiceUnavailable) => !scanner_runs,
            Err(RouteError::NotFound) => scanner_runs && !is_mounted(
                current@.mounts,
                rooted(path@),
            ),
            Err(RouteError::InternalServerError) => false,
        },
{
    if !scanner_runs {
        return Err(RouteError::ServiceUnavailable);
    }
    let needle = root_path(path);
    let mut known = false;
    let mut i: usize = 0;
    while i < current.mounts.len()
        invariant
            i <= current.mounts.len(),
            known == exists|j: int|
                0 <= j < i && (#[trigger] current@.mounts[j]).mount_point == needle@,
        decreases current.mounts.len() - i,
    {
        assert(current@.mounts[i as int].mount_point == current.mounts@[i as int].mount_point@);
        if same_text(current.mounts[i].mount_point.as_str(), needle.as_str()) {
            known = true;
        }
        i = i + 1;
    }
    if !known {
        return Err(RouteError::NotFound);
    }
    Ok(RescanRequest::One(needle))
}

/// What a request for a scan is told to be about.
pub open spec fn target_of(request: RescanRequestView) -> Seq<char> {
    match request {
        RescanRequestView::All => "*"@,
        RescanRequestView::One(mount_point) => mount_point,
    }
}

/// Answers a request for a scan once it was handed to the scanner, or could not
/// be.
pub fn rescan_reply(
    request: RescanRequest,
    delivered: bool,
) -> (response: Result<RescanResponse, RouteError>)
    ensures
        match response {
            Ok(reply) => delivered && reply.queued && reply.target@ == target_of(request@),
            Err(error) => !delivered && error == RouteError::InternalServerError,
        },
{
    if !delivered {
        return Err(RouteError::InternalServerError);
    }
    let target = match request {
        RescanRequest::All => "*".to_owned(),
        RescanRequest::One(mount_point) => mount_point,
    };
    Ok(RescanResponse { queued: true, target })
}

/// A mount is found if and only if the path names one, and what is found is a
/// mount that the path names.
proof fn lemma_find_mount(mounts: Seq<MountView>, path: Seq<char>)
    ensures
        find_mount(mounts, path) is Some <==> exists|i: int|
            0 <= i < mounts.len() && names(path, (#[trigger] mounts[i]).mount_point),
        find_mount(mounts, path) matches Some(mount) ==> mounts.contains(mount) && names(
            path,
            mount.mount_point,
        ),
    decreases mounts.len(),
{
    if mounts.len() > 0 {
        let rest = mounts.drop_first();
        lemma_find_mount(rest, path);
        assert(forall|i: int| 0 <= i < rest.len() ==> rest[i] == mounts[i + 1]);
        if !names(path, mounts[0].mount_point) {
            if exists|i: int| 0 <= i < mounts.len() && names(
                path,
                (#[trigger] mounts[i]).mount_point,
            ) {
                let i = choose|i: int|
                    0 <= i < mounts.len() && names(path, (#[trigger] mounts[i]).mount_point);
                assert(rest[i - 1] == mounts[i]);
                assert(names(path, rest[i - 1].mount_point));
            }
            if let Some(mount) = find_mount(rest, path) {
                let i = choose|i: int| 0 <= i < rest.len() && rest[i] == mount;
                assert(mounts[i + 1] == mount);
            }
        } else {
            assert(mounts.contains(mounts[0]));
        }
    }
}

/// Every mount of a snapshot can be asked for by its mount point without the
/// leading slashes, and what is then told is a mount at that mount point, up to
/// the slashes that it begins with.
pub proof fn law_listed_mounts_are_found(mounts: Seq<MountView>, i: int)
    requires
        0 <= i < mounts.len(),
    ensures
        ({
            let path = without_leading_slashes(mounts[i].mount_point);
            find_mount(mounts, path) matches Some(mount) && mounts.contains(mount)
                && without_leading_slashes(mount.mount_point) == path
        }),
{
    let path = without_leading_slashes(mounts[i].mount_point);
    lemma_find_mount(mounts, path);
    lemma_trimmed(mounts[i].mount_point);
    lemma_trimmed(path);
    assert(names(path, mounts[i].mount_point));
}

/// A mount that can be scanned on request can also be looked up.
pub proof fn law_scannable_mounts_are_found(mounts: Seq<MountView>, path: Seq<char>)
    requires
        is_mounted(mounts, rooted(path)),
    ensures
        find_mount(mounts, path) is Some,
{
    lemma_find_mount(mounts, path);
    let i = choose|i: int|
        0 <= i < mounts.len() && (#[trigger] mounts[i]).mount_point == rooted(path);
    assert(names(path, mounts[i].mount_point));
}

/// As many mounts are counted as are listed.
pub proof fn law_count_is_that_of_the_list(current: Snapshot)
    ensures
        current@.mounts.map_values(|mount: MountView| summary_of(mount)).len()
            == current.mounts@.len(),
{
}

/// Each refusal has an HTTP status of its own.
pub proof fn law_refusals_have_their_status(error: RouteError, code: u16)
    requires
        call_ensures(RouteError::status, (&error,), code),
    ensures
        error is NotFound <==> code == 404,
        error is ServiceUnavailable <==> code == 503,
        error is InternalServerError <==> code == 500,
{
}

/// The health check says that all is well, and for how long it has been.
pub proof fn law_health_tells_the_uptime(uptime_s: u64, response: HealthResponse)
    requires
        call_ensures(healthz, (uptime_s,), response),
    ensures
        response.status@ == "ok"@,
        response.uptime_s == uptime_s,
{
}

/// What runs where is told as it was given, with the host of the snapshot and
/// the number of its mounts.
pub proof fn law_info_tells_the_host(
    backend_version: &'static str,
    api_version: &'static str,
    kernel: &Option<String>,
    current: &Snapshot,
    response: InfoResponse,
)
    requires
        call_ensures(info, (backend_version, api_version, kernel, current), response),
    ensures
        response.backend_version@ == backend_version@,
        response.api_version@ == api_version@,
        response.host@ == current.host@,
        response.mount_count == current.mounts@.len(),
        response.kernel is Some <==> kernel is Some,
        *kernel matches Some(text) ==> response.kernel.unwrap()@ == text@,
{
}

/// The whole of the current snapshot is told, with every file of every mount.
pub proof fn law_snapshot_is_told_whole(current: &Snapshot, response: Snapshot)
    requires
        call_ensures(snapshot, (current,), response),
    ensures
        response.timestamp@ == current.timestamp@,
        response.host@ == current.host@,
        response.mounts@.len() == current.mounts@.len(),
        forall|i: int|
            0 <= i < current.mounts@.len() ==> {
                let (told, mount) = (#[trigger] response.mounts@[i], current.mounts@[i]);
                &&& told.mount_point@ == mount.mount_point@
                &&& told.device@ == mount.device@
                &&& told.fs_type@ == mount.fs_type@
                &&& told.usage == mount.usage
                &&& views(told.largest_files@) == views(mount.largest_files@)
                &&& option_view(told.largest_files_scanned_at) == option_view(
                    mount.largest_files_scanned_at,
                )
            },
{
    let (all, told) = (current@.mounts, response@.mounts);
    assert(all.len() == current.mounts@.len() && told.len() == response.mounts@.len());
    assert forall|i: int| 0 <= i < current.mounts@.len() implies (
    #[trigger] response.mounts@[i])@ == current.mounts@[i]@ by {
        assert(told[i] == response.mounts@[i]@ && all[i] == current.mounts@[i]@);
    }
}

/// The mounts of the snapshot are told in short, all of them and in their order,
/// each with its own device, type and size.
pub proof fn law_every_mount_is_told_in_short(current: &Snapshot, response: Vec<MountSummary>)
    requires
        call_ensures(mounts, (current,), response),
    ensures
        response@.len() == current.mounts@.len(),
        forall|i: int|
            0 <= i < current.mounts@.len() ==> {
                let (told, mount) = (#[trigger] response@[i], current.mounts@[i]);
                &&& told.mount_point@ == mount.mount_point@
                &&& told.device@ == mount.device@
                &&& told.fs_type@ == mount.fs_type@
                &&& told.total_bytes == mount.usage.total_bytes
            },
{
    let (all, told) = (current@.mounts, views(response@));
    assert(all.len() == current.mounts@.len() && told.len() == response@.len());
    assert forall|i: int| 0 <= i < current.mounts@.len() implies {
        let (told, mount) = (#[trigger] response@[i], current.mounts@[i]);
        &&& told.mount_point@ == mount.mount_point@
        &&& told.device@ == mount.device@
        &&& told.fs_type@ == mount.fs_type@
        &&& told.total_bytes == mount.usage.total_bytes
    } by {
        assert(told[i] == response@[i]@ && all[i] == current.mounts@[i]@);
        assert(told[i] == summary_of(all[i]));
    }
}

/// The mount that is told is the first whose mount point is the path behind one
/// slash, or is the path once its own leading slashes are cut; if there is none,
/// it is not found.
pub proof fn law_first_named_mount_is_told(
    current: &Snapshot,
    path: &str,
    response: Result<Mount, RouteError>,
)
    requires
        call_ensures(mount, (current, path), response),
    ensures
        ({
            let fits = |point: Seq<char>| point == rooted(path@) || without_leading_slashes(point)
                == path@;
            match response {
                Ok(told) => exists|i: int|
                    0 <= i < current.mounts@.len() && (#[trigger] current.mounts@[i])@ == told@
                        && fits(told.mount_point@) && forall|k: int|
                        0 <= k < i ==> !fits((#[trigger] current.mounts@[k]).mount_point@),
                Err(error) => error is NotFound && forall|k: int|
                    0 <= k < current.mounts@.len() ==> !fits(
                        (#[trigger] current.mounts@[k]).mount_point@,
                    ),
            }
        }),
{
    let fits = |point: Seq<char>| point == rooted(path@) || without_leading_slashes(point) == path@;
    let all = current@.mounts;
    assert(all.len() == current.mounts@.len());
    assert forall|k: int| 0 <= k < all.len() implies #[trigger] all[k] == current.mounts@[k]@ by {}
    match response {
        Ok(told) => {
            let i = lemma_first_found(all, path@);
            assert(current.mounts@[i]@ == told@);
            assert(fits(told.mount_point@));
            assert forall|k: int| 0 <= k < i implies !fits(
                (#[trigger] current.mounts@[k]).mount_point@,
            ) by {
                assert(all[k] == current.mounts@[k]@);
                assert(!names(path@, all[k].mount_point));
            }
        },
        Err(_) => {
            lemma_find_mount(all, path@);
            assert forall|k: int| 0 <= k < current.mounts@.len() implies !fits(
                (#[trigger] current.mounts@[k]).mount_point@,
            ) by {
                assert(all[k] == current.mounts@[k]@);
                assert(!names(path@, all[k].mount_point));
            }
        },
    }
}

/// What is found is the first mount that the path names.
proof fn lemma_first_found(mounts: Seq<MountView>, path: Seq<char>) -> (i: int)
    requires
        find_mount(mounts, path) is Some,
    ensures
        0 <= i < mounts.len(),
        find_mount(mounts, path) == Some(mounts[i]),
        names(path, mounts[i].mount_point),
        forall|k: int| 0 <= k < i ==> !names(path, (#[trigger] mounts[k]).mount_point),
    decreases mounts.len(),
{
    if names(path, mounts[0].mount_point) {
        0
    } else {
        let rest = mounts.drop_first();
        let i = lemma_first_found(rest, path) + 1;
        assert forall|k: int| 0 <= k < i implies !names(
            path,
            (#[trigger] mounts[k]).mount_point,
        ) by {
            if k > 0 {
                assert(rest[k - 1] == mounts[k]);
            }
        }
        i
    }
}

/// A mount point that is a slash and text that begins with none is what its
/// text is behind one slash, with its own slash or without.
proof fn lemma_point_is_rooted(point: Seq<char>, path: Seq<char>)
    requires
        point.len() > 0 && point[0] == '/',
        point.len() > 1 ==> point[1] != '/',
        path == point || path == point.skip(1),
    ensures
        rooted(path) == point,
        without_leading_slashes(point) == point.skip(1),
{
    let tail = point.skip(1);
    assert(point.drop_first() =~= tail);
    assert(without_leading_slashes(tail) == tail);
    assert(without_leading_slashes(point) == tail);
    assert(seq!['/'] + tail =~= point);
}

/// Every mount of the snapshot, wherever it stands, whose mount point is a slash
/// and text that begins with none, is told when it is asked for by that mount
/// point, with its slash or without. What is told is at that mount point, up to
/// leading slashes.
pub proof fn law_every_mount_can_be_asked_for(
    current: &Snapshot,
    path: &str,
    response: Result<Mount, RouteError>,
    i: int,
)
    requires
        call_ensures(mount, (current, path), response),
        0 <= i < current.mounts@.len(),
        ({
            let point = current.mounts@[i].mount_point@;
            &&& point.len() > 0 && point[0] == '/'
            &&& point.len() > 1 ==> point[1] != '/'
            &&& path@ == point || path@ == point.skip(1)
        }),
    ensures
        response matches Ok(told) && without_leading_slashes(told.mount_point@)
            == current.mounts@[i].mount_point@.skip(1),
{
    let point = current.mounts@[i].mount_point@;
    law_first_named_mount_is_told(current, path, response);
    lemma_point_is_rooted(point, path@);
    if path@ == point {
        // No text without its leading slashes begins with one.
        if let Ok(told) = response {
            law_leading_slashes_are_cut(told.mount_point@);
        }
    }
}

/// A scan of everything is asked for when the scanner runs, and refused when it
/// does not.
pub proof fn law_rescan_of_everything_needs_the_scanner(
    scanner_runs: bool,
    request: Result<RescanRequest, RouteError>,
)
    requires
        call_ensures(rescan_all, (scanner_runs,), request),
    ensures
        scanner_runs ==> (request matches Ok(asked) && asked is All),
        !scanner_runs ==> (request matches Err(error) && error is ServiceUnavailable),
{
}

/// Every mount of the snapshot, wherever it stands, whose mount point is a slash
/// and text that begins with none, can be asked for by that mount point, with
/// its slash or without: when the scanner runs, that very mount point is asked
/// for, and when it does not, the request is refused.
pub proof fn law_every_mount_can_be_rescanned(
    scanner_runs: bool,
    current: &Snapshot,
    path: &str,
    request: Result<RescanRequest, RouteError>,
    i: int,
)
    requires
        call_ensures(rescan_one, (scanner_runs, current, path), request),
        0 <= i < current.mounts@.len(),
        ({
            let point = current.mounts@[i].mount_point@;
            &&& point.len() > 0 && point[0] == '/'
            &&& point.len() > 1 ==> point[1] != '/'
            &&& path@ == point || path@ == point.skip(1)
        }),
    ensures
        scanner_runs ==> (request matches Ok(asked) && asked matches RescanRequest::One(target)
            && target@ == current.mounts@[i].mount_point@),
        !scanner_runs ==> (request matches Err(error) && error is ServiceUnavailable),
{
    let point = current.mounts@[i].mount_point@;
    lemma_point_is_rooted(point, path@);
    assert(current@.mounts[i] == current.mounts@[i]@);
    assert(current@.mounts[i].mount_point == rooted(path@));
}

/// Nothing but a mount of the snapshot can be asked for: what is asked for is
/// the path behind one slash, and some mount of the snapshot is at it. Where
/// none is, the request is refused.
pub proof fn law_only_mounts_can_be_rescanned(
    scanner_runs: bool,
    current: &Snapshot,
    path: &str,
    request: Result<RescanRequest, RouteError>,
)
    requires
        call_ensures(rescan_one, (scanner_runs, current, path), request),
    ensures
        request matches Ok(asked) ==> scanner_runs && (asked matches RescanRequest::One(target)
            && target@ == rooted(path@) && exists|i: int|
            0 <= i < current.mounts@.len() && (#[trigger] current.mounts@[i]).mount_point@
                == target@),
        request matches Err(error) ==> if scanner_runs {
            error is NotFound && forall|i: int|
                0 <= i < current.mounts@.len() ==> (#[trigger] current.mounts@[i]).mount_point@
                    != rooted(path@)
        } else {
            error is ServiceUnavailable
        },
{
    let all = current@.mounts;
    assert(all.len() == current.mounts@.len());
    match request {
        Ok(_) => {
            let i = choose|i: int|
                0 <= i < all.len() && (#[trigger] all[i]).mount_point == rooted(path@);
            assert(all[i] == current.mounts@[i]@);
        },
        Err(_) => {
            if scanner_runs {
                assert forall|i: int| 0 <= i < current.mounts@.len() implies (
                #[trigger] current.mounts@[i]).mount_point@ != rooted(path@) by {
                    assert(all[i] == current.mounts@[i]@);
                }
            }
        },
    }
}

/// A request that reached the scanner is answered with what it is about, the
/// mount point or a star for everything; one that did not is a failure.
pub proof fn law_reply_tells_the_target(
    request: RescanRequest,
    delivered: bool,
    response: Result<RescanResponse, RouteError>,
)
    requires
        call_ensures(rescan_reply, (request, delivered), response),
    ensures
        delivered ==> (response matches Ok(reply) && reply.queued && (match request {
            RescanRequest::All => reply.target@ == "*"@,
            RescanRequest::One(point) => reply.target@ == point@,
        })),
        !delivered ==> (response matches Err(error) && error is InternalServerError),
{
}

} // verus!
