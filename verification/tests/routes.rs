use disk_monitor::model::{Mount, Snapshot, Usage};
use disk_monitor::routes::{
    healthz, info, mount, mounts, rescan_all, rescan_one, rescan_reply, snapshot, RescanResponse,
    RouteError,
};
use disk_monitor::scanner::RescanRequest;

fn current(points: &[&str]) -> Snapshot {
    Snapshot {
        timestamp: "t".into(),
        host: "mac".into(),
        mounts: points
            .iter()
            .map(|p| Mount {
                mount_point: p.to_string(),
                device: format!("dev{p}"),
                fs_type: "apfs".into(),
                usage: Usage { used_bytes: 1, free_bytes: 2, total_bytes: 3 },
                largest_files: vec![],
                largest_files_scanned_at: None,
            })
            .collect(),
    }
}

#[test]
fn health_is_ok() {
    let response = healthz(17);
    assert_eq!(response.status, "ok");
    assert_eq!(response.uptime_s, 17);
}

#[test]
fn info_counts_the_mounts() {
    let response = info("1.2.3", "v1", &Some("Darwin 25".to_string()), &current(&["/", "/a"]));
    assert_eq!(response.backend_version, "1.2.3");
    assert_eq!(response.api_version, "v1");
    assert_eq!(response.host, "mac");
    assert_eq!(response.kernel, Some("Darwin 25".to_string()));
    assert_eq!(response.mount_count, 2);
    assert_eq!(info("a", "b", &None, &current(&[])).kernel, None);
}

#[test]
fn the_snapshot_is_told_as_it_is() {
    assert_eq!(snapshot(&current(&["/", "/a"])), current(&["/", "/a"]));
}

#[test]
fn mounts_are_told_in_short() {
    let response = mounts(&current(&["/", "/a"]));
    assert_eq!(response.len(), 2);
    assert_eq!(response[1].mount_point, "/a");
    assert_eq!(response[1].device, "dev/a");
    assert_eq!(response[1].fs_type, "apfs");
    assert_eq!(response[1].total_bytes, 3);
}

#[test]
fn a_mount_is_found_by_its_path() {
    let snap = current(&["/", "/Volumes/External"]);
    assert_eq!(mount(&snap, "Volumes/External").unwrap().mount_point, "/Volumes/External");
    assert_eq!(mount(&snap, "/Volumes/External").unwrap().mount_point, "/Volumes/External");
    assert_eq!(mount(&snap, "//Volumes/External").unwrap().mount_point, "/Volumes/External");
    assert_eq!(mount(&snap, "").unwrap().mount_point, "/");
    assert_eq!(mount(&snap, "/").unwrap().mount_point, "/");
    assert_eq!(mount(&snap, "Volumes").err(), Some(RouteError::NotFound));
}

#[test]
fn a_mount_point_without_a_slash_is_found_too() {
    let snap = current(&["odd", "//twice"]);
    assert_eq!(mount(&snap, "odd").unwrap().mount_point, "odd");
    assert_eq!(mount(&snap, "twice").unwrap().mount_point, "//twice");
    assert_eq!(mount(&snap, "/odd").err(), Some(RouteError::NotFound));
}

#[test]
fn the_first_of_several_mounts_is_told() {
    let mut snap = current(&["/a", "/a"]);
    snap.mounts[1].device = "second".into();
    assert_eq!(mount(&snap, "a").unwrap().device, "dev/a");
}

#[test]
fn scans_are_refused_without_a_scanner() {
    let snap = current(&["/a"]);
    assert_eq!(rescan_all(false), Err(RouteError::ServiceUnavailable));
    assert_eq!(rescan_one(false, &snap, "a"), Err(RouteError::ServiceUnavailable));
    assert_eq!(rescan_one(false, &snap, "b"), Err(RouteError::ServiceUnavailable));
}

#[test]
fn scans_are_asked_of_the_scanner() {
    let snap = current(&["/a", "odd"]);
    assert_eq!(rescan_all(true), Ok(RescanRequest::All));
    assert_eq!(rescan_one(true, &snap, "a"), Ok(RescanRequest::One("/a".into())));
    assert_eq!(rescan_one(true, &snap, "//a"), Ok(RescanRequest::One("/a".into())));
    assert_eq!(rescan_one(true, &snap, "b"), Err(RouteError::NotFound));
    assert_eq!(rescan_one(true, &snap, "odd"), Err(RouteError::NotFound));
}

#[test]
fn scans_are_confirmed_once_they_are_queued() {
    let all = rescan_reply(RescanRequest::All, true);
    assert_eq!(all, Ok(RescanResponse { queued: true, target: "*".into() }));
    let one = rescan_reply(RescanRequest::One("/a".into()), true);
    assert_eq!(one, Ok(RescanResponse { queued: true, target: "/a".into() }));
    let lost = rescan_reply(RescanRequest::All, false);
    assert_eq!(lost, Err(RouteError::InternalServerError));
}

#[test]
fn refusals_have_their_http_status() {
    assert_eq!(RouteError::NotFound.status(), 404);
    assert_eq!(RouteError::ServiceUnavailable.status(), 503);
    assert_eq!(RouteError::InternalServerError.status(), 500);
}
