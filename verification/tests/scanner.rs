use disk_monitor::cache::{LargestFilesCache, ScanResult};
use disk_monitor::model::{FileEntry, Mount, Snapshot, Usage};
use disk_monitor::scanner::{
    coalesce, mount_points_of, stamp_scan, RescanPlan, RescanRequest, Scanner, ScannerAction,
    ScannerConfig, ScannerEvent, ScannerWork,
};

fn snapshot(points: &[&str]) -> Snapshot {
    Snapshot {
        timestamp: "t".into(),
        host: "h".into(),
        mounts: points
            .iter()
            .map(|p| Mount {
                mount_point: p.to_string(),
                device: format!("/dev{p}"),
                fs_type: "apfs".into(),
                usage: Usage::default(),
                largest_files: vec![],
                largest_files_scanned_at: None,
            })
            .collect(),
    }
}

fn result(tag: &str) -> ScanResult {
    ScanResult { files: vec![], scanned_at: tag.into() }
}

fn one(point: &str) -> RescanRequest {
    RescanRequest::One(point.to_string())
}

fn scan(point: &str) -> ScannerAction {
    ScannerAction {
        timer: None,
        work: ScannerWork::Scan { mount_point: point.to_string(), top_n: 20 },
    }
}

const WAIT: ScannerAction = ScannerAction { timer: None, work: ScannerWork::Wait };
const WAIT_ANEW: ScannerAction = ScannerAction { timer: Some(600), work: ScannerWork::Wait };

/// A scanner that has been through its first scan of everything, of `/` alone.
fn idle_scanner(cache: &mut LargestFilesCache) -> Scanner {
    let (mut scanner, _) = Scanner::start(ScannerConfig::default());
    let snap = snapshot(&["/"]);
    assert_eq!(scanner.step(ScannerEvent::TimerElapsed, &snap, cache), scan("/"));
    assert_eq!(scanner.step(ScannerEvent::Scanned(result("0")), &snap, cache), WAIT_ANEW);
    scanner
}

#[test]
fn the_default_configuration() {
    let config = ScannerConfig::default();
    assert_eq!(config.top_n, 20);
    assert_eq!(config.refresh_interval_secs, 600);
    assert_eq!(config.initial_delay_secs, 60);
}

#[test]
fn a_full_pass_scans_every_mount_and_forgets_the_others() {
    let (mut scanner, first) = Scanner::start(ScannerConfig::default());
    assert_eq!(first, ScannerAction { timer: Some(60), work: ScannerWork::Wait });
    let mut cache = LargestFilesCache::new();
    cache.put("/gone".into(), result("old"));
    cache.put("/b".into(), result("old"));
    let snap = snapshot(&["/", "/a", "/b"]);
    let next = scanner.step(ScannerEvent::TimerElapsed, &snap, &mut cache);
    assert_eq!(next, scan("/"));
    assert!(cache.get("/gone").is_none());
    assert!(cache.get("/b").is_some());
    let next = scanner.step(ScannerEvent::Scanned(result("1")), &snap, &mut cache);
    assert_eq!(next, scan("/a"));
    let next = scanner.step(ScannerEvent::Scanned(result("2")), &snapshot(&[]), &mut cache);
    assert_eq!(next, scan("/b"));
    let next = scanner.step(ScannerEvent::ScanFailed, &snap, &mut cache);
    assert_eq!(next, WAIT_ANEW);
    assert_eq!(cache.get("/").unwrap().scanned_at, "1");
    assert_eq!(cache.get("/a").unwrap().scanned_at, "2");
    assert_eq!(cache.get("/b").unwrap().scanned_at, "old");
}

#[test]
fn the_elapsed_timer_starts_over() {
    let mut cache = LargestFilesCache::new();
    let mut scanner = idle_scanner(&mut cache);
    let next = scanner.step(ScannerEvent::TimerElapsed, &snapshot(&["/"]), &mut cache);
    assert_eq!(next, scan("/"));
    let next = scanner.step(ScannerEvent::Scanned(result("1")), &snapshot(&["/"]), &mut cache);
    assert_eq!(next, WAIT_ANEW);
    let next = scanner.step(ScannerEvent::TimerElapsed, &snapshot(&[]), &mut cache);
    assert_eq!(next, WAIT_ANEW);
    assert!(cache.get("/").is_none());
}

#[test]
fn nothing_is_scanned_before_the_initial_delay_is_over() {
    let (mut scanner, _) = Scanner::start(ScannerConfig::default());
    let mut cache = LargestFilesCache::new();
    cache.put("/gone".into(), result("old"));
    let snap = snapshot(&["/", "/a"]);
    let all = vec![one("/a"), RescanRequest::All];
    assert_eq!(scanner.step(ScannerEvent::Requested(all), &snap, &mut cache), WAIT);
    let more = vec![one("/b")];
    assert_eq!(scanner.step(ScannerEvent::Requested(more), &snap, &mut cache), WAIT);
    assert_eq!(cache.get("/gone").unwrap().scanned_at, "old");
    // The first scan is of what is mounted by now.
    let snap = snapshot(&["/", "/c"]);
    assert_eq!(scanner.step(ScannerEvent::TimerElapsed, &snap, &mut cache), scan("/"));
    assert!(cache.get("/gone").is_none());
    assert_eq!(scanner.step(ScannerEvent::Scanned(result("1")), &snap, &mut cache), scan("/c"));
    // What was asked for meanwhile comes next; one scan of everything has ended.
    let next = scanner.step(ScannerEvent::Scanned(result("1")), &snap, &mut cache);
    assert_eq!(next.timer, Some(600));
    assert_eq!(next.work, scan("/").work);
    assert_eq!(scanner.step(ScannerEvent::Scanned(result("2")), &snap, &mut cache), scan("/c"));
    assert_eq!(scanner.step(ScannerEvent::Scanned(result("2")), &snap, &mut cache), WAIT_ANEW);
}

#[test]
fn requests_for_single_mounts_before_the_delay_wait_for_the_first_pass() {
    let (mut scanner, _) = Scanner::start(ScannerConfig::default());
    let mut cache = LargestFilesCache::new();
    let snap = snapshot(&["/"]);
    let asked = vec![one("/a"), one("/a")];
    assert_eq!(scanner.step(ScannerEvent::Requested(asked), &snap, &mut cache), WAIT);
    assert_eq!(scanner.step(ScannerEvent::TimerElapsed, &snap, &mut cache), scan("/"));
    let next = scanner.step(ScannerEvent::Scanned(result("1")), &snap, &mut cache);
    assert_eq!(next.timer, Some(600));
    assert_eq!(next.work, scan("/a").work);
    assert_eq!(scanner.step(ScannerEvent::Scanned(result("2")), &snap, &mut cache), WAIT);
}

#[test]
fn waiting_requests_are_served_though_nothing_is_mounted() {
    let (mut scanner, _) = Scanner::start(ScannerConfig::default());
    let mut cache = LargestFilesCache::new();
    let asked = vec![one("/a")];
    assert_eq!(scanner.step(ScannerEvent::Requested(asked), &snapshot(&[]), &mut cache), WAIT);
    let next = scanner.step(ScannerEvent::TimerElapsed, &snapshot(&[]), &mut cache);
    assert_eq!(next.timer, Some(600));
    assert_eq!(next.work, scan("/a").work);
}

#[test]
fn requests_for_single_mounts_leave_the_others_and_the_timer_alone() {
    let mut cache = LargestFilesCache::new();
    let mut scanner = idle_scanner(&mut cache);
    cache.put("/gone".into(), result("old"));
    let snap = snapshot(&["/", "/a", "/b"]);
    for tag in ["new", "newer", "newest"] {
        let requests = vec![one("/a"), one("/a")];
        let next = scanner.step(ScannerEvent::Requested(requests), &snap, &mut cache);
        assert_eq!(next, scan("/a"));
        let next = scanner.step(ScannerEvent::Scanned(result(tag)), &snap, &mut cache);
        assert_eq!(next, WAIT);
        assert_eq!(cache.get("/a").unwrap().scanned_at, tag);
    }
    assert!(cache.get("/gone").is_some());
    assert_eq!(cache.get("/").unwrap().scanned_at, "0");
    assert!(cache.get("/b").is_none());
}

#[test]
fn the_timer_asks_for_a_full_pass_after_the_scans_under_way() {
    let mut cache = LargestFilesCache::new();
    let mut scanner = idle_scanner(&mut cache);
    let snap = snapshot(&["/"]);
    let next = scanner.step(ScannerEvent::Requested(vec![one("/a")]), &snap, &mut cache);
    assert_eq!(next, scan("/a"));
    assert_eq!(scanner.step(ScannerEvent::TimerElapsed, &snap, &mut cache), WAIT);
    let next = scanner.step(ScannerEvent::Requested(vec![one("/b")]), &snap, &mut cache);
    assert_eq!(next, WAIT);
    assert_eq!(scanner.step(ScannerEvent::Scanned(result("1")), &snap, &mut cache), scan("/"));
    let next = scanner.step(ScannerEvent::Scanned(result("2")), &snap, &mut cache);
    assert_eq!(next.timer, Some(600));
    assert_eq!(next.work, scan("/b").work);
    assert_eq!(scanner.step(ScannerEvent::ScanFailed, &snap, &mut cache), WAIT);
}

#[test]
fn the_timer_asks_for_no_second_pass_during_a_full_one() {
    let mut cache = LargestFilesCache::new();
    let mut scanner = idle_scanner(&mut cache);
    let snap = snapshot(&["/"]);
    let all = ScannerEvent::Requested(vec![RescanRequest::All]);
    assert_eq!(scanner.step(all, &snap, &mut cache), scan("/"));
    assert_eq!(scanner.step(ScannerEvent::TimerElapsed, &snap, &mut cache), WAIT);
    assert_eq!(scanner.step(ScannerEvent::Scanned(result("1")), &snap, &mut cache), WAIT_ANEW);
}

#[test]
fn a_request_for_everything_covers_the_others() {
    let mut cache = LargestFilesCache::new();
    let mut scanner = idle_scanner(&mut cache);
    let requests = vec![one("/a"), RescanRequest::All];
    let snap = snapshot(&["/"]);
    let next = scanner.step(ScannerEvent::Requested(requests), &snap, &mut cache);
    assert_eq!(next, scan("/"));
    assert_eq!(scanner.step(ScannerEvent::ScanFailed, &snap, &mut cache), WAIT_ANEW);
}

#[test]
fn a_result_that_nobody_asked_for_is_dropped() {
    let mut cache = LargestFilesCache::new();
    let (mut scanner, _) = Scanner::start(ScannerConfig::default());
    let next = scanner.step(ScannerEvent::Scanned(result("1")), &snapshot(&["/"]), &mut cache);
    assert_eq!(next, WAIT);
    assert!(cache.get("/").is_none());
    let mut scanner = idle_scanner(&mut cache);
    let next = scanner.step(ScannerEvent::Scanned(result("1")), &snapshot(&["/"]), &mut cache);
    assert_eq!(next, WAIT);
    assert_eq!(cache.get("/").unwrap().scanned_at, "0");
}

#[test]
fn requests_are_joined() {
    assert_eq!(coalesce(vec![one("/a"), RescanRequest::All, one("/b")]), RescanPlan::All);
    match coalesce(vec![one("/a"), one("/b"), one("/a")]) {
        RescanPlan::Mounts(mut targets) => {
            targets.sort();
            assert_eq!(targets, vec!["/a".to_string(), "/b".to_string()]);
        }
        RescanPlan::All => panic!("nobody asked for everything"),
    }
    assert_eq!(coalesce(vec![]), RescanPlan::Mounts(vec![]));
}

#[test]
fn mount_points_come_in_the_order_of_the_snapshot() {
    assert_eq!(mount_points_of(&snapshot(&["/b", "/a"])), vec!["/b", "/a"]);
}

#[test]
fn scan_results_carry_the_time() {
    let files = vec![FileEntry { path: "/big".into(), size_bytes: 3 }];
    let stamped = stamp_scan(files.clone());
    assert_eq!(stamped.files, files);
    assert!(stamped.scanned_at.ends_with("+00:00"));
}
