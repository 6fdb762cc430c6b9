use disk_monitor::cache::{LargestFilesCache, ScanResult};
use disk_monitor::clock::{timestamp_at, timestamp_now, UtcTime};
use disk_monitor::model::{FileEntry, Mount, Usage};
use disk_monitor::sampler::{
    assemble_snapshot, build_snapshot, empty_snapshot, host_or_default, initial_snapshot,
    sample_period_ms, sampler_step, snapshot_after_trial, SamplerAction,
    SamplerEvent,
};
use disk_monitor::source::{DiskSource, MockSource, SampleError};

fn fake_mount(p: &str) -> Mount {
    Mount {
        mount_point: p.into(),
        device: format!("/dev/fake{}", p.replace('/', "_")),
        fs_type: "apfs".into(),
        usage: Usage { used_bytes: 100, free_bytes: 900, total_bytes: 1000 },
        largest_files: Vec::new(),
        largest_files_scanned_at: None,
    }
}

struct BrokenSource;

impl DiskSource for BrokenSource {
    fn sample(&self) -> Result<Vec<Mount>, SampleError> {
        Err(SampleError { message: "no mount table".into() })
    }
}

#[test]
fn build_snapshot_uses_source_data() {
    let source = MockSource::new(vec![fake_mount("/"), fake_mount("/Volumes/X")]);
    let cache = LargestFilesCache::new();
    let snap = build_snapshot("mac", &source, &cache);
    assert_eq!(snap.host, "mac");
    assert_eq!(snap.mounts.len(), 2);
    assert!(!snap.timestamp.is_empty());
}

#[test]
fn build_snapshot_merges_scan_cache() {
    let source = MockSource::new(vec![fake_mount("/")]);
    let mut cache = LargestFilesCache::new();
    cache.put(
        "/".into(),
        ScanResult {
            files: vec![FileEntry { path: "/big".into(), size_bytes: 999 }],
            scanned_at: "ts".into(),
        },
    );
    let snap = build_snapshot("h", &source, &cache);
    assert_eq!(snap.mounts[0].largest_files.len(), 1);
    assert_eq!(snap.mounts[0].largest_files[0].path, "/big");
}

#[test]
fn scans_are_shown_on_their_own_mount_only() {
    let mut cache = LargestFilesCache::new();
    cache.put("/x".into(), ScanResult { files: vec![], scanned_at: "ts".into() });
    let sample = Ok(vec![fake_mount("/"), fake_mount("/x")]);
    let snap = assemble_snapshot("h", sample, &cache, "t".into());
    assert_eq!(snap.timestamp, "t");
    assert_eq!(snap.mounts[0], fake_mount("/"));
    assert_eq!(snap.mounts[1].largest_files_scanned_at, Some("ts".to_string()));
    assert_eq!(snap.mounts[1].usage, fake_mount("/x").usage);
    cache.retain(&["/".into()]);
    let sample = Ok(vec![fake_mount("/x")]);
    let snap = assemble_snapshot("h", sample, &cache, "t".into());
    assert_eq!(snap.mounts[0], fake_mount("/x"));
}

#[test]
fn a_failed_sample_makes_a_snapshot_without_mounts() {
    let cache = LargestFilesCache::new();
    let snap = build_snapshot("h", &BrokenSource, &cache);
    assert_eq!(snap.host, "h");
    assert!(snap.mounts.is_empty());
    let snap = initial_snapshot("h", &BrokenSource, &cache);
    assert_eq!(snap.host, "h");
    assert!(snap.mounts.is_empty());
    assert!(!snap.timestamp.is_empty());
}

#[test]
fn the_initial_snapshot_holds_what_is_sampled() {
    let source = MockSource::new(vec![fake_mount("/")]);
    let snap = initial_snapshot("h", &source, &LargestFilesCache::new());
    assert_eq!(snap.mounts, vec![fake_mount("/")]);
}

#[test]
fn the_first_sample_decides_whether_there_is_a_second() {
    let source = MockSource::new(vec![fake_mount("/"), fake_mount("/x")]);
    let mut cache = LargestFilesCache::new();
    cache.put("/x".into(), ScanResult { files: vec![], scanned_at: "ts".into() });
    let failed = Err(SampleError { message: "not yet".into() });
    let snap = snapshot_after_trial("h", failed, &source, &cache);
    assert_eq!(snap.host, "h");
    assert!(snap.mounts.is_empty());
    let snap = snapshot_after_trial("h", Ok(vec![]), &source, &cache);
    assert_eq!(snap.mounts.len(), 2);
    assert_eq!(snap.mounts[1].largest_files_scanned_at.as_deref(), Some("ts"));
    let snap = snapshot_after_trial("h", Ok(vec![fake_mount("/")]), &BrokenSource, &cache);
    assert!(snap.mounts.is_empty());
}

#[test]
fn an_empty_snapshot_names_its_host() {
    let snap = empty_snapshot("mac");
    assert_eq!(snap.host, "mac");
    assert!(snap.mounts.is_empty());
    assert!(snap.timestamp.ends_with("+00:00"));
    assert!(snap.timestamp.len() >= 25);
}

#[test]
fn sampling_is_never_faster_than_the_shortest_period() {
    assert_eq!(sample_period_ms(0), 50);
    assert_eq!(sample_period_ms(49), 50);
    assert_eq!(sample_period_ms(50), 50);
    assert_eq!(sample_period_ms(1000), 1000);
}

#[test]
fn every_tick_gives_one_snapshot() {
    let mut cache = LargestFilesCache::new();
    let start = sampler_step(SamplerEvent::Started, 10, "h", &cache);
    assert!(matches!(start, SamplerAction::StartTicker { period_ms: 50, makes_up: false }));
    for tag in ["first", "second"] {
        let tick = sampler_step(SamplerEvent::Ticked, 10, "h", &cache);
        assert!(matches!(tick, SamplerAction::Sample));
        cache.put("/".into(), ScanResult { files: vec![], scanned_at: tag.into() });
        let sample = SamplerEvent::Sampled(Ok(vec![fake_mount("/")]));
        match sampler_step(sample, 10, "h", &cache) {
            SamplerAction::Publish(snap) => {
                assert_eq!(snap.host, "h");
                assert_eq!(snap.mounts.len(), 1);
                assert_eq!(snap.mounts[0].largest_files_scanned_at.as_deref(), Some(tag));
            }
            other => panic!("{other:?}"),
        }
        let next = sampler_step(SamplerEvent::Delivered, 10, "h", &cache);
        assert!(matches!(next, SamplerAction::AwaitTick));
    }
}

#[test]
fn sampling_goes_on_after_a_failed_sample_and_ends_without_receivers() {
    let cache = LargestFilesCache::new();
    let failed = SamplerEvent::Sampled(Err(SampleError { message: "no".into() }));
    match sampler_step(failed, 1000, "h", &cache) {
        SamplerAction::Publish(snap) => {
            assert_eq!(snap.host, "h");
            assert!(snap.mounts.is_empty());
            assert!(snap.timestamp > "2020".to_string());
        }
        other => panic!("{other:?}"),
    }
    let next = sampler_step(SamplerEvent::Delivered, 1000, "h", &cache);
    assert!(matches!(next, SamplerAction::AwaitTick));
    let end = sampler_step(SamplerEvent::ReceiversGone, 1000, "h", &cache);
    assert!(matches!(end, SamplerAction::Stop));
}

#[test]
fn a_host_without_a_name_is_the_local_host() {
    assert_eq!(host_or_default(Some("mac".into())), "mac");
    assert_eq!(host_or_default(None), "localhost");
}

#[test]
fn moments_are_written_in_rfc_3339() {
    assert_eq!(timestamp_at(UtcTime { secs: 0, nanos: 0 }), "1970-01-01T00:00:00+00:00");
    assert_eq!(
        timestamp_at(UtcTime { secs: 1_431_648_000, nanos: 500_000_000 }),
        "2015-05-15T00:00:00.500+00:00"
    );
    assert_eq!(
        timestamp_at(UtcTime { secs: 8_210_266_876_799, nanos: 999_999_999 }),
        "+262142-12-31T23:59:59.999999999+00:00"
    );
}

#[test]
fn the_present_moment_lies_after_the_past_and_before_the_future() {
    let now = timestamp_now();
    let before = chrono::DateTime::parse_from_rfc3339(&now).unwrap();
    let later = timestamp_now();
    let after = chrono::DateTime::parse_from_rfc3339(&later).unwrap();
    assert!(before <= after);
    assert!(before.timestamp() > 1_431_648_000);
}

#[test]
fn an_unused_disk_is_the_default() {
    assert_eq!(Usage::default(), Usage { used_bytes: 0, free_bytes: 0, total_bytes: 0 });
}
