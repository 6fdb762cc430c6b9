use disk_monitor::model::{Mount, Usage};
use disk_monitor::source::{
    describe_kernel, is_real_filesystem, read_kernel_version, DiskReading, DiskSource, MockSource,
    SysinfoSource,
};

fn disk(mount_point: &str, device: &str, fs_type: &str, total: u64, available: u64) -> DiskReading {
    DiskReading {
        mount_point: mount_point.to_string(),
        device: device.to_string(),
        fs_type: fs_type.to_string(),
        total_bytes: total,
        available_bytes: available,
    }
}

fn points(mounts: &[Mount]) -> Vec<&str> {
    mounts.iter().map(|m| m.mount_point.as_str()).collect()
}

#[test]
fn pseudo_filesystems_are_filtered() {
    assert!(!is_real_filesystem("/dev", "devfs", 1024));
    assert!(!is_real_filesystem("/etc/something", "autofs", 1024));
}

#[test]
fn zero_byte_mounts_are_filtered() {
    assert!(!is_real_filesystem("/something", "apfs", 0));
}

#[test]
fn root_apfs_is_kept() {
    assert!(is_real_filesystem("/", "apfs", 500_000_000_000));
}

#[test]
fn external_volume_is_kept() {
    assert!(is_real_filesystem("/Volumes/External", "exfat", 2_000_000_000_000));
}

#[test]
fn hidden_system_volumes_are_filtered() {
    assert!(!is_real_filesystem("/System/Volumes/Preboot", "apfs", 500_000_000_000));
    assert!(!is_real_filesystem("/System/Volumes/VM", "apfs", 500_000_000_000));
    assert!(!is_real_filesystem("/System/Volumes/Update/SFR/mnt1", "apfs", 500_000_000_000));
}

#[test]
fn data_volume_is_kept() {
    assert!(is_real_filesystem("/System/Volumes/Data", "apfs", 500_000_000_000));
}

#[test]
fn mock_source_returns_seeded_mounts() {
    let mount = Mount {
        mount_point: "/".into(),
        device: "/dev/disk3s1s1".into(),
        fs_type: "apfs".into(),
        usage: Usage { used_bytes: 50, free_bytes: 50, total_bytes: 100 },
        largest_files: Vec::new(),
        largest_files_scanned_at: None,
    };
    let mock = MockSource::new(vec![mount.clone()]);
    let sample = mock.sample().unwrap();
    assert_eq!(sample.len(), 1);
    assert_eq!(sample[0], mount);
}

#[test]
fn filesystem_types_compare_without_case() {
    assert!(!is_real_filesystem("/dev", "DevFS", 1024));
    assert!(!is_real_filesystem("/x", "TMPFS", 1024));
    assert!(!is_real_filesystem("/x", "msdos", 1024));
    assert!(!is_real_filesystem("/x", "ctl", 1024));
    assert!(!is_real_filesystem("/x", "fdesc", 1024));
    assert!(is_real_filesystem("/x", "devfs2", 1024));
    assert!(is_real_filesystem("/x", "dev", 1024));
}

#[test]
fn a_hidden_prefix_hides_whole_components_only() {
    assert!(is_real_filesystem("/System/Volumes/VM2", "apfs", 1));
    assert!(is_real_filesystem("/System/Volumes", "apfs", 1));
    assert!(!is_real_filesystem("/private/var/vm/swap", "apfs", 1));
    assert!(!is_real_filesystem("/System/Volumes/iSCPreboot", "apfs", 1));
    assert!(!is_real_filesystem("/System/Volumes/xarts", "apfs", 1));
    assert!(!is_real_filesystem("/System/Volumes/Hardware/a/b", "apfs", 1));
    assert!(!is_real_filesystem("/System/Volumes/Recovery", "apfs", 1));
}

#[test]
fn listing_puts_the_root_first_and_sorts_the_rest() {
    let mounts = SysinfoSource::new()
        .sample(vec![
            disk("/Volumes/b", "/dev/d3", "exfat", 10, 4),
            disk("/Volumes/a", "/dev/d2", "exfat", 10, 4),
            disk("/", "/dev/d1", "apfs", 100, 25),
            disk("!", "/dev/d4", "apfs", 10, 4),
        ])
        .unwrap();
    assert_eq!(points(&mounts), vec!["/", "!", "/Volumes/a", "/Volumes/b"]);
    assert_eq!(mounts[0].usage, Usage { used_bytes: 75, free_bytes: 25, total_bytes: 100 });
    assert!(mounts[0].largest_files.is_empty());
    assert!(mounts[0].largest_files_scanned_at.is_none());
    assert_eq!(mounts[0].device, "/dev/d1");
    assert_eq!(mounts[0].fs_type, "apfs");
}

#[test]
fn listing_reports_each_device_once() {
    let mounts = SysinfoSource::new()
        .sample(vec![
            disk("/System/Volumes/VM", "/dev/d1", "apfs", 100, 25),
            disk("/", "/dev/d1", "apfs", 100, 25),
            disk("/System/Volumes/Data", "/dev/d1", "apfs", 100, 25),
            disk("/dev", "devfs", "devfs", 100, 0),
            disk("/empty", "/dev/d2", "apfs", 0, 0),
        ])
        .unwrap();
    assert_eq!(points(&mounts), vec!["/"]);
}

#[test]
fn the_root_stands_for_its_device_wherever_it_comes() {
    let mounts = SysinfoSource::new()
        .sample(vec![
            disk("/System/Volumes/Data", "disk3s1", "apfs", 500, 100),
            disk("/", "disk3s1", "apfs", 500, 450),
        ])
        .unwrap();
    assert_eq!(points(&mounts), vec!["/"]);
    assert_eq!(mounts[0].usage, Usage { used_bytes: 50, free_bytes: 450, total_bytes: 500 });
}

#[test]
fn the_first_disk_stands_for_a_device_without_the_root() {
    let mounts = SysinfoSource::new()
        .sample(vec![
            disk("/Volumes/b", "disk4", "apfs", 500, 100),
            disk("/Volumes/a", "disk4", "apfs", 500, 200),
            disk("/", "disk3", "apfs", 9, 3),
            disk("/", "disk3", "apfs", 9, 4),
        ])
        .unwrap();
    assert_eq!(points(&mounts), vec!["/", "/Volumes/b"]);
    assert_eq!(mounts[0].usage, Usage { used_bytes: 6, free_bytes: 3, total_bytes: 9 });
    assert_eq!(mounts[1].usage, Usage { used_bytes: 400, free_bytes: 100, total_bytes: 500 });
}

#[test]
fn a_root_that_is_not_real_does_not_hide_its_device() {
    let mounts = SysinfoSource::new()
        .sample(vec![
            disk("/Volumes/a", "disk3", "apfs", 500, 200),
            disk("/", "disk3", "apfs", 0, 0),
        ])
        .unwrap();
    assert_eq!(points(&mounts), vec!["/Volumes/a"]);
}

#[test]
fn the_order_of_the_table_does_not_change_the_listing() {
    let table = || {
        vec![
            disk("/Volumes/b", "d2", "apfs", 10, 4),
            disk("/System/Volumes/Data", "d1", "apfs", 100, 30),
            disk("/Volumes/a", "d3", "apfs", 20, 4),
            disk("/", "d1", "apfs", 100, 25),
        ]
    };
    let expected = SysinfoSource::new().sample(table()).unwrap();
    assert_eq!(points(&expected), vec!["/", "/Volumes/a", "/Volumes/b"]);
    let mut reversed = table();
    reversed.reverse();
    assert_eq!(SysinfoSource::new().sample(reversed).unwrap(), expected);
    let mut turned = table();
    turned.rotate_left(1);
    assert_eq!(SysinfoSource::new().sample(turned).unwrap(), expected);
}

#[test]
fn mounts_with_one_mount_point_keep_their_order() {
    let mounts = SysinfoSource::new()
        .sample(vec![
            disk("/b", "two", "apfs", 1, 0),
            disk("/a", "one", "apfs", 1, 0),
            disk("/b", "one and a half", "apfs", 1, 0),
        ])
        .unwrap();
    let devices: Vec<&str> = mounts.iter().map(|m| m.device.as_str()).collect();
    assert_eq!(devices, vec!["one", "two", "one and a half"]);
}

#[test]
fn nothing_is_used_where_more_is_available_than_there_is() {
    let mounts = SysinfoSource::new().sample(vec![disk("/", "d", "apfs", 10, 30)]).unwrap();
    assert_eq!(mounts[0].usage, Usage { used_bytes: 0, free_bytes: 30, total_bytes: 10 });
}

#[test]
fn an_empty_mount_table_makes_an_empty_listing() {
    assert!(SysinfoSource::new().sample(Vec::new()).unwrap().is_empty());
}

#[test]
fn kernels_are_described_by_name_and_version() {
    let text = |s: &str| Some(s.to_string());
    assert_eq!(describe_kernel(text("Darwin"), text("25.3.0")), text("Darwin 25.3.0"));
    assert_eq!(describe_kernel(None, text("25.3.0")), text("25.3.0"));
    assert_eq!(describe_kernel(text("Darwin"), None), None);
    assert_eq!(describe_kernel(None, None), None);
}

#[test]
fn the_running_kernel_is_the_one_that_the_system_names() {
    let expected = describe_kernel(sysinfo::System::name(), sysinfo::System::kernel_version());
    assert_eq!(read_kernel_version(), expected);
}

#[test]
fn mount_points_sort_as_strings_do() {
    let names = ["/z", "/é", "/a/b", "/a.b", "/a", "/\u{ffff}", "/\u{10000}", "/A", "/-", "//"];
    let table = names.iter().map(|n| disk(n, n, "apfs", 1, 0)).collect();
    let mounts = SysinfoSource::new().sample(table).unwrap();
    let mut expected = names.to_vec();
    expected.sort();
    assert_eq!(points(&mounts), expected);
}
