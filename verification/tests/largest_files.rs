use disk_monitor::cache::{LargestFilesCache, ScanResult};
use disk_monitor::model::FileEntry;
use disk_monitor::scan::{scan_mount, FileMeta, FileScan, WalkItem};

fn file(path: &str, len: u64) -> WalkItem {
    link(path, len, 1, 0)
}

fn link(path: &str, len: u64, nlink: u64, ino: u64) -> WalkItem {
    WalkItem::Entry {
        is_file: true,
        path: path.as_bytes().to_vec(),
        metadata: Some(FileMeta { dev: 1, ino, nlink, len }),
    }
}

fn paths(files: &[FileEntry]) -> Vec<&str> {
    files.iter().map(|f| f.path.as_str()).collect()
}

#[test]
fn scan_returns_top_n_in_size_order() {
    let mut items = vec![WalkItem::Entry {
        is_file: false,
        path: b"/tmp/x".to_vec(),
        metadata: None,
    }];
    for (name, size) in [("a", 100u64), ("b", 5_000), ("c", 1_000), ("d", 50)] {
        items.push(file(&format!("/tmp/x/{name}"), size));
    }
    let result = scan_mount(items, 2);
    assert_eq!(result.len(), 2);
    assert_eq!(result[0].size_bytes, 5_000);
    assert!(result[0].path.ends_with("/b"));
    assert_eq!(result[1].size_bytes, 1_000);
    assert!(result[1].path.ends_with("/c"));
}

#[test]
fn cache_round_trip_and_retain() {
    let mut cache = LargestFilesCache::new();
    cache.put(
        "/Volumes/A".into(),
        ScanResult { files: vec![], scanned_at: "now".into() },
    );
    cache.put("/".into(), ScanResult { files: vec![], scanned_at: "now".into() });
    assert!(cache.get("/Volumes/A").is_some());
    cache.retain(&["/".into()]);
    assert!(cache.get("/Volumes/A").is_none());
    assert!(cache.get("/").is_some());
}

#[test]
fn the_cache_gives_back_the_last_result_put() {
    let mut cache = LargestFilesCache::default();
    assert!(cache.get("/").is_none());
    let entry = FileEntry { path: "/big".into(), size_bytes: 9 };
    cache.put("/".into(), ScanResult { files: vec![], scanned_at: "first".into() });
    cache.put("/x".into(), ScanResult { files: vec![], scanned_at: "other".into() });
    cache.put("/".into(), ScanResult { files: vec![entry.clone()], scanned_at: "second".into() });
    let found = cache.get("/").unwrap();
    assert_eq!(found.scanned_at, "second");
    assert_eq!(found.files, vec![entry]);
    assert_eq!(cache.get("/x").unwrap().scanned_at, "other");
}

#[test]
fn retaining_nothing_empties_the_cache() {
    let mut cache = LargestFilesCache::new();
    cache.put("/".into(), ScanResult { files: vec![], scanned_at: "now".into() });
    cache.retain(&[]);
    assert!(cache.get("/").is_none());
}

#[test]
fn asking_for_no_files_lists_none() {
    assert!(scan_mount(vec![file("/a", 1), file("/b", 2)], 0).is_empty());
}

#[test]
fn all_files_are_listed_while_there_is_room() {
    let result = scan_mount(vec![file("/a", 1), file("/b", 3), file("/c", 2)], 10);
    assert_eq!(paths(&result), vec!["/b", "/c", "/a"]);
}

#[test]
fn hard_links_count_once_under_their_first_name() {
    let items = vec![
        link("/first", 100, 2, 7),
        link("/second", 100, 2, 7),
        link("/third", 90, 2, 8),
        link("/single", 80, 1, 7),
    ];
    let result = scan_mount(items, 10);
    assert_eq!(paths(&result), vec!["/first", "/third", "/single"]);
}

#[test]
fn links_on_different_devices_are_different_files() {
    let mut items = vec![link("/a", 10, 2, 7)];
    items.push(WalkItem::Entry {
        is_file: true,
        path: b"/b".to_vec(),
        metadata: Some(FileMeta { dev: 2, ino: 7, nlink: 2, len: 5 }),
    });
    assert_eq!(paths(&scan_mount(items, 10)), vec!["/a", "/b"]);
}

#[test]
fn what_cannot_be_read_makes_no_difference() {
    let clean = scan_mount(vec![file("/a", 1), file("/b", 2)], 1);
    let noisy = scan_mount(
        vec![
            WalkItem::Unreadable,
            file("/a", 1),
            WalkItem::Entry { is_file: true, path: b"/gone".to_vec(), metadata: None },
            WalkItem::Entry {
                is_file: false,
                path: b"/dir".to_vec(),
                metadata: Some(FileMeta { dev: 1, ino: 1, nlink: 1, len: 4096 }),
            },
            file("/b", 2),
            WalkItem::Unreadable,
        ],
        1,
    );
    assert_eq!(clean, noisy);
    assert_eq!(paths(&noisy), vec!["/b"]);
}

#[test]
fn a_file_of_equal_size_does_not_displace_one() {
    assert_eq!(paths(&scan_mount(vec![file("/x", 5), file("/y", 5)], 1)), vec!["/x"]);
    assert_eq!(paths(&scan_mount(vec![file("/y", 5), file("/x", 5)], 1)), vec!["/y"]);
}

#[test]
fn of_equal_files_the_first_path_gives_way() {
    // Component by component `/d/b` comes before `/d.x`, though `.` comes before `/`.
    let result = scan_mount(vec![file("/d.x", 5), file("/d/b", 5), file("/big", 9)], 2);
    assert_eq!(paths(&result), vec!["/big", "/d.x"]);
    let order = std::path::Path::new("/d/b").cmp(std::path::Path::new("/d.x"));
    assert_eq!(order, std::cmp::Ordering::Less);
}

#[test]
fn a_walk_can_be_followed_item_by_item() {
    let mut scan = FileScan::new(2);
    for (path, len) in [("/a", 1), ("/b", 4), ("/c", 2), ("/d", 3)] {
        scan = scan.offer(file(path, len));
    }
    let sizes: Vec<u64> = scan.finish().iter().map(|f| f.size_bytes).collect();
    assert_eq!(sizes, vec![4, 3]);
}

#[test]
fn paths_give_way_in_the_order_of_the_standard_library() {
    let names = ["/r/a b", "/r/a", "/r/a/b", "/r/a.b", "/r/é", "/r/z/y", "/r/a-b/c", "/r/A"];
    for left in names {
        for right in names {
            if left == right {
                continue;
            }
            let items = vec![file(left, 5), file(right, 5), file("/r/big", 9)];
            let weaker = std::path::Path::new(left).min(std::path::Path::new(right));
            let kept = if weaker == std::path::Path::new(left) { right } else { left };
            assert_eq!(paths(&scan_mount(items, 2)), vec!["/r/big", kept]);
        }
    }
}

#[test]
fn the_order_of_the_walk_does_not_change_the_sizes() {
    let sizes = |order: &[u64]| -> Vec<u64> {
        let items = order.iter().map(|n| file(&format!("/{n}"), n / 10)).collect();
        scan_mount(items, 3).iter().map(|f| f.size_bytes).collect()
    };
    assert_eq!(sizes(&[11, 22, 33, 44, 31]), vec![4, 3, 3]);
    assert_eq!(sizes(&[31, 44, 33, 22, 11]), vec![4, 3, 3]);
    assert_eq!(sizes(&[44, 11, 31, 22, 33]), vec![4, 3, 3]);
}

fn raw_file(path: &[u8], len: u64) -> WalkItem {
    WalkItem::Entry {
        is_file: true,
        path: path.to_vec(),
        metadata: Some(FileMeta { dev: 1, ino: 0, nlink: 1, len }),
    }
}

#[test]
fn paths_that_are_no_text_are_compared_by_their_bytes() {
    // As text the first would begin with U+FFFD, which comes after `é`.
    let items = |first: &[u8], second: &[u8]| {
        vec![raw_file(first, 5), raw_file(second, 5), raw_file(b"/big", 9)]
    };
    let low = b"/\x80a";
    let high = "/é".as_bytes();
    for (first, second) in [(&low[..], high), (high, &low[..])] {
        let result = scan_mount(items(first, second), 2);
        assert_eq!(paths(&result), vec!["/big", "/é"]);
    }
}

#[test]
fn paths_are_listed_as_text() {
    let result = scan_mount(vec![raw_file("/tmp/é €".as_bytes(), 3), raw_file(b"/a\xffb", 2)], 5);
    assert_eq!(paths(&result), vec!["/tmp/é €", "/a\u{fffd}b"]);
}

#[test]
fn a_walk_that_reads_nothing_lists_nothing() {
    assert!(scan_mount(vec![WalkItem::Unreadable], 5).is_empty());
    assert!(scan_mount(vec![], 5).is_empty());
}

#[test]
fn a_shorter_listing_is_the_front_of_a_longer_one() {
    let listing = |n: usize| -> Vec<u64> {
        let items = [7, 3, 9, 3, 8, 1].iter().map(|len| file(&format!("/{len}"), *len)).collect();
        scan_mount(items, n).iter().map(|f| f.size_bytes).collect()
    };
    let all = listing(6);
    assert_eq!(all, vec![9, 8, 7, 3, 3, 1]);
    for n in 0..6 {
        assert_eq!(listing(n), all[..n].to_vec());
    }
}

#[test]
fn one_walk_has_one_listing() {
    // Of files of one size the one whose path comes last stands first.
    let items = || vec![file("/b", 5), file("/c", 5), file("/big", 9), file("/a", 5)];
    assert_eq!(paths(&scan_mount(items(), 4)), vec!["/big", "/c", "/b", "/a"]);
    let noisy = || {
        let mut walk = Vec::new();
        for item in items() {
            walk.push(WalkItem::Unreadable);
            walk.push(item);
            walk.push(WalkItem::Entry { is_file: true, path: b"/gone".to_vec(), metadata: None });
        }
        walk
    };
    for n in 0..5 {
        let clean = scan_mount(items(), n);
        assert_eq!(clean, scan_mount(items(), n));
        assert_eq!(clean, scan_mount(noisy(), n));
    }
}
