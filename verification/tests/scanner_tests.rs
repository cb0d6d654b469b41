use rustdu::scanner::{
    cache, clear_cache, contents_needed, deeper_limit, dir_size_with_progress, finish_scan, scan_directory_with_progress, scan_entry,
    FileEntry, FsEntry, FsItem, FsMeta, ScanError, ScanMessage, ScanProgress, SizeCache,
};

fn file(dir: &str, name: &str, len: u64) -> FsItem {
    FsItem::Present(FsEntry {
        name: name.to_string(),
        path: format!("{}/{}", dir, name),
        meta: Some(FsMeta { is_dir: false, is_file: true, len, modified: Some(len * 10) }),
        contents: None,
    })
}

fn dir(parent: &str, name: &str, items: Vec<FsItem>) -> FsItem {
    FsItem::Present(FsEntry {
        name: name.to_string(),
        path: format!("{}/{}", parent, name),
        meta: Some(FsMeta { is_dir: true, is_file: false, len: 4096, modified: None }),
        contents: Some(items),
    })
}

fn root(path: &str, items: Option<Vec<FsItem>>) -> FsEntry {
    FsEntry { name: String::new(), path: path.to_string(), meta: None, contents: items }
}

fn entry_of(item: FsItem) -> FsEntry {
    match item {
        FsItem::Present(e) => e,
        FsItem::Unreadable => panic!("not an entry"),
    }
}

fn sample() -> FsEntry {
    root(
        "/r",
        Some(vec![
            file("/r", "a.txt", 100),
            dir("/r", "sub", vec![file("/r/sub", "x", 10), file("/r/sub", "y", 20), dir("/r/sub", "deep", vec![file("/r/sub/deep", "z", 5)])]),
            dir("/r", "node_modules", vec![file("/r/node_modules", "huge", 1_000_000)]),
            file("/r", "b.bin", 300),
        ]),
    )
}

#[test]
fn size_cache_read_after_write() {
    let mut c = SizeCache::new();
    assert_eq!(c.len(), 0);
    c.insert("/a".to_string(), 5);
    c.insert("/b".to_string(), 7);
    assert_eq!(c.get(&"/a".to_string()), Some(5));
    c.insert("/a".to_string(), 9);
    assert_eq!(c.get(&"/a".to_string()), Some(9));
    assert_eq!(c.len(), 2);
    c.remove(&"/a".to_string());
    assert_eq!(c.get(&"/a".to_string()), None);
    assert_eq!(c.get(&"/b".to_string()), Some(7));
    c.clear();
    assert_eq!(c.len(), 0);
}

#[test]
fn cache_is_created_on_first_use_and_cleared() {
    let mut slot: Option<SizeCache> = None;
    clear_cache(&mut slot);
    assert!(slot.is_none());
    cache(&mut slot).insert("/x".to_string(), 3);
    assert_eq!(cache(&mut slot).get(&"/x".to_string()), Some(3));
    clear_cache(&mut slot);
    assert!(slot.is_some());
    assert_eq!(cache(&mut slot).get(&"/x".to_string()), None);
}

#[test]
fn dir_size_sums_files_recursively() {
    let sub = entry_of(dir("/r", "sub", vec![file("/r/sub", "x", 10), file("/r/sub", "y", 20), dir("/r/sub", "deep", vec![file("/r/sub/deep", "z", 5)])]));
    let mut tx = Vec::new();
    let mut counter = 0usize;
    let mut c = SizeCache::new();
    let total = dir_size_with_progress(&sub, &mut tx, &mut counter, &vec![], None, &mut c);
    assert_eq!(total, 35);
    assert_eq!(counter, 4);
    assert!(tx.is_empty());
    assert_eq!(c.get(&"/r/sub".to_string()), Some(35));
    assert_eq!(c.get(&"/r/sub/deep".to_string()), Some(5));
}

#[test]
fn dir_size_answers_from_cache_on_full_depth() {
    let sub = entry_of(dir("/r", "sub", vec![file("/r/sub", "x", 10)]));
    let mut tx = Vec::new();
    let mut counter = 0usize;
    let mut c = SizeCache::new();
    c.insert("/r/sub".to_string(), 999);
    assert_eq!(dir_size_with_progress(&sub, &mut tx, &mut counter, &vec![], None, &mut c), 999);
    assert_eq!(counter, 0);
    // A depth-limited walk does not trust the cache.
    assert_eq!(dir_size_with_progress(&sub, &mut tx, &mut counter, &vec![], Some(5), &mut c), 10);
    assert_eq!(counter, 1);
}

#[test]
fn dir_size_respects_depth_and_ignored() {
    let sub = entry_of(dir("/r", "sub", vec![file("/r/sub", "x", 10), dir("/r/sub", "deep", vec![file("/r/sub/deep", "z", 5)]), file("/r/sub", "skip", 1000)]));
    let ignored = vec!["skip".to_string()];
    let mut tx = Vec::new();
    let mut counter = 0usize;
    let mut c = SizeCache::new();
    assert_eq!(dir_size_with_progress(&sub, &mut tx, &mut counter, &ignored, Some(0), &mut c), 0);
    assert_eq!(counter, 0);
    assert_eq!(dir_size_with_progress(&sub, &mut tx, &mut counter, &ignored, Some(1), &mut c), 10);
    assert_eq!(counter, 3);
    counter = 0;
    assert_eq!(dir_size_with_progress(&sub, &mut tx, &mut counter, &ignored, Some(2), &mut c), 15);
    assert_eq!(counter, 4);
    assert_eq!(c.len(), 0);
}

#[test]
fn dir_size_reports_every_fiftieth_item() {
    let items: Vec<FsItem> = (0..120).map(|i| file("/big", &format!("f{}", i), 1)).collect();
    let big = root("/big", Some(items));
    let mut tx = Vec::new();
    let mut counter = 0usize;
    let mut c = SizeCache::new();
    assert_eq!(dir_size_with_progress(&big, &mut tx, &mut counter, &vec![], None, &mut c), 120);
    assert_eq!(tx.len(), 2);
    match &tx[1] {
        ScanMessage::Progress { scanned_files, current_path } => {
            assert_eq!(*scanned_files, 100);
            assert_eq!(current_path, "/big");
        }
        _ => panic!("expected progress"),
    }
}

#[test]
fn dir_size_saturates() {
    let d = root("/s", Some(vec![file("/s", "a", u64::MAX - 1), file("/s", "b", 5)]));
    let mut tx = Vec::new();
    let mut counter = 0usize;
    let mut c = SizeCache::new();
    assert_eq!(dir_size_with_progress(&d, &mut tx, &mut counter, &vec![], None, &mut c), u64::MAX);
}

#[test]
fn dir_size_skips_unreadable_items_and_unlistable_dirs() {
    let d = root("/u", Some(vec![FsItem::Unreadable, file("/u", "a", 3), dir("/u", "closed", vec![])]));
    let mut closed = entry_of(dir("/u", "closed2", vec![]));
    closed.contents = None;
    let mut tx = Vec::new();
    let mut counter = 0usize;
    let mut c = SizeCache::new();
    assert_eq!(dir_size_with_progress(&d, &mut tx, &mut counter, &vec![], None, &mut c), 3);
    assert_eq!(counter, 2);
    assert_eq!(dir_size_with_progress(&closed, &mut tx, &mut counter, &vec![], None, &mut c), 0);
}

fn names(v: &[FileEntry]) -> Vec<&str> {
    v.iter().map(|e| e.name.as_str()).collect()
}

#[test]
fn scan_lists_largest_first_and_skips_ignored() {
    let r = sample();
    let mut tx = Vec::new();
    let mut c = SizeCache::new();
    let ignored = vec!["node_modules".to_string()];
    let (entries, total) = scan_directory_with_progress(&r, &mut tx, &ignored, None, &mut c).unwrap();
    assert_eq!(names(&entries), vec!["b.bin", "a.txt", "sub"]);
    assert_eq!(entries[2].size, 35);
    assert!(entries[2].is_dir);
    assert_eq!(entries[0].modified, Some(3000));
    assert_eq!(total, 435);
    match tx.last().unwrap() {
        ScanMessage::Finished { entries: sent, total_size } => {
            assert_eq!(*total_size, 435);
            assert_eq!(names(sent), vec!["b.bin", "a.txt", "sub"]);
        }
        _ => panic!("expected the result last"),
    }
}

#[test]
fn scan_with_depth_one_sizes_directories_at_zero() {
    let r = sample();
    let mut tx = Vec::new();
    let mut c = SizeCache::new();
    let (entries, total) = scan_directory_with_progress(&r, &mut tx, &vec![], Some(1), &mut c).unwrap();
    for e in &entries {
        if e.is_dir {
            assert_eq!(e.size, 0);
        }
    }
    assert_eq!(total, 400);
}

#[test]
fn scan_with_depth_two_reads_one_level_below() {
    let r = sample();
    let mut tx = Vec::new();
    let mut c = SizeCache::new();
    let (entries, _) = scan_directory_with_progress(&r, &mut tx, &vec![], Some(2), &mut c).unwrap();
    let sub = entries.iter().find(|e| e.name == "sub").unwrap();
    assert_eq!(sub.size, 30);
}

#[test]
fn scan_errors() {
    let mut tx = Vec::new();
    let mut c = SizeCache::new();
    let missing = root("/nope", None);
    assert_eq!(scan_directory_with_progress(&missing, &mut tx, &vec![], None, &mut c).err(), Some(ScanError::ReadDir));
    let broken = root("/b", Some(vec![file("/b", "ok", 1), FsItem::Unreadable]));
    assert_eq!(scan_directory_with_progress(&broken, &mut tx, &vec![], None, &mut c).err(), Some(ScanError::ReadEntry));
    assert!(tx.is_empty());
}

#[test]
fn scan_reports_every_tenth_entry_with_its_path() {
    let items: Vec<FsItem> = (0..25).map(|i| file("/t", &format!("f{:02}", i), i)).collect();
    let r = root("/t", Some(items));
    let mut tx = Vec::new();
    let mut c = SizeCache::new();
    let (entries, total) = scan_directory_with_progress(&r, &mut tx, &vec![], None, &mut c).unwrap();
    assert_eq!(entries.len(), 25);
    assert_eq!(total, 300);
    assert_eq!(tx.len(), 3);
    match &tx[0] {
        ScanMessage::Progress { scanned_files, current_path } => {
            assert_eq!(*scanned_files, 10);
            assert_eq!(current_path, "/t/f09");
        }
        _ => panic!("expected progress"),
    }
}

#[test]
fn scan_skips_entries_without_metadata() {
    let r = root("/m", Some(vec![FsItem::Present(FsEntry { name: "gone".to_string(), path: "/m/gone".to_string(), meta: None, contents: None }), file("/m", "f", 2)]));
    let mut tx = Vec::new();
    let mut c = SizeCache::new();
    let (entries, total) = scan_directory_with_progress(&r, &mut tx, &vec![], None, &mut c).unwrap();
    assert_eq!(names(&entries), vec!["f"]);
    assert_eq!(total, 2);
}

#[test]
fn scan_reuses_cached_sizes() {
    let r = sample();
    let mut tx = Vec::new();
    let mut c = SizeCache::new();
    c.insert("/r/sub".to_string(), 7);
    let (entries, total) = scan_directory_with_progress(&r, &mut tx, &vec!["node_modules".to_string()], None, &mut c).unwrap();
    assert_eq!(entries.iter().find(|e| e.name == "sub").unwrap().size, 7);
    assert_eq!(total, 407);
}

#[test]
fn depth_limits_and_needed_listings() {
    assert_eq!(deeper_limit(None), None);
    assert_eq!(deeper_limit(Some(0)), Some(0));
    assert_eq!(deeper_limit(Some(3)), Some(2));
    let ignored = vec![".git".to_string()];
    let mut c = SizeCache::new();
    c.insert("/r/cached".to_string(), 1);
    let name = "d".to_string();
    assert!(contents_needed(&name, &"/r/d".to_string(), &ignored, None, &c));
    assert!(contents_needed(&name, &"/r/d".to_string(), &ignored, Some(1), &c));
    assert!(!contents_needed(&name, &"/r/d".to_string(), &ignored, Some(0), &c));
    assert!(!contents_needed(&".git".to_string(), &"/r/.git".to_string(), &ignored, None, &c));
    assert!(!contents_needed(&"cached".to_string(), &"/r/cached".to_string(), &ignored, None, &c));
    assert!(contents_needed(&"cached".to_string(), &"/r/cached".to_string(), &ignored, Some(4), &c));
}

#[test]
fn deeper_limits_never_shrink_sizes() {
    let r = sample();
    let mut results = Vec::new();
    for depth in [Some(1), Some(2), Some(3), None] {
        let mut tx = Vec::new();
        let mut c = SizeCache::new();
        let (entries, total) = scan_directory_with_progress(&r, &mut tx, &vec![], depth, &mut c).unwrap();
        let mut by_name: Vec<(String, u64, bool)> = entries.iter().map(|e| (e.name.clone(), e.size, e.is_dir)).collect();
        by_name.sort();
        results.push((by_name, total));
    }
    for w in results.windows(2) {
        let (a, ta) = &w[0];
        let (b, tb) = &w[1];
        assert!(ta <= tb);
        assert_eq!(a.len(), b.len());
        for (x, y) in a.iter().zip(b.iter()) {
            assert_eq!(x.0, y.0);
            assert_eq!(x.2, y.2);
            assert!(x.1 <= y.1);
        }
    }
    assert_eq!(results[0].1, 400);
    assert_eq!(results[3].1, 400 + 35 + 1_000_000);
}

#[test]
fn scanning_entry_by_entry_matches_a_whole_scan() {
    let r = sample();
    let mut whole_tx = Vec::new();
    let mut c1 = SizeCache::new();
    let (whole, whole_total) = scan_directory_with_progress(&r, &mut whole_tx, &vec!["node_modules".to_string()], None, &mut c1).unwrap();

    let mut c2 = SizeCache::new();
    let mut progress = ScanProgress::new();
    let mut tx = Vec::new();
    let ignored = vec!["node_modules".to_string()];
    for item in r.contents.as_ref().unwrap() {
        assert!(scan_entry(item, &mut progress, &mut tx, &ignored, None, &mut c2));
    }
    assert_eq!(progress.entries.len(), 3);
    assert_eq!(progress.entries[0].name, "a.txt");
    assert_eq!(progress.total, 435);
    let (entries, total) = finish_scan(progress, &mut tx);
    assert_eq!(total, whole_total);
    assert_eq!(names(&entries), names(&whole));
    assert_eq!(names(&entries), vec!["b.bin", "a.txt", "sub"]);
    assert_eq!(tx.len(), whole_tx.len());
    assert!(matches!(tx.last(), Some(ScanMessage::Finished { total_size: 435, .. })));
}

#[test]
fn scan_entry_stops_at_an_unreadable_item() {
    let mut c = SizeCache::new();
    let mut progress = ScanProgress::new();
    let mut tx = Vec::new();
    assert!(!scan_entry(&FsItem::Unreadable, &mut progress, &mut tx, &vec![], None, &mut c));
    assert!(progress.entries.is_empty());
    assert_eq!(progress.counter, 0);
    assert!(tx.is_empty());
}
