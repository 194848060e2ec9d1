use obs_shogi::fs_scan::{
    ascii_lower, diff_snapshot, extension_start, find_path, path_key, path_not_after,
    snapshot_from_records, sort_records_by_path, FileRecord, KifuKind, ScanOptions, ScanSnapshot,
};

fn rec(path: &str, size: u64, mtime_ms: u128) -> FileRecord {
    FileRecord { path: path.to_string(), kind: KifuKind::Kif, size, mtime_ms }
}

fn paths(v: &[FileRecord]) -> Vec<&str> {
    v.iter().map(|r| r.path.as_str()).collect()
}

#[test]
fn kind_from_path_goes_by_extension() {
    assert_eq!(KifuKind::from_path("/a/b/game.kif"), Some(KifuKind::Kif));
    assert_eq!(KifuKind::from_path("game.KI2"), Some(KifuKind::Ki2));
    assert_eq!(KifuKind::from_path("C:\\games\\x.Csa"), Some(KifuKind::Csa));
    assert_eq!(KifuKind::from_path("a.b.jkf"), Some(KifuKind::Jkf));
    assert_eq!(KifuKind::from_path("game.kifu"), None);
    assert_eq!(KifuKind::from_path("game.txt"), None);
    assert_eq!(KifuKind::from_path("game"), None);
    assert_eq!(KifuKind::from_path(".kif"), None);
    assert_eq!(KifuKind::from_path("dir.kif/game"), None);
    assert_eq!(KifuKind::from_path("game."), None);
    assert_eq!(KifuKind::from_path(""), None);
    assert_eq!(KifuKind::from_path("棋譜.kif"), Some(KifuKind::Kif));
}

#[test]
fn ascii_lower_touches_upper_case_letters_only() {
    assert_eq!(ascii_lower(b'A'), b'a');
    assert_eq!(ascii_lower(b'Z'), b'z');
    assert_eq!(ascii_lower(b'a'), b'a');
    assert_eq!(ascii_lower(b'2'), b'2');
    assert_eq!(ascii_lower(b'['), b'[');
    assert_eq!(ascii_lower(0xC3), 0xC3);
}

#[test]
fn snapshot_keeps_the_last_record_of_each_path() {
    let snap = snapshot_from_records(
        "/root",
        vec![rec("/root/a.kif", 1, 1), rec("/root/b.kif", 2, 2), rec("/root/a.kif", 3, 3)],
    );
    assert_eq!(snap.root_dir, "/root");
    assert_eq!(paths(&snap.by_path), vec!["/root/a.kif", "/root/b.kif"]);
    assert_eq!(snap.by_path[0].size, 3);
    assert_eq!(find_path(&snap.by_path, &"/root/b.kif".to_string()), Some(1));
    assert_eq!(find_path(&snap.by_path, &"/root/c.kif".to_string()), None);
    assert!(ScanSnapshot::new().by_path.is_empty());
}

#[test]
fn diff_finds_added_modified_and_removed() {
    let prev = snapshot_from_records(
        "/r",
        vec![rec("/r/same", 1, 10), rec("/r/size", 1, 10), rec("/r/time", 1, 10), rec("/r/gone", 1, 10)],
    );
    let next = snapshot_from_records(
        "/r",
        vec![rec("/r/new", 5, 50), rec("/r/time", 1, 11), rec("/r/same", 1, 10), rec("/r/size", 2, 10)],
    );
    let d = diff_snapshot(&prev, &next);
    assert_eq!(paths(&d.added), vec!["/r/new"]);
    assert_eq!(paths(&d.modified), vec!["/r/time", "/r/size"]);
    assert_eq!(d.removed, vec!["/r/gone".to_string()]);
    assert_eq!(d.modified[0].mtime_ms, 11);
    assert_eq!(d.modified[1].size, 2);
}

#[test]
fn diff_of_equal_snapshots_is_empty() {
    let a = snapshot_from_records("/r", vec![rec("/r/x", 1, 1), rec("/r/y", 2, 2)]);
    let b = snapshot_from_records("/r", vec![rec("/r/y", 2, 2), rec("/r/x", 1, 1)]);
    let d = diff_snapshot(&a, &b);
    assert!(d.added.is_empty() && d.modified.is_empty() && d.removed.is_empty());
    let e = diff_snapshot(&ScanSnapshot::new(), &a);
    assert_eq!(paths(&e.added), vec!["/r/x", "/r/y"]);
    let f = diff_snapshot(&a, &ScanSnapshot::new());
    assert_eq!(f.removed, vec!["/r/x".to_string(), "/r/y".to_string()]);
}

#[test]
fn default_options_skip_noise_directories() {
    let o = ScanOptions::default_options();
    assert!(!o.follow_links);
    assert_eq!(o.ignore_dir_names, vec![".git", "node_modules", "target"]);
    assert!(o.should_skip_dir(&".git".to_string(), true));
    assert!(o.should_skip_dir(&"target".to_string(), true));
    assert!(!o.should_skip_dir(&"target".to_string(), false));
    assert!(!o.should_skip_dir(&"games".to_string(), true));
    assert!(!o.should_skip_dir(&"Target".to_string(), true));
}

#[test]
fn path_key_is_the_path_itself() {
    assert_eq!(path_key("/a/b.kif"), "/a/b.kif");
    assert_eq!(path_key(""), "");
}

#[test]
fn paths_are_ordered_byte_by_byte() {
    assert!(path_not_after("", ""));
    assert!(path_not_after("", "a"));
    assert!(!path_not_after("a", ""));
    assert!(path_not_after("a", "a"));
    assert!(path_not_after("a", "ab"));
    assert!(!path_not_after("ab", "a"));
    assert!(path_not_after("a-b", "a/b"));
    assert!(!path_not_after("b", "a/z"));
    assert!(path_not_after("Z", "a"));
    assert!(path_not_after("z", "ア"));
}

#[test]
fn records_are_sorted_by_path_and_keep_their_order_among_equals() {
    let sorted = sort_records_by_path(vec![
        rec("/r/b", 1, 0),
        rec("/r/a", 2, 0),
        rec("/r/c", 3, 0),
        rec("/r/a", 4, 0),
        rec("/r", 5, 0),
    ]);
    let got: Vec<(&str, u64)> = sorted.iter().map(|r| (r.path.as_str(), r.size)).collect();
    assert_eq!(got, vec![("/r", 5), ("/r/a", 2), ("/r/a", 4), ("/r/b", 1), ("/r/c", 3)]);
    assert!(sort_records_by_path(vec![]).is_empty());
}

#[test]
fn extension_starts_behind_the_last_dot_of_the_name() {
    assert_eq!(extension_start(b"/a/b.kif"), Some(5));
    assert_eq!(extension_start(b"a.b.c"), Some(4));
    assert_eq!(extension_start(b"/a.b/c"), None);
    assert_eq!(extension_start(b".hidden"), None);
    assert_eq!(extension_start(b"name."), Some(5));
    assert_eq!(extension_start(b""), None);
}
