use macdirstat::analytics::{
    AnalysisIndex, AnalysisIssue, DirectoryRecord, FileCategory, FileRecord,
};
use macdirstat::headless;
use macdirstat::path::FilePath;
use macdirstat::portable_path::{decode, encoded, EncodedPath};
use macdirstat::snapshot::{
    compare_indices, load_compatible_snapshot, ChangeKind, ChangeObject, SnapshotStore,
    SnapshotV1,
};
use macdirstat::tree::{FileIdentity, UsageStats};

fn path(text: &str) -> FilePath {
    FilePath::from_text(text)
}

fn identity(inode: u64) -> FileIdentity {
    FileIdentity { device: 1, inode, modified_seconds: 1, modified_nanoseconds: 0 }
}

fn file(path: FilePath, size: u64, inode: u64) -> FileRecord {
    FileRecord {
        path,
        usage: UsageStats { logical: size, physical: size, files: 1 },
        identity: identity(inode),
        modified_seconds: 1,
        modified_nanoseconds: 0,
        extension: None,
        category: FileCategory::Other,
    }
}

fn index(root: &FilePath, name: &str, size: u64) -> AnalysisIndex {
    let usage = UsageStats { logical: size, physical: size, files: 1 };
    AnalysisIndex {
        root: root.clone(),
        one_file_system: true,
        started_at: 1,
        completed_at: Some(2),
        files: vec![file(root.join(&path(name)), size, 2)],
        directories: vec![DirectoryRecord {
            path: root.clone(),
            usage,
            identity: identity(1),
            modified_seconds: 1,
            modified_nanoseconds: 0,
        }],
        issues: Vec::new(),
        mounts_skipped: 0,
        complete: true,
        duplicates: None,
    }
}

fn ends_with(found: &FilePath, name: &str) -> bool {
    found.file_name() == Some(path(name))
}

#[test]
fn comparison_reports_added_removed_grown_and_shrunk() {
    let root = path("/tmp/root");
    let mut previous = index(&root, "grown", 10);
    previous.files.push(file(root.join(&path("removed")), 4, 3));
    let mut current = index(&root, "grown", 20);
    current.files.push(file(root.join(&path("added")), 5, 4));
    let comparison = compare_indices(&previous, &current);
    assert!(comparison
        .changes
        .iter()
        .any(|change| ends_with(&change.path, "grown") && change.kind == ChangeKind::Grown));
    assert!(comparison
        .changes
        .iter()
        .any(|change| ends_with(&change.path, "removed") && change.kind == ChangeKind::Removed));
    assert!(comparison
        .changes
        .iter()
        .any(|change| ends_with(&change.path, "added") && change.kind == ChangeKind::Added));
}

#[test]
fn changes_are_counted_and_measured() {
    let root = path("/r");
    let comparison = compare_indices(&index(&root, "file", 30), &index(&root, "file", 20));
    assert_eq!(
        (comparison.added, comparison.removed, comparison.grown, comparison.shrunk),
        (0, 0, 0, 2)
    );
    let change = comparison
        .changes
        .iter()
        .find(|change| change.object == ChangeObject::File)
        .unwrap();
    assert_eq!(change.kind, ChangeKind::Shrunk);
    assert_eq!(change.logical_delta, -10);
    assert_eq!(change.file_delta, 0);
    let none = compare_indices(&index(&root, "file", 30), &index(&root, "file", 30));
    assert!(none.changes.is_empty());
}

#[test]
fn unreadable_paths_do_not_count_as_removed() {
    let root = path("/r");
    let previous = index(&root, "file", 30);
    let mut current = index(&root, "file", 30);
    current.files.clear();
    let comparison = compare_indices(&previous, &current);
    assert_eq!(comparison.removed, 1);
    current.issues.push(AnalysisIssue { path: path("/r/file"), message: "denied".to_owned() });
    let comparison = compare_indices(&previous, &current);
    assert_eq!(comparison.removed, 0);
}

#[test]
fn rolling_snapshot_is_atomic_and_compares_previous_scan() {
    let root = path("/tmp/root");
    let store = SnapshotStore::new(path("/tmp/snapshots"), true);
    let first = index(&root, "file", 10);
    let (stored, result) = store.process_completed(&first, None, 3);
    assert!(result.comparison.is_none());
    assert!(result.warning.is_none());
    let second = index(&root, "file", 20);
    let (stored, result) = store.process_completed(&second, stored.map(Ok), 4);
    assert_eq!(result.comparison.unwrap().grown, 2);
    assert_eq!(stored.unwrap().index.files[0].usage.logical, 20);
    assert_eq!(store.rolling_path(&first), store.rolling_path(&second));
    assert_ne!(
        SnapshotStore::rolling_name(&first),
        SnapshotStore::rolling_name(&index(&path("/other"), "file", 10))
    );
    let name = SnapshotStore::rolling_name(&first);
    assert_eq!(name.len(), 64 + 5);
    assert!(name.ends_with(".json"));
}

#[test]
fn incomplete_scan_does_not_replace_rolling_baseline() {
    let root = path("/tmp/root");
    let store = SnapshotStore::new(path("/tmp/snapshots"), true);
    let (baseline, _) = store.process_completed(&index(&root, "file", 10), None, 3);
    let mut incomplete = index(&root, "file", 99);
    incomplete.complete = false;
    incomplete.completed_at = None;
    let (stored, result) = store.process_completed(&incomplete, baseline.map(Ok), 4);
    assert!(result.comparison.is_none());
    assert!(stored.is_none());
    let off = SnapshotStore::new(path("/tmp/snapshots"), false);
    assert!(off.process_completed(&index(&root, "file", 10), None, 3).0.is_none());
}

#[test]
fn an_unreadable_or_foreign_baseline_is_ignored_with_a_warning() {
    let root = path("/tmp/root");
    let store = SnapshotStore::new(path("/tmp/snapshots"), true);
    let current = index(&root, "file", 10);
    let (stored, result) = store.process_completed(&current, Some(Err("broken".to_owned())), 3);
    assert!(result.comparison.is_none());
    assert!(result.warning.unwrap().contains("broken"));
    assert!(stored.is_some());
    let other = SnapshotV1::from_index_at(&index(&path("/other"), "file", 1), None, 3);
    let (_, result) = store.process_completed(&current, Some(Ok(other)), 3);
    assert!(result.comparison.is_none());
    assert_eq!(
        result.warning.unwrap(),
        "Ignoring snapshot for a different root or mount policy"
    );
}

#[test]
fn rejects_unknown_snapshot_schema() {
    let current = index(&path("/r"), "file", 1);
    let mut snapshot = SnapshotV1::from_index(&current, None);
    assert!(snapshot.validate().is_ok());
    snapshot.schema_version = 999;
    assert_eq!(
        snapshot.validate().unwrap_err(),
        "Unsupported snapshot schema 999; expected 1"
    );
    assert!(load_compatible_snapshot(snapshot, &current).is_err());
}

#[test]
fn only_snapshots_of_the_same_scan_are_compatible() {
    let current = index(&path("/r"), "file", 1);
    let same = SnapshotV1::from_index(&current, None);
    assert!(load_compatible_snapshot(same, &current).is_ok());
    let other = SnapshotV1::from_index(&index(&path("/s"), "file", 1), None);
    assert_eq!(
        load_compatible_snapshot(other, &current).unwrap_err(),
        "Snapshot root does not match /r"
    );
    let mut crossing = index(&path("/r"), "file", 1);
    crossing.one_file_system = false;
    let crossing = SnapshotV1::from_index(&crossing, None);
    assert_eq!(
        load_compatible_snapshot(crossing, &current).unwrap_err(),
        "Snapshot mount policy does not match the current scan"
    );
}

#[test]
fn json_roundtrip_preserves_non_utf8_path() {
    let original = FilePath::new(vec![b'/', b't', b'm', b'p', b'/', 0xff]);
    let stored = encoded(&original);
    assert_eq!(stored.bytes_base64, "L3RtcC//");
    assert_eq!(stored.display, "/tmp/\u{fffd}");
    assert_eq!(decode(&stored).unwrap().as_bytes(), original.as_bytes());
}

#[test]
fn broken_base64_is_an_error() {
    let stored = EncodedPath { display: "/tmp".to_owned(), bytes_base64: "L3RtcA".to_owned() };
    assert!(decode(&stored).unwrap_err().starts_with("invalid path bytes: "));
    let stored = EncodedPath { display: "/else".to_owned(), bytes_base64: "L3RtcA==".to_owned() };
    assert_eq!(decode(&stored).unwrap(), path("/tmp"));
}

#[test]
fn snapshot_roundtrip_preserves_non_utf8_paths() {
    let root = FilePath::new(vec![b'/', b't', b'm', b'p', b'/', 0xff]);
    let snapshot = SnapshotV1::from_index(&index(&root, "file", 10), None);
    let stored = encoded(&snapshot.index.root);
    assert_eq!(decode(&stored).unwrap().as_bytes(), root.as_bytes());
    assert_eq!(snapshot.app_version, "0.3.1");
    assert_eq!(snapshot.summary.total.logical, 10);
}

#[test]
fn writes_complete_headless_export_with_duplicates() {
    let mut current = index(&path("/r"), "a", 4);
    current.files.push(file(path("/r/b"), 4, 3));
    current.duplicates = Some(Vec::new());
    current.directories[0].usage.files = 2;
    assert_eq!(
        headless::report(&current),
        "macDirStat: indexed 2 files, 1 directories, 0 duplicate groups, 0 issue(s)"
    );
    let before = SnapshotV1::from_index(&index(&path("/r"), "a", 2), None);
    let chosen = headless::choose_comparison(Some(Ok(before)), None, &current).unwrap().unwrap();
    assert_eq!(chosen.added, 1);
    assert!(headless::choose_comparison(None, None, &current).unwrap().is_none());
    let error = headless::choose_comparison(Some(Err("no file".to_owned())), None, &current);
    assert_eq!(error.unwrap_err(), "no file");
}

#[test]
fn what_cannot_be_read_stays_in_the_baseline() {
    let root = path("/r");
    let mut previous = index(&root, "secret", 30);
    previous.directories.push(DirectoryRecord {
        path: path("/r/hidden"),
        usage: UsageStats { logical: 1, physical: 1, files: 1 },
        identity: identity(9),
        modified_seconds: 1,
        modified_nanoseconds: 0,
    });
    let mut current = index(&root, "other", 5);
    for name in ["/r/secret", "/r/hidden"] {
        current.issues.push(AnalysisIssue { path: path(name), message: "denied".to_owned() });
    }
    let store = SnapshotStore::new(path("/snapshots"), true);
    let stored = SnapshotV1::from_index(&previous, None);
    let (next, _) = store.process_completed(&current, Some(Ok(stored)), 4);
    let next = next.unwrap();
    assert!(next.index.files.iter().any(|file| file.path == path("/r/secret")));
    assert!(next.index.files.iter().any(|file| file.path == path("/r/other")));
    assert!(next.index.directories.iter().any(|found| found.path == path("/r/hidden")));
}

#[test]
fn larger_changes_come_first_and_all_are_counted() {
    let root = path("/r");
    let mut previous = index(&root, "grown", 10);
    previous.files.push(file(path("/r/gone"), 500, 3));
    let mut current = index(&root, "grown", 40);
    current.files.push(file(path("/r/new"), 7, 4));
    let comparison = compare_indices(&previous, &current);
    let sizes: Vec<i128> =
        comparison.changes.iter().map(|change| change.logical_delta.abs()).collect();
    assert_eq!(sizes, vec![500, 30, 30, 7]);
    assert_eq!(comparison.removed, 1);
    assert_eq!(comparison.added, 1);
    assert_eq!(comparison.grown, 2);
    assert_eq!(comparison.shrunk, 0);
}

#[test]
fn runs_over_one_tree_share_a_file_in_the_directory() {
    let store = SnapshotStore::new(path("/tmp/snapshots"), true);
    let first = index(&path("/tmp/root"), "file", 10);
    let mut later = index(&path("/tmp/root"), "other", 20);
    later.started_at = 7;
    later.mounts_skipped = 3;
    later.issues.push(AnalysisIssue { path: path("/tmp/root/a"), message: "denied".to_owned() });
    let kept = store.rolling_path(&first);
    assert_eq!(kept, store.rolling_path(&later));
    assert_eq!(kept.parent(), Some(path("/tmp/snapshots")));
    assert_eq!(kept.extension(), Some(path("json")));
    let name = SnapshotStore::rolling_name(&first);
    assert!(name[..64].chars().all(|digit| matches!(digit, '0'..='9' | 'a'..='f')));
    later.one_file_system = false;
    assert_ne!(kept, store.rolling_path(&later));
    assert_ne!(kept, store.rolling_path(&index(&path("/tmp/roo"), "file", 10)));
}

#[test]
fn comparing_the_other_way_mirrors_the_records() {
    let root = path("/root");
    let mut before = index(&root, "kept", 10);
    before.files.push(file(path("/root/gone"), 5, 3));
    before.files.push(file(path("/root/less"), 9, 4));
    let mut after = index(&root, "kept", 30);
    after.files.push(file(path("/root/less"), 2, 4));
    after.files.push(file(path("/root/new"), 6, 5));
    let there = compare_indices(&before, &after);
    let back = compare_indices(&after, &before);
    assert_eq!((there.added, there.removed, there.grown, there.shrunk), (1, 1, 2, 1));
    assert_eq!((back.removed, back.added, back.shrunk, back.grown), (1, 1, 2, 1));
    assert_eq!(there.changes.len(), back.changes.len());
    for change in &there.changes {
        let other = back
            .changes
            .iter()
            .find(|other| other.object == change.object && other.path == change.path)
            .unwrap();
        assert_eq!(other.previous, change.current);
        assert_eq!(other.current, change.previous);
        assert_eq!(other.logical_delta, -change.logical_delta);
        assert_eq!(other.physical_delta, -change.physical_delta);
        assert_eq!(other.file_delta, -change.file_delta);
        let kind = match change.kind {
            ChangeKind::Added => ChangeKind::Removed,
            ChangeKind::Removed => ChangeKind::Added,
            ChangeKind::Grown => ChangeKind::Shrunk,
            ChangeKind::Shrunk => ChangeKind::Grown,
        };
        assert_eq!(other.kind, kind);
    }
}

#[test]
fn only_lost_paths_below_an_issue_are_left_out() {
    let root = path("/root");
    let mut before = index(&root, "kept", 10);
    before.files.push(file(path("/root/closed/lost"), 5, 3));
    before.files.push(file(path("/root/closed/seen"), 6, 4));
    before.files.push(file(path("/root/gone"), 7, 5));
    let mut after = index(&root, "kept", 10);
    after.files.push(file(path("/root/closed/seen"), 8, 4));
    after.files.push(file(path("/root/closed/new"), 9, 6));
    after
        .issues
        .push(AnalysisIssue { path: path("/root/closed"), message: "denied".to_owned() });
    let comparison = compare_indices(&before, &after);
    let mut changed: Vec<(String, ChangeKind)> = comparison
        .changes
        .iter()
        .map(|change| (change.path.display(), change.kind))
        .collect();
    changed.sort_by(|left, right| left.0.cmp(&right.0));
    assert_eq!(
        changed,
        [
            ("/root/closed/new".to_owned(), ChangeKind::Added),
            ("/root/closed/seen".to_owned(), ChangeKind::Grown),
            ("/root/gone".to_owned(), ChangeKind::Removed),
        ]
    );
}
