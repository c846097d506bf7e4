use macdirstat::analytics::{
    category_for_extension, normalized_extension, push_issue, AnalysisEvent, AnalysisIndex,
    AnalysisIssue, FileCategory, FileRecord, MAX_ISSUES,
};
use macdirstat::digest::Digest;
use macdirstat::duplicates::{
    candidate_sets, duplicate_candidate_count, duplicate_group, group_digests, hash_counts,
    may_hash, note_unreadable, sample_digest, sample_plan, sort_groups, Findings, HashOutcome,
    SAMPLE_SIZE,
};
use macdirstat::indexing::{build_index, with_duplicates, IndexScan};
use macdirstat::path::FilePath;
use macdirstat::scanner::{FileFacts, FileType, IoFailure, ScanOptions, WalkItem, WalkStep};
use macdirstat::tree::{FileIdentity, UsageStats};
use macdirstat::worker::{report_duplicates, report_index, AnalysisRequest};

fn path(text: &str) -> FilePath {
    FilePath::from_text(text)
}

const OPTIONS: ScanOptions = ScanOptions { root_device: 1, one_file_system: true };
const DIRECTORY: FileType = FileType { is_dir: true, is_file: false, is_symlink: false };
const FILE: FileType = FileType { is_dir: false, is_file: true, is_symlink: false };
const SYMLINK: FileType = FileType { is_dir: false, is_file: false, is_symlink: true };

fn facts(file_type: FileType, device: u64, inode: u64, length: u64) -> FileFacts {
    FileFacts {
        file_type,
        length,
        blocks: length.div_ceil(512),
        identity: FileIdentity { device, inode, modified_seconds: 5, modified_nanoseconds: 6 },
        modified: Some(5),
    }
}

fn walked(name: &str, at_root: bool, facts: FileFacts) -> WalkItem {
    WalkItem::Entry { path: path(name), at_root, file_type: facts.file_type, facts }
}

fn record(name: &str, size: u64, inode: u64) -> FileRecord {
    let identity =
        FileIdentity { device: 1, inode, modified_seconds: 5, modified_nanoseconds: 6 };
    FileRecord {
        path: path(name),
        usage: UsageStats { logical: size, physical: size, files: 1 },
        identity,
        modified_seconds: 5,
        modified_nanoseconds: 6,
        extension: None,
        category: FileCategory::Other,
    }
}

#[test]
fn index_collects_files_directories_extensions_and_ages() {
    let root = path("/r");
    let mut scan = IndexScan::new(root.clone(), OPTIONS);
    for item in [
        walked("/r", true, facts(DIRECTORY, 1, 1, 96)),
        walked("/r/nested", false, facts(DIRECTORY, 1, 2, 64)),
        walked("/r/nested/code.rs", false, facts(FILE, 1, 3, 20)),
        walked("/r/photo.JPG", false, facts(FILE, 1, 4, 10)),
        walked("/r/photo-link", false, facts(SYMLINK, 1, 5, 9)),
    ] {
        let (step, batch) = scan.accept(item);
        assert_eq!(step, WalkStep::Continue);
        assert!(batch.is_none());
    }
    let result = scan.finish();
    assert_eq!(result.files.len(), 2);
    assert!(result.files.iter().any(|file| file.category == FileCategory::Image));
    assert!(result.files.iter().any(|file| file.extension.as_deref() == Some("rs")));
    let found = result.directories.iter().find(|directory| directory.path == root).unwrap();
    assert!(found.usage.logical >= 30);
    assert_eq!(found.usage.files, 2);
    let nested =
        result.directories.iter().find(|directory| directory.path == path("/r/nested")).unwrap();
    assert_eq!(nested.usage.logical, 20);
}

#[test]
fn a_walk_stops_at_other_devices_and_notes_what_it_cannot_read() {
    let mut scan = IndexScan::new(path("/r"), OPTIONS);
    scan.accept(walked("/r", true, facts(DIRECTORY, 1, 1, 96)));
    let (step, _) = scan.accept(walked("/r/mnt", false, facts(DIRECTORY, 2, 1, 96)));
    assert_eq!(step, WalkStep::SkipDirectory);
    scan.accept(WalkItem::Unknown {
        path: path("/r/secret"),
        failure: IoFailure { denied: true, message: "denied".to_owned() },
    });
    let result = scan.finish();
    assert_eq!(result.mounts_skipped, 1);
    assert_eq!(result.issues.len(), 1);
    assert_eq!(result.issues[0].path, path("/r/secret"));
}

#[test]
fn files_come_in_batches() {
    let mut scan = IndexScan::new(path("/r"), OPTIONS);
    scan.accept(walked("/r", true, facts(DIRECTORY, 1, 1, 96)));
    let mut batches = 0;
    for number in 0..1_100 {
        let name = format!("/r/{number}");
        let (_, batch) = scan.accept(walked(&name, false, facts(FILE, 1, number + 2, 1)));
        if let Some(batch) = batch {
            assert_eq!(batch.len(), 512);
            batches += 1;
        }
    }
    assert_eq!(batches, 2);
    assert_eq!(scan.finish().files.len(), 1_100 - 1_024);
}

#[test]
fn full_index_preserves_sparse_logical_and_physical_sizes() {
    let mut sparse = facts(FILE, 1, 2, 8_388_608);
    sparse.blocks = 0;
    let mut scan = IndexScan::new(path("/r"), OPTIONS);
    scan.accept(walked("/r", true, facts(DIRECTORY, 1, 1, 96)));
    scan.accept(walked("/r/sparse", false, sparse));
    let result = scan.finish();
    let mut index = AnalysisIndex::new(path("/r"), true, 1);
    index.files = result.files;
    index.directories = result.directories;
    assert_eq!(index.files[0].usage.logical, 8 * 1024 * 1024);
    assert!(index.files[0].usage.physical < index.files[0].usage.logical);
    assert_eq!(index.root_usage().files, 1);
}

#[test]
fn duplicate_detection_hashes_contents_and_collapses_hardlinks() {
    let files = vec![
        record("/r/different.bin", 13, 4),
        record("/r/first-link.bin", 12, 2),
        record("/r/first.bin", 12, 2),
        record("/r/second.bin", 12, 3),
        record("/r/empty", 0, 9),
        record("/r/empty2", 0, 8),
    ];
    assert_eq!(duplicate_candidate_count(&files), 3);
    let sets = candidate_sets(&files);
    assert_eq!(sets.len(), 1);
    assert_eq!(sets[0].members.len(), 2);
    assert_eq!(sets[0].members[0].aliases.len(), 1);
    let digest = sample_digest(b"same-content", b"");
    let outcomes = vec![HashOutcome::Digest(digest.clone()), HashOutcome::Digest(digest.clone())];
    let mut findings = Findings::new();
    let agreeing = findings.take_samples(&files, &sets[0], &outcomes);
    assert_eq!(agreeing, [vec![0, 1]]);
    findings.take_digests(&files, &sets[0], &agreeing[0], &outcomes);
    let (groups, issues) = findings.finish();
    assert!(issues.is_empty());
    assert_eq!(groups.len(), 1);
    assert_eq!(groups[0].files.len(), 2);
    assert_eq!(groups[0].files[0].hardlink_aliases.len(), 1);
    assert_eq!(groups[0].hash, digest);
    assert_eq!(groups[0].reclaimable_logical, 12);
    assert_eq!(groups[0].physical_total, 24);
}

#[test]
fn equal_samples_with_different_contents_are_no_duplicates() {
    let files = vec![record("/r/a", 5, 1), record("/r/b", 5, 2), record("/r/c", 5, 3)];
    let sets = candidate_sets(&files);
    let digest = |text: &str| HashOutcome::Digest(text.to_owned());
    let mut findings = Findings::new();
    let agreeing =
        findings.take_samples(&files, &sets[0], &vec![digest("s"), digest("s"), digest("s")]);
    assert_eq!(agreeing, [vec![0, 1, 2]]);
    findings.take_digests(
        &files,
        &sets[0],
        &agreeing[0],
        &vec![digest("x"), HashOutcome::Changed, digest("x")],
    );
    let (groups, issues) = findings.finish();
    assert_eq!(groups.len(), 1);
    assert_eq!(groups[0].files[0].path, path("/r/a"));
    assert_eq!(groups[0].files[1].path, path("/r/c"));
    assert_eq!(issues.len(), 1);
    assert_eq!(issues[0].message, "File changed while it was being hashed");
}

#[test]
fn a_walk_becomes_an_index() {
    let mut scan = IndexScan::new(path("/r"), OPTIONS);
    scan.accept(walked("/r", true, facts(DIRECTORY, 1, 1, 96)));
    scan.accept(walked("/r/b", false, facts(FILE, 1, 2, 7)));
    let index =
        build_index(path("/r"), true, 5, 9, vec![record("/r/a", 3, 3)], scan.finish());
    assert!(index.complete);
    assert_eq!(index.completed_at, Some(9));
    assert_eq!(index.files.len(), 2);
    assert!(index.duplicates.is_none());
    let issue = AnalysisIssue { path: path("/r/a"), message: "denied".to_owned() };
    let index = with_duplicates(index, Vec::new(), vec![issue]);
    assert_eq!(index.issues.len(), 1);
    assert!(index.duplicates.unwrap().is_empty());
}

#[test]
fn different_contents_are_no_duplicates() {
    let one = sample_digest(b"one", b"");
    let two = sample_digest(b"two", b"");
    assert_ne!(one, two);
    let outcomes = vec![
        HashOutcome::Digest(one.clone()),
        HashOutcome::Digest(two),
        HashOutcome::Changed,
        HashOutcome::Failed("denied".to_owned()),
        HashOutcome::Digest(one),
    ];
    assert_eq!(group_digests(&outcomes), [vec![0, 4]]);
}

#[test]
fn files_that_cannot_be_hashed_become_issues() {
    let files = vec![record("/r/a", 5, 1), record("/r/b", 5, 2)];
    let sets = candidate_sets(&files);
    let outcomes =
        vec![HashOutcome::Failed("denied".to_owned()), HashOutcome::Digest("x".to_owned())];
    let mut issues: Vec<AnalysisIssue> = Vec::new();
    note_unreadable(&files, &sets[0].members, &vec![0, 1], &outcomes, &mut issues);
    assert_eq!(issues.len(), 1);
    assert_eq!(issues[0].path, path("/r/a"));
    assert_eq!(issues[0].message, "denied");
}

#[test]
fn only_unchanged_files_are_hashed() {
    let file = record("/r/a", 5, 7);
    assert!(may_hash(&file, &facts(FILE, 1, 7, 5)));
    assert!(hash_counts(&file, &facts(FILE, 1, 7, 5)));
    assert!(!may_hash(&file, &facts(FILE, 1, 8, 5)));
    assert!(!may_hash(&file, &facts(FILE, 1, 7, 6)));
    assert!(!hash_counts(&file, &facts(FILE, 1, 7, 6)));
}

#[test]
fn samples_take_both_ends_of_large_files() {
    let plan = sample_plan(10);
    assert_eq!((plan.head, plan.tail), (10, 0));
    let plan = sample_plan(10 * SAMPLE_SIZE);
    assert_eq!(plan.head, SAMPLE_SIZE);
    assert_eq!(plan.tail, SAMPLE_SIZE);
    assert_ne!(sample_digest(b"ab", b"c"), sample_digest(b"ab", b"d"));
}

#[test]
fn digests_are_those_of_blake3() {
    let empty = Digest::new();
    assert_eq!(
        empty.finish(),
        "af1349b9f5f9a1a6a0404dea36dcc9499bcb25c9adc112b7cc9a93cae41f3262"
    );
    let mut parts = Digest::new();
    assert!(parts.update(b"he"));
    assert!(parts.update(b"llo"));
    let mut whole = Digest::new();
    assert!(whole.update(b"hello"));
    assert_eq!(parts.finish(), whole.finish());
    assert_eq!(
        whole.finish(),
        "ea8f163db38682925e4491c5e58d4bb3506ef8c14eb78a86e908c5624a67200f"
    );
}

#[test]
fn groups_are_listed_by_what_they_would_free() {
    let files = vec![
        record("/r/a", 5, 1),
        record("/r/b", 5, 2),
        record("/r/c", 50, 3),
        record("/r/d", 50, 4),
    ];
    let sets = candidate_sets(&files);
    let mut groups = Vec::new();
    for set in &sets {
        groups.push(duplicate_group(
            set.logical_size,
            "x".to_owned(),
            &files,
            &set.members,
            &vec![0, 1],
        ));
    }
    let sorted = sort_groups(groups);
    assert_eq!(sorted[0].logical_size, 50);
    assert_eq!(sorted[1].logical_size, 5);
}

#[test]
fn issues_are_limited() {
    let mut issues = Vec::new();
    for _ in 0..MAX_ISSUES + 5 {
        push_issue(&mut issues, &path("/r/a"), "denied".to_owned());
    }
    assert_eq!(issues.len(), MAX_ISSUES);
}

#[test]
fn categories_go_by_extension() {
    for (extension, category) in [
        ("png", FileCategory::Image),
        ("mp4", FileCategory::Video),
        ("mp3", FileCategory::Audio),
        ("zip", FileCategory::Archive),
        ("pdf", FileCategory::Document),
        ("rs", FileCategory::Code),
        ("xyz", FileCategory::Other),
    ] {
        assert_eq!(category_for_extension(Some(extension)), category, "{extension}");
        assert_eq!(FileCategory::parse(category.label()), Some(category));
    }
    assert_eq!(category_for_extension(None), FileCategory::Other);
    assert_eq!(normalized_extension(&path("/a/B.TXT")).as_deref(), Some("txt"));
    assert_eq!(normalized_extension(&path("/a/.hidden")), None);
    assert_eq!(normalized_extension(&path("/a/plain")), None);
}

#[test]
fn an_index_loses_a_subtree_whole() {
    let mut index = AnalysisIndex::new(path("/r"), true, 1);
    index.files = vec![record("/r/a/x", 5, 1), record("/r/ab", 7, 2)];
    index.remove_subtree(&path("/r/a"));
    assert_eq!(index.files.len(), 1);
    assert_eq!(index.files[0].path, path("/r/ab"));
    assert_eq!(index.root_usage().logical, 7);
}

#[test]
fn directories_count_all_that_lies_below_them() {
    let mut scan = IndexScan::new(path("/r"), OPTIONS);
    for item in [
        walked("/r", true, facts(DIRECTORY, 1, 1, 96)),
        walked("/r/a", false, facts(DIRECTORY, 1, 2, 64)),
        walked("/r/a/b", false, facts(DIRECTORY, 1, 3, 64)),
        walked("/r/a/b/one", false, facts(FILE, 1, 4, 1)),
        walked("/r/a/two", false, facts(FILE, 1, 5, 20)),
        walked("/r/c", false, facts(DIRECTORY, 1, 6, 64)),
        walked("/r/c/three", false, facts(FILE, 1, 7, 300)),
        walked("/r/four", false, facts(FILE, 1, 8, 4_000)),
    ] {
        scan.accept(item);
    }
    let found: Vec<(FilePath, u64, u64)> = scan
        .finish()
        .directories
        .into_iter()
        .map(|directory| (directory.path, directory.usage.logical, directory.usage.files))
        .collect();
    assert_eq!(
        found,
        vec![
            (path("/r"), 4_321, 4),
            (path("/r/a"), 21, 2),
            (path("/r/a/b"), 1, 1),
            (path("/r/c"), 300, 1),
        ]
    );
}

#[test]
fn groups_add_up_to_the_total() {
    let mut index = AnalysisIndex::new(path("/r"), true, 1);
    for (number, (extension, category)) in [
        (Some("rs"), FileCategory::Code),
        (Some("jpg"), FileCategory::Image),
        (None, FileCategory::Other),
        (Some("rs"), FileCategory::Code),
    ]
    .into_iter()
    .enumerate()
    {
        let size = 10_u64.pow(number as u32);
        index.files.push(FileRecord {
            extension: extension.map(str::to_owned),
            category,
            ..record(&format!("/r/{number}"), size, size)
        });
    }
    let summary = index.summary(&vec![0, 1, 2, 3]);
    assert_eq!(summary.total, UsageStats { logical: 1_111, physical: 1_111, files: 4 });
    for groups in [&summary.categories, &summary.extensions, &summary.age_buckets] {
        let total: u64 = groups.iter().map(|group| group.stats.usage.logical).sum();
        assert_eq!(total, 1_111);
    }
    let code = summary.extensions.iter().find(|group| group.name == "rs").unwrap();
    assert_eq!(code.stats.usage.logical, 1_001);
}

#[test]
fn requests_are_announced_and_reported() {
    let files = vec![record("/r/a", 5, 1), record("/r/b", 5, 2), record("/r/c", 6, 3)];
    let request = AnalysisRequest::Duplicates { generation: 4, files };
    assert!(request.is_wanted(4));
    assert!(!request.is_wanted(5));
    assert!(matches!(
        request.announcement(9),
        AnalysisEvent::DuplicatesStarted { generation: 4, candidates: 2 }
    ));
    let request = AnalysisRequest::Index { generation: 3, root: path("/r"), options: OPTIONS };
    assert!(matches!(
        request.announcement(9),
        AnalysisEvent::Started { generation: 3, started_at: 9, .. }
    ));
    let empty = IndexScan::new(path("/r"), OPTIONS).finish();
    let reports = report_index(3, path("/r"), 10, Some(empty));
    assert_eq!(reports.len(), 1);
    assert!(matches!(reports[0], AnalysisEvent::Finished { completed_at: 10, .. }));
    let mut scan = IndexScan::new(path("/r"), OPTIONS);
    scan.accept(walked("/r/one", false, facts(FILE, 1, 4, 1)));
    let reports = report_index(3, path("/r"), 10, Some(scan.finish()));
    assert_eq!(reports.len(), 2);
    assert!(matches!(&reports[0], AnalysisEvent::FileBatch { files, .. } if files.len() == 1));
    assert!(report_duplicates(3, None).is_none());
    assert!(report_duplicates(3, Some((Vec::new(), Vec::new()))).is_some());
}

#[test]
fn cancellation_omits_finished_event() {
    let events = report_index(1, path("/r"), 10, None);
    assert!(events.iter().all(|event| !matches!(event, AnalysisEvent::Finished { .. })));
}

#[test]
fn a_walk_indexes_each_file_once_and_sums_up_each_directory() {
    let mut scan = IndexScan::new(path("/r"), OPTIONS);
    let mut files: Vec<FileRecord> = Vec::new();
    for item in [
        walked("/r", true, facts(DIRECTORY, 1, 1, 96)),
        walked("/r/a", false, facts(DIRECTORY, 1, 2, 96)),
        walked("/r/a/one", false, facts(FILE, 1, 3, 10)),
        walked("/r/a/b", false, facts(DIRECTORY, 1, 4, 96)),
        walked("/r/a/b/two", false, facts(FILE, 1, 5, 20)),
        walked("/r/a/b/link", false, facts(SYMLINK, 1, 6, 3)),
        walked("/r/c", false, facts(DIRECTORY, 1, 7, 96)),
        walked("/r/three", false, facts(FILE, 1, 8, 40)),
        walked("/r/elsewhere", false, facts(FILE, 2, 9, 80)),
    ] {
        let (_, batch) = scan.accept(item);
        files.extend(batch.unwrap_or_default());
    }
    let result = scan.finish();
    files.extend(result.files);
    let names: Vec<String> = files.iter().map(|file| file.path.display()).collect();
    assert_eq!(names, ["/r/a/one", "/r/a/b/two", "/r/three"]);
    let sums: Vec<(String, u64, u64)> = result
        .directories
        .iter()
        .map(|found| (found.path.display(), found.usage.logical, found.usage.files))
        .collect();
    assert_eq!(
        sums,
        [
            ("/r".to_owned(), 73, 3),
            ("/r/a".to_owned(), 33, 2),
            ("/r/a/b".to_owned(), 23, 1),
            ("/r/c".to_owned(), 0, 0),
        ]
    );
}

#[test]
fn every_file_is_in_one_group_of_each_kind() {
    let mut index = AnalysisIndex::new(path("/r"), true, 1);
    index.files = vec![record("/r/a", 1, 1), record("/r/b", 2, 2), record("/r/c", 3, 3)];
    index.files[1].extension = Some("png".to_owned());
    index.files[1].category = FileCategory::Image;
    let summary = index.summary(&vec![0, 1, 2]);
    for groups in [&summary.categories, &summary.extensions, &summary.age_buckets] {
        assert_eq!(groups.iter().map(|group| group.stats.files).sum::<u64>(), 3);
        assert!(groups.iter().all(|group| group.stats.files > 0));
    }
    assert_eq!(summary.categories.len(), 2);
}
