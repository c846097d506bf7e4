use macdirstat::path::FilePath;
use macdirstat::scanner::{
    is_mountpoint, physical_size, DirItem, FileFacts, FileType, IoFailure, LoadOutcome,
    ScanOptions, ScanOutcome, ScanWarnings, WalkItem, WalkStep,
};
use macdirstat::tree::{FileIdentity, NodeKind, UsageStats};

fn path(text: &str) -> FilePath {
    FilePath::from_text(text)
}

const OPTIONS: ScanOptions = ScanOptions { root_device: 1, one_file_system: true };

const DIRECTORY: FileType = FileType { is_dir: true, is_file: false, is_symlink: false };
const FILE: FileType = FileType { is_dir: false, is_file: true, is_symlink: false };
const SYMLINK: FileType = FileType { is_dir: false, is_file: false, is_symlink: true };

fn facts(file_type: FileType, device: u64, length: u64, blocks: u64) -> FileFacts {
    FileFacts {
        file_type,
        length,
        blocks,
        identity: FileIdentity { device, inode: 7, modified_seconds: 1, modified_nanoseconds: 2 },
        modified: Some(1),
    }
}

fn walked(name: &str, at_root: bool, facts: FileFacts) -> WalkItem {
    WalkItem::Entry { path: path(name), at_root, file_type: facts.file_type, facts }
}

#[test]
fn calculates_both_sizes_and_regular_file_count() {
    let root = path("/r");
    let mut outcome = ScanOutcome::new();
    for item in [
        walked("/r", true, facts(DIRECTORY, 1, 96, 0)),
        walked("/r/one", false, facts(FILE, 1, 10, 8)),
        walked("/r/nested", false, facts(DIRECTORY, 1, 64, 0)),
        walked("/r/nested/two", false, facts(FILE, 1, 25, 8)),
    ] {
        assert_eq!(outcome.accept(&root, item, OPTIONS), WalkStep::Continue);
    }
    assert_eq!(outcome.usage.logical, 35);
    assert!(outcome.usage.physical >= outcome.usage.logical);
    assert_eq!(outcome.usage.physical, 2 * 8 * 512);
    assert_eq!(outcome.usage.files, 2);
    assert_eq!(outcome.warnings.error_count, 0);
    assert!(!outcome.cancelled);
}

#[test]
fn sparse_file_reports_less_physical_than_logical_space() {
    let mut outcome = ScanOutcome::new();
    outcome.accept(&path("/r"), walked("/r/sparse", false, facts(FILE, 1, 8_388_608, 0)), OPTIONS);
    assert_eq!(outcome.usage.logical, 8 * 1024 * 1024);
    assert!(outcome.usage.physical < outcome.usage.logical);
    assert_eq!(outcome.usage.files, 1);
    assert_eq!(physical_size(3), 1_536);
    assert_eq!(physical_size(u64::MAX), u64::MAX);
}

#[test]
fn does_not_follow_symlinks() {
    let mut outcome = ScanOutcome::new();
    outcome.accept(&path("/r"), walked("/r/link", false, facts(SYMLINK, 1, 12, 0)), OPTIONS);
    assert_eq!(outcome.usage.logical, 12);
    assert_eq!(outcome.usage.files, 0);
}

#[test]
fn missing_root_becomes_a_fatal_scan_error() {
    let missing = path("/r/gone");
    let mut outcome = ScanOutcome::new();
    outcome.accept(
        &missing,
        WalkItem::Failed {
            place: Some(missing.clone()),
            at_root: true,
            message: "IO error for operation on /r/gone: No such file or directory".to_owned(),
            cause: Some(IoFailure {
                denied: false,
                message: "No such file or directory (os error 2)".to_owned(),
            }),
        },
        OPTIONS,
    );
    assert!(outcome.fatal_error.is_some());
    assert!(outcome.warnings.error_count > 0);
}

#[test]
fn cancellation_stops_directory_loading_and_size_scan() {
    let mut outcome = LoadOutcome::new();
    outcome.cancel();
    assert!(outcome.cancelled);
    assert!(outcome.entries.is_empty());

    let mut outcome = ScanOutcome::new();
    outcome.cancel();
    assert!(outcome.cancelled);
}

#[test]
fn permission_errors_are_counted_without_panicking() {
    let mut warnings = ScanWarnings::default();
    let failure = IoFailure { denied: true, message: "protected".to_owned() };
    warnings.record_io(&path("/protected"), &failure);

    assert_eq!(warnings.error_count, 1);
    assert_eq!(warnings.permission_denied, 1);
    assert_eq!(warnings.first_message.as_deref(), Some("Permission denied: /protected"));
}

#[test]
fn other_errors_are_told_in_their_own_words() {
    let mut warnings = ScanWarnings::default();
    let failure = IoFailure { denied: false, message: "broken pipe".to_owned() };
    warnings.record_io(&path("/p"), &failure);
    warnings.record_message("later".to_owned());
    assert_eq!(warnings.error_count, 2);
    assert_eq!(warnings.permission_denied, 0);
    assert_eq!(warnings.first_message.as_deref(), Some("/p: broken pipe"));
}

#[test]
fn mountpoint_detection_respects_scan_policy() {
    let identity =
        FileIdentity { device: 2, inode: 1, modified_seconds: 0, modified_nanoseconds: 0 };
    assert!(is_mountpoint(
        NodeKind::Directory,
        identity,
        ScanOptions { root_device: 1, one_file_system: true }
    ));
    assert!(!is_mountpoint(
        NodeKind::Directory,
        identity,
        ScanOptions { root_device: 1, one_file_system: false }
    ));
    assert!(!is_mountpoint(
        NodeKind::File,
        identity,
        ScanOptions { root_device: 1, one_file_system: true }
    ));
}

#[test]
fn size_scan_stops_at_a_device_boundary() {
    let mut stopped = ScanOutcome::new();
    let step = stopped.accept(&path("/r"), walked("/r", true, facts(DIRECTORY, 2, 64, 0)), OPTIONS);
    assert_eq!(step, WalkStep::SkipDirectory);
    assert_eq!(stopped.usage, UsageStats::default());
    assert_eq!(stopped.mounts_skipped, 1);

    let crossing = ScanOptions { root_device: 1, one_file_system: false };
    let mut crossed = ScanOutcome::new();
    let step =
        crossed.accept(&path("/r"), walked("/r", true, facts(DIRECTORY, 2, 64, 0)), crossing);
    assert_eq!(step, WalkStep::Continue);
    crossed.accept(&path("/r"), walked("/r/file", false, facts(FILE, 2, 4, 8)), crossing);
    assert_eq!(crossed.usage.files, 1);
    assert_eq!(crossed.usage.logical, 4);
}

#[test]
fn entries_are_listed_with_what_they_take_up() {
    let directory = path("/r");
    let mut outcome = LoadOutcome::new();
    outcome.accept(
        &directory,
        DirItem::Entry { path: path("/r/f"), name: path("f"), facts: facts(FILE, 1, 5, 8) },
        OPTIONS,
    );
    outcome.accept(
        &directory,
        DirItem::Entry { path: path("/r/d"), name: path("d"), facts: facts(DIRECTORY, 1, 64, 0) },
        OPTIONS,
    );
    outcome.accept(
        &directory,
        DirItem::Entry { path: path("/r/m"), name: path("m"), facts: facts(DIRECTORY, 9, 64, 0) },
        OPTIONS,
    );
    outcome.accept(
        &directory,
        DirItem::Unknown {
            path: path("/r/x"),
            name: path("x"),
            failure: IoFailure { denied: true, message: "denied".to_owned() },
        },
        OPTIONS,
    );
    outcome.accept(
        &directory,
        DirItem::Unreadable {
            failure: IoFailure { denied: false, message: "interrupted".to_owned() },
        },
        OPTIONS,
    );
    assert_eq!(outcome.entries.len(), 4);
    assert_eq!(
        outcome.entries[0].usage,
        Some(UsageStats { logical: 5, physical: 4_096, files: 1 })
    );
    assert_eq!(outcome.entries[1].kind, NodeKind::Directory);
    assert_eq!(outcome.entries[1].usage, None);
    assert!(!outcome.entries[1].mountpoint);
    assert!(outcome.entries[2].mountpoint);
    assert!(outcome.entries[3].error.is_some());
    assert_eq!(outcome.warnings.error_count, 2);
    assert_eq!(outcome.warnings.permission_denied, 1);
}

#[test]
fn a_walk_goes_on_behind_a_problem() {
    let root = path("/r");
    let mut outcome = ScanOutcome::new();
    let failure = IoFailure { denied: true, message: "denied".to_owned() };
    let step = outcome.accept(
        &root,
        WalkItem::Failed {
            place: Some(path("/r/secret")),
            at_root: false,
            message: "denied".to_owned(),
            cause: Some(failure),
        },
        OPTIONS,
    );
    assert_eq!(step, WalkStep::Continue);
    let step = outcome.accept(&root, walked("/r/a", false, facts(FILE, 1, 5, 8)), OPTIONS);
    assert_eq!(step, WalkStep::Continue);
    assert_eq!(outcome.usage, UsageStats { logical: 5, physical: 4_096, files: 1 });
    assert_eq!(outcome.warnings.error_count, 1);
    assert!(outcome.fatal_error.is_none());
}

#[test]
fn links_count_with_their_own_length() {
    let root = path("/r");
    let mut outcome = ScanOutcome::new();
    let step = outcome.accept(&root, walked("/r/link", false, facts(SYMLINK, 1, 9, 1)), OPTIONS);
    assert_eq!(step, WalkStep::Continue);
    assert_eq!(outcome.usage, UsageStats { logical: 9, physical: 512, files: 0 });
}

#[test]
fn a_walk_that_fails_at_its_start_tells_the_cause() {
    let missing = path("/r/gone");
    let failed = |cause: Option<IoFailure>| {
        let mut outcome = ScanOutcome::new();
        let step = outcome.accept(
            &missing,
            WalkItem::Failed { place: None, at_root: true, message: "loop found".to_owned(), cause },
            OPTIONS,
        );
        assert_eq!(step, WalkStep::Stop);
        outcome.fatal_error.unwrap()
    };
    let cause = IoFailure { denied: true, message: "Permission denied (os error 13)".to_owned() };
    assert_eq!(failed(Some(cause)), "/r/gone: Permission denied (os error 13)");
    assert_eq!(failed(None), "/r/gone: loop found");
}
