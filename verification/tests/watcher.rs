use macdirstat::path::FilePath;
use macdirstat::watcher::{EventAccumulator, WatchEvent, EVENT_STORM_LIMIT};

fn path(text: &str) -> FilePath {
    FilePath::from_text(text)
}

fn event(paths: Vec<FilePath>) -> WatchEvent {
    WatchEvent { unclear: false, paths }
}

#[test]
fn coalesces_duplicate_paths_and_resolves_relative_paths() {
    let root = path("/tmp/root");
    let mut accumulator = EventAccumulator::default();
    accumulator.push_event(&root, event(vec![path("child"), root.join(&path("child"))]), 0);
    let batch = accumulator.take_if_ready(0, 0).unwrap();
    assert_eq!(batch.paths, [root.join(&path("child"))]);
    assert!(!batch.full_rescan);
}

#[test]
fn ignores_paths_outside_root_and_escalates_watcher_errors() {
    let root = path("/tmp/root");
    let mut accumulator = EventAccumulator::default();
    accumulator.push_event(&root, event(vec![path("/outside")]), 0);
    accumulator.push_error("overflow".to_owned(), 0);
    let batch = accumulator.take_if_ready(0, 0).unwrap();
    assert!(batch.paths.is_empty());
    assert!(batch.full_rescan);
    assert!(batch.warning.unwrap().contains("overflow"));
}

#[test]
fn event_storm_collapses_to_one_full_refresh() {
    let root = path("/tmp/root");
    let mut accumulator = EventAccumulator::default();
    for index in 0..=EVENT_STORM_LIMIT {
        accumulator.push_event(
            &root,
            event(vec![root.join(&path(&format!("file-{index}")))]),
            0,
        );
    }
    let batch = accumulator.take_if_ready(0, 0).unwrap();
    assert!(batch.full_rescan);
    assert!(batch.paths.is_empty());
}

#[test]
fn changes_are_collected_for_a_while() {
    let root = path("/tmp/root");
    let mut accumulator = EventAccumulator::default();
    assert!(accumulator.take_if_ready(750, 0).is_none());
    accumulator.push_event(&root, event(vec![path("b")]), 100);
    accumulator.push_event(&root, event(vec![path("a")]), 700);
    assert!(accumulator.take_if_ready(750, 849).is_none());
    let batch = accumulator.take_if_ready(750, 850).unwrap();
    assert_eq!(batch.paths, [path("/tmp/root/a"), path("/tmp/root/b")]);
    assert!(accumulator.take_if_ready(750, 10_000).is_none());
}

#[test]
fn an_unclear_event_asks_for_a_full_rescan() {
    let root = path("/tmp/root");
    let mut accumulator = EventAccumulator::default();
    accumulator.push_event(&root, WatchEvent { unclear: true, paths: vec![path("a")] }, 0);
    let batch = accumulator.take_if_ready(0, 0).unwrap();
    assert!(batch.full_rescan);
    assert_eq!(batch.paths, [path("/tmp/root/a")]);
}

#[test]
fn many_events_on_one_path_are_a_storm_too() {
    let root = path("/tmp/root");
    let mut accumulator = EventAccumulator::default();
    for _ in 0..EVENT_STORM_LIMIT {
        accumulator.push_event(&root, event(vec![path("file")]), 0);
    }
    assert!(!accumulator.full_rescan);
    assert_eq!(accumulator.paths.len(), 1);
    accumulator.push_event(&root, event(vec![path("file")]), 0);
    assert!(accumulator.full_rescan);
    accumulator.push_event(&root, event(vec![path("other")]), 0);
    let batch = accumulator.take_if_ready(0, 0).unwrap();
    assert!(batch.full_rescan);
    assert!(batch.paths.is_empty());
    assert_eq!(
        batch.warning.as_deref(),
        Some("Filesystem event storm; refreshing the root once")
    );
    assert!(accumulator.take_if_ready(0, 0).is_none());

    accumulator.push_event(&root, event(vec![path("file")]), 1);
    let batch = accumulator.take_if_ready(0, 1).unwrap();
    assert!(!batch.full_rescan);
    assert_eq!(batch.paths, [path("/tmp/root/file")]);
}
