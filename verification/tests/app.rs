use macdirstat::analytics::{
    AnalysisEvent, AnalysisIndex, DirectoryRecord, FileCategory, FileRecord,
};
use macdirstat::app::keys::{KeyCode, KeyEvent, MouseEvent, MouseKind};
use macdirstat::app::watch::PathFacts;
use macdirstat::app::{
    AnalysisStatus, App, AppMode, Area, Clock, Effect, PromptKind, StoppedWorkers, ViewKind,
};
use macdirstat::config::Settings;
use macdirstat::delete::{DeleteFailure, DeleteItem, DeleteResult, DeleteValidationError};
use macdirstat::filter::FilterExpression;
use macdirstat::path::FilePath;
use macdirstat::rows::{build_rows, MAX_ANALYSIS_ROWS};
use macdirstat::scanner::{DiscoveredEntry, LoadOutcome, ScanOutcome, ScanWarnings};
use macdirstat::tree::{
    FileIdentity, NodeId, NodeKind, ScanState, SizeMode, SortDirection, SortKey, SortSpec, Tree,
    UsageStats,
};
use macdirstat::watcher::WatchBatch;
use macdirstat::worker::{ScanJob, WorkerEvent};

fn path(text: &str) -> FilePath {
    FilePath::from_text(text)
}

fn root() -> FilePath {
    path("/tmp")
}

fn new_app() -> App {
    App::new(root(), 1, 1, Clock { seconds: 1_000, millis: 10_000 })
}

fn bare_app() -> App {
    let mut app = new_app();
    app.tree = Tree::new(root());
    app
}

fn entry(name: &str, size: u64) -> DiscoveredEntry {
    entry_with_kind(name, NodeKind::File, Some(size))
}

fn entry_with_kind(name: &str, kind: NodeKind, size: Option<u64>) -> DiscoveredEntry {
    DiscoveredEntry {
        path: path("/tmp").join(&path(name)),
        name: path(name),
        kind,
        usage: size.map(|size| UsageStats {
            logical: size,
            physical: size * 2,
            files: u64::from(kind == NodeKind::File),
        }),
        error: None,
        identity: Some(FileIdentity {
            device: 1,
            inode: size.unwrap_or_default(),
            modified_seconds: 1,
            modified_nanoseconds: 0,
        }),
        modified: None,
        mountpoint: false,
    }
}

fn analysis_file(root: &FilePath, name: &str, size: u64) -> FileRecord {
    FileRecord {
        path: root.join(&path(name)),
        usage: UsageStats { logical: size, physical: size / 2, files: 1 },
        identity: FileIdentity {
            device: 1,
            inode: size,
            modified_seconds: 1,
            modified_nanoseconds: 0,
        },
        modified_seconds: 1,
        modified_nanoseconds: 0,
        extension: Some("bin".to_owned()),
        category: FileCategory::Other,
    }
}

fn key(code: KeyCode) -> KeyEvent {
    KeyEvent { code, control: false, alt: false }
}

fn add(app: &mut App, parent: NodeId, entry: DiscoveredEntry) -> NodeId {
    app.tree.add_child(parent, entry).unwrap()
}

fn loaded(entries: Vec<DiscoveredEntry>) -> LoadOutcome {
    LoadOutcome { entries, warnings: ScanWarnings::default(), cancelled: false }
}

fn measured(size: u64) -> ScanOutcome {
    ScanOutcome {
        usage: UsageStats { logical: size, physical: size, files: 1 },
        warnings: ScanWarnings::default(),
        fatal_error: None,
        cancelled: false,
        mounts_skipped: 0,
    }
}

#[test]
fn selection_survives_reordering_and_size_mode_changes() {
    let mut app = bare_app();
    let root_id = app.tree.root_id;
    let small = add(&mut app, root_id, entry("small", 1));
    add(&mut app, root_id, entry("large", 10));
    app.rebuild_visible();
    app.selected = Some(small);

    app.size_mode = SizeMode::Physical;
    app.tree.sort_all_loaded(app.sort, app.size_mode);
    app.rebuild_visible();

    assert_eq!(app.selected, Some(small));
    assert_eq!(app.selected_index(), Some(1));
}

#[test]
fn stale_generation_result_is_ignored() {
    let mut app = new_app();
    let pending = app.pending_jobs;
    let root_id = app.tree.root_id;

    app.handle_worker_event(WorkerEvent::ChildrenLoadFailed {
        generation: app.generation + 1,
        node_id: root_id,
        message: "stale".to_owned(),
    });

    assert_eq!(app.pending_jobs, pending);
    assert_ne!(app.notice.as_deref(), Some("stale"));
}

#[test]
fn vim_navigation_and_scrolling_work() {
    let mut app = bare_app();
    let root_id = app.tree.root_id;
    for index in 0..10 {
        add(&mut app, root_id, entry(&format!("file-{index}"), index));
    }
    app.rebuild_visible();
    app.set_page_size(3);
    app.handle_browse_key(key(KeyCode::Char('G')));
    assert_eq!(app.selected_index(), Some(9));
    assert_eq!(app.scroll_offset, 7);
    app.handle_browse_key(key(KeyCode::Char('k')));
    assert_eq!(app.selected_index(), Some(8));
    app.handle_browse_key(key(KeyCode::Char('g')));
    assert_eq!(app.selected_index(), Some(0));
}

#[test]
fn filter_keeps_ancestor_context_and_search_selects_match() {
    let mut app = bare_app();
    let root_id = app.tree.root_id;
    let parent = add(&mut app, root_id, entry_with_kind("parent", NodeKind::Directory, Some(10)));
    let needle = add(&mut app, parent, entry("needle", 2));
    app.filter_query = Some("needle".to_owned());
    app.rebuild_visible();
    assert_eq!(app.visible.len(), 2);

    app.search_query = Some("needle".to_owned());
    app.find_search_match(true, false);
    assert_eq!(app.selected, Some(needle));
}

#[test]
fn cancelling_scan_advances_generation_and_resets_pending_nodes() {
    let mut app = new_app();
    let generation = app.generation;
    app.cancel_scan();
    assert_eq!(app.generation, generation + 1);
    assert_eq!(app.pending_jobs, 0);
    assert!(!app.tree.get(app.tree.root_id).unwrap().children_loading);
    app.cancel_scan();
    assert_eq!(app.notice.as_deref(), Some("No active scan"));
}

#[test]
fn parent_navigation_replaces_root_and_remembers_previous_root() {
    let child = path("/work/child");
    let mut app = App::new(child.clone(), 1, 1, Clock { seconds: 1, millis: 1 });
    app.take_effects();

    app.navigate_parent();
    let effects = app.take_effects();
    assert!(matches!(&effects[0], Effect::OpenParent { parent } if *parent == path("/work")));
    app.open_parent(Ok(path("/work")));
    let mut effects = app.take_effects();
    let Some(Effect::OpenRoot { root, select, notice, warning }) = effects.pop() else {
        panic!("no root to open");
    };
    app.open_root(root, select, notice, warning, Ok(1), Ok(()));

    assert_eq!(app.root, path("/work"));
    assert_eq!(app.pending_select_path, Some(child));
    assert_eq!(app.notice.as_deref(), Some("Opened parent directory"));
}

#[test]
fn mouse_click_selects_and_marker_column_marks() {
    let mut app = bare_app();
    let root_id = app.tree.root_id;
    let node = add(&mut app, root_id, entry("file", 1));
    app.rebuild_visible();
    app.set_list_area(Area { x: 5, y: 4, width: 80, height: 10 });
    app.handle_mouse(MouseEvent { kind: MouseKind::LeftDown, column: 6, row: 4 });
    assert_eq!(app.selected, Some(node));
    assert!(app.is_marked(node));
}

#[test]
fn a_double_click_opens_a_directory() {
    let mut app = bare_app();
    let root_id = app.tree.root_id;
    let node = add(&mut app, root_id, entry_with_kind("dir", NodeKind::Directory, Some(1)));
    app.rebuild_visible();
    app.set_list_area(Area { x: 0, y: 0, width: 80, height: 10 });
    let click = MouseEvent { kind: MouseKind::LeftDown, column: 20, row: 0 };
    app.handle_mouse(click);
    assert!(!app.tree.get(node).unwrap().expanded);
    app.set_clock(Clock { seconds: 1_000, millis: 10_401 });
    app.handle_mouse(click);
    assert!(!app.tree.get(node).unwrap().expanded);
    app.set_clock(Clock { seconds: 1_000, millis: 10_801 });
    app.handle_mouse(click);
    assert!(app.tree.get(node).unwrap().expanded);
    assert!(app.last_click.is_none());
    app.handle_mouse(MouseEvent { kind: MouseKind::LeftDown, column: 20, row: 30 });
    assert!(app.last_click.is_none());
}

#[test]
fn space_marks_multiple_items_and_x_opens_batch_confirmation() {
    let mut app = bare_app();
    let root_id = app.tree.root_id;
    let first = add(&mut app, root_id, entry("first", 1));
    let second = add(&mut app, root_id, entry("second", 2));
    app.rebuild_visible();

    app.selected = Some(first);
    app.toggle_mark_selected();
    app.selected = Some(second);
    app.toggle_mark_selected();
    app.confirm_marked_delete();

    assert!(app.is_marked(first));
    assert!(app.is_marked(second));
    assert!(matches!(
        &app.mode,
        AppMode::ConfirmDelete { items, multi: true } if items.len() == 2
    ));
}

#[test]
fn marking_parent_removes_redundant_child_mark() {
    let mut app = bare_app();
    let root_id = app.tree.root_id;
    let parent = add(&mut app, root_id, entry_with_kind("parent", NodeKind::Directory, Some(10)));
    let child = add(&mut app, parent, entry("child", 5));
    app.tree.expand_ancestors(child);
    app.rebuild_visible();

    app.selected = Some(child);
    app.toggle_mark_selected();
    app.selected = Some(parent);
    app.toggle_mark_selected();

    assert!(app.is_marked(parent));
    assert!(!app.is_marked(child));
    assert_eq!(app.marked.len(), 1);

    app.selected = Some(child);
    app.toggle_mark_selected();
    assert_eq!(app.notice.as_deref(), Some("Item is already included by a marked parent"));
    assert_eq!(app.marked.len(), 1);
}

#[test]
fn delete_removes_only_subtree_and_rescans_ancestors() {
    let mut app = bare_app();
    let root_id = app.tree.root_id;
    let grandparent =
        add(&mut app, root_id, entry_with_kind("grandparent", NodeKind::Directory, Some(20)));
    let parent =
        add(&mut app, grandparent, entry_with_kind("parent", NodeKind::Directory, Some(10)));
    let child = add(&mut app, parent, entry("child", 5));
    let sibling = add(&mut app, root_id, entry("sibling", 2));
    app.tree.expand_ancestors(child);
    app.rebuild_visible();
    app.selected = Some(child);
    app.marked.push(app.tree.get(child).unwrap().path.clone());

    app.apply_deleted_nodes(
        &vec![DeleteItem { node_id: Some(child), path: path("/tmp/child") }],
        "deleted",
    )
    .unwrap();

    assert_eq!(app.tree.root_id, root_id);
    assert!(app.tree.contains_key(grandparent));
    assert!(app.tree.contains_key(parent));
    assert!(app.tree.contains_key(sibling));
    assert!(!app.tree.contains_key(child));
    assert_eq!(app.tree.get(grandparent).unwrap().scan_state, ScanState::Queued);
    assert_eq!(app.tree.get(parent).unwrap().scan_state, ScanState::Queued);
    assert_eq!(app.selected, Some(sibling));
    assert!(app.marked.is_empty());
}

#[test]
fn stale_size_revision_cannot_overwrite_rescan() {
    let mut app = new_app();
    let root_id = app.tree.root_id;
    app.handle_worker_event(WorkerEvent::ChildrenLoaded {
        generation: app.generation,
        node_id: root_id,
        outcome: loaded(vec![entry_with_kind("directory", NodeKind::Directory, None)]),
    });
    let directory = app.tree.get(root_id).unwrap().children[0];
    app.handle_watch_batch(
        WatchBatch { paths: vec![path("/tmp/directory")], full_rescan: false, warning: None },
        &vec![PathFacts { missing: false, is_directory: true }],
    );
    let generation = app.generation;
    assert_eq!(app.tree.get(directory).unwrap().scan_revision, 2);
    assert_eq!(app.tree.get(directory).unwrap().scan_state, ScanState::Queued);

    for scan_revision in [1, 3] {
        app.handle_worker_event(WorkerEvent::SizeCalculated {
            generation,
            node_id: directory,
            scan_revision,
            outcome: ScanOutcome {
                usage: UsageStats { logical: 999, physical: 1024, files: 1 },
                ..measured(999)
            },
        });
        assert_eq!(app.tree.get(directory).unwrap().usage, None);
        assert_eq!(app.tree.get(directory).unwrap().scan_state, ScanState::Queued);
    }

    app.handle_worker_event(WorkerEvent::SizeCalculated {
        generation,
        node_id: directory,
        scan_revision: 2,
        outcome: measured(7),
    });
    assert_eq!(app.tree.get(directory).unwrap().usage.unwrap().logical, 7);
    assert_eq!(app.tree.get(directory).unwrap().scan_state, ScanState::Complete);
}

#[test]
fn percentage_uses_current_size_mode_and_parent() {
    let mut app = bare_app();
    let root_id = app.tree.root_id;
    let first = add(&mut app, root_id, entry("first", 25));
    add(&mut app, root_id, entry("second", 75));
    app.rebuild_visible();

    assert_eq!(app.share(first), Some((25, 100)));
    app.size_mode = SizeMode::Physical;
    assert_eq!(app.share(first), Some((50, 200)));
    assert_eq!(app.share(root_id), None);
}

#[test]
fn phase_three_tabs_filter_and_path_marking_work_together() {
    let mut app = new_app();
    let mut index = AnalysisIndex::new(root(), true, 1);
    index.files = vec![
        analysis_file(&root(), "small.bin", 10),
        analysis_file(&root(), "large.bin", 10 * 1024 * 1024),
    ];
    index.complete = true;
    index.completed_at = Some(2);
    app.analysis_index = Some(index);
    app.analysis_status = AnalysisStatus::Ready;

    app.handle_browse_key(key(KeyCode::Tab));
    assert_eq!(app.active_view, ViewKind::Largest);
    assert_eq!(app.analysis_rows.len(), 2);
    assert!(app.analysis_rows[0].label.contains("large"));

    app.filter_query = Some("size>1MiB".to_owned());
    app.filter_expression = FilterExpression::parse("size>1MiB").unwrap();
    app.rebuild_analysis_rows();
    assert_eq!(app.analysis_rows.len(), 1);

    app.toggle_mark_current();
    let marked = app.analysis_rows[0].path.clone().unwrap();
    assert!(app.is_path_marked(&marked));
    app.confirm_current_delete();
    assert!(matches!(
        &app.mode,
        AppMode::ConfirmDelete { items, multi: false }
            if items.len() == 1 && items[0].node_id.is_none() && items[0].path == marked
    ));
}

#[test]
fn number_keys_select_all_phase_three_views() {
    let mut app = new_app();
    let mut index = AnalysisIndex::new(root(), true, 1);
    index.complete = true;
    app.analysis_index = Some(index);
    app.analysis_status = AnalysisStatus::Ready;

    for (character, expected) in [
        ('1', ViewKind::Tree),
        ('2', ViewKind::Largest),
        ('3', ViewKind::Types),
        ('4', ViewKind::Duplicates),
        ('5', ViewKind::Changes),
    ] {
        app.handle_browse_key(key(KeyCode::Char(character)));
        assert_eq!(app.active_view, expected);
    }
}

#[test]
fn watcher_refreshes_only_the_affected_loaded_subtree() {
    let mut app = new_app();
    let root_id = app.tree.root_id;
    let generation = app.generation;
    app.handle_worker_event(WorkerEvent::ChildrenLoaded {
        generation,
        node_id: root_id,
        outcome: loaded(vec![
            entry_with_kind("dirty", NodeKind::Directory, None),
            entry("sibling", 4),
        ]),
    });
    let dirty = app
        .tree
        .all_loaded()
        .into_iter()
        .find(|id| app.tree.get(*id).unwrap().kind == NodeKind::Directory)
        .unwrap();
    app.selected = Some(dirty);
    app.expand_selected();
    let mut old = entry("old", 1);
    old.path = path("/tmp/dirty/old");
    app.handle_worker_event(WorkerEvent::ChildrenLoaded {
        generation,
        node_id: dirty,
        outcome: loaded(vec![old]),
    });
    let old_child = app.tree.get(dirty).unwrap().children[0];
    let sibling = app
        .tree
        .all_loaded()
        .into_iter()
        .find(|id| app.tree.get(*id).unwrap().path == path("/tmp/sibling"))
        .unwrap();

    app.handle_watch_batch(
        WatchBatch { paths: vec![path("/tmp/dirty/changed")], full_rescan: false, warning: None },
        &vec![PathFacts { missing: false, is_directory: false }],
    );

    assert!(app.tree.contains_key(dirty));
    assert!(app.tree.contains_key(sibling));
    assert!(!app.tree.contains_key(old_child));
    assert_eq!(app.tree.get(dirty).unwrap().scan_state, ScanState::Queued);
    assert_eq!(app.notice.as_deref(), Some("Applied 1 filesystem change(s)"));
    assert_eq!(app.generation, generation + 1);
}

#[test]
fn watcher_analysis_refresh_merges_only_the_changed_slice() {
    let dirty = path("/tmp/dirty");
    let mut app = new_app();
    let mut index = AnalysisIndex::new(root(), true, 1);
    index.complete = true;
    index.files =
        vec![analysis_file(&dirty, "old.bin", 10), analysis_file(&root(), "sibling.bin", 4)];
    let identity = index.files[0].identity;
    let directory = |path: FilePath, logical: u64, files: u64| DirectoryRecord {
        path,
        usage: UsageStats { logical, physical: logical / 2, files },
        identity,
        modified_seconds: 1,
        modified_nanoseconds: 0,
    };
    index.directories = vec![directory(root(), 14, 2), directory(dirty.clone(), 10, 1)];
    app.analysis_index = Some(index);
    app.analysis_status = AnalysisStatus::Ready;

    app.refresh_analysis_subtrees(vec![dirty.clone()]);
    assert!(app
        .analysis_index
        .as_ref()
        .unwrap()
        .files
        .iter()
        .any(|file| file.path == path("/tmp/sibling.bin")));
    assert!(app.analysis_refresh_pending.contains(&dirty));

    let generation = app.generation;
    app.handle_analysis_event(AnalysisEvent::FileBatch {
        generation,
        files: vec![analysis_file(&dirty, "new.bin", 20)],
    });
    app.handle_analysis_event(AnalysisEvent::Finished {
        generation,
        scan_root: dirty.clone(),
        completed_at: 2,
        directories: vec![directory(dirty, 20, 1)],
        issues: Vec::new(),
        mounts_skipped: 0,
    });

    let index = app.analysis_index.as_ref().unwrap();
    assert!(index.complete);
    assert_eq!(index.files.len(), 2);
    assert_eq!(index.root_usage().logical, 24);
}

#[test]
fn largest_view_does_not_rebuild_and_sort_for_every_file_batch() {
    let mut app = new_app();
    app.active_view = ViewKind::Largest;
    app.analysis_status = AnalysisStatus::Indexing;
    app.analysis_index = Some(AnalysisIndex::new(root(), true, 1));

    for batch in 0..32 {
        let files = (0..256)
            .map(|index| analysis_file(&root(), &format!("file-{batch:02}-{index:03}.bin"), 1))
            .collect();
        app.handle_analysis_event(AnalysisEvent::FileBatch { generation: app.generation, files });
    }

    assert_eq!(app.analysis_index.as_ref().unwrap().files.len(), 8_192);
    assert_eq!(app.analysis_known_usage().logical, 8_192);
    assert!(app.analysis_rows.is_empty());
}

#[test]
fn largest_view_caps_materialized_rows_for_very_large_indexes() {
    let mut app = new_app();
    app.active_view = ViewKind::Largest;
    app.analysis_status = AnalysisStatus::Ready;
    let mut index = AnalysisIndex::new(root(), true, 1);
    index.complete = true;
    index.files = (0..=MAX_ANALYSIS_ROWS)
        .map(|number| analysis_file(&root(), &format!("file-{number}.bin"), number as u64))
        .collect();
    app.analysis_index = Some(index);

    app.rebuild_analysis_rows();

    assert_eq!(app.analysis_rows.len(), MAX_ANALYSIS_ROWS);
    assert!(app.analysis_rows_truncated);
    assert_eq!(app.analysis_rows[0].usage.logical, MAX_ANALYSIS_ROWS as u64);
}

#[test]
fn a_new_browser_asks_for_the_entries_of_its_root() {
    let mut app = new_app();
    assert_eq!(app.pending_jobs, 1);
    let effects = app.take_effects();
    assert_eq!(effects.len(), 1);
    assert!(matches!(
        &effects[0],
        Effect::Scan(ScanJob::LoadChildren { generation: 1, path, .. }) if *path == root()
    ));
    assert!(app.take_effects().is_empty());
}

#[test]
fn loaded_entries_are_shown_sorted_and_measured() {
    let mut app = new_app();
    app.take_effects();
    let root_id = app.tree.root_id;
    app.handle_worker_event(WorkerEvent::ChildrenLoaded {
        generation: app.generation,
        node_id: root_id,
        outcome: loaded(vec![
            entry("small", 1),
            entry("large", 9),
            entry_with_kind("dir", NodeKind::Directory, None),
        ]),
    });
    assert_eq!(app.visible.len(), 3);
    assert_eq!(app.pending_jobs, 1);
    let effects = app.take_effects();
    assert!(matches!(&effects[0], Effect::Scan(ScanJob::CalculateSize { .. })));
    let names: Vec<String> = app
        .visible
        .iter()
        .map(|row| app.tree.get(row.node_id).unwrap().name.display())
        .collect();
    assert_eq!(names, ["dir", "large", "small"]);
}

#[test]
fn prompts_edit_search_and_filter() {
    let mut app = bare_app();
    let root_id = app.tree.root_id;
    add(&mut app, root_id, entry("alpha", 1));
    let beta = add(&mut app, root_id, entry("beta", 2));
    app.rebuild_visible();
    app.handle_key(key(KeyCode::Char('f')));
    for character in "bex".chars() {
        app.handle_key(key(KeyCode::Char(character)));
    }
    assert!(app.visible.is_empty());
    app.handle_key(key(KeyCode::Backspace));
    assert_eq!(app.visible.len(), 1);
    assert_eq!(app.visible[0].node_id, beta);
    app.handle_key(key(KeyCode::Esc));
    assert!(matches!(app.mode, AppMode::Browse));
    assert_eq!(app.visible.len(), 2);
    assert!(app.filter_query.is_none());

    app.handle_key(key(KeyCode::Char('/')));
    for character in "BET".chars() {
        app.handle_key(key(KeyCode::Char(character)));
    }
    app.handle_key(KeyEvent { code: KeyCode::Char('x'), control: true, alt: false });
    app.handle_key(key(KeyCode::Enter));
    assert_eq!(app.selected, Some(beta));
    assert_eq!(app.notice.as_deref(), Some("Search match 1/1"));

    app.handle_key(key(KeyCode::Char('f')));
    for character in "size".chars() {
        app.handle_key(key(KeyCode::Char(character)));
    }
    app.handle_key(key(KeyCode::Enter));
    assert!(matches!(
        &app.mode,
        AppMode::Input { kind: PromptKind::Filter, value, .. } if value == "size"
    ));
    assert!(app.notice.as_deref().unwrap().starts_with("Invalid filter: "));
    app.handle_key(key(KeyCode::Esc));
    app.handle_key(key(KeyCode::Char('F')));
    assert_eq!(app.notice.as_deref(), Some("Filter cleared"));
}

#[test]
fn searches_go_round() {
    let mut app = bare_app();
    let root_id = app.tree.root_id;
    let nodes: Vec<NodeId> =
        (0..3).map(|number| add(&mut app, root_id, entry(&format!("f{number}"), number))).collect();
    app.rebuild_visible();
    app.search_query = Some("f".to_owned());
    app.find_search_match(true, false);
    assert_eq!(app.selected, Some(nodes[0]));
    app.find_search_match(false, true);
    assert_eq!(app.selected, Some(nodes[2]));
    app.find_search_match(true, true);
    assert_eq!(app.selected, Some(nodes[0]));
    app.find_search_match(true, true);
    assert_eq!(app.selected, Some(nodes[1]));
    app.search_query = Some("none".to_owned());
    app.find_search_match(true, true);
    assert_eq!(app.notice.as_deref(), Some("No loaded item matches \"none\""));
    app.search_query = None;
    app.find_search_match(true, true);
    assert_eq!(app.notice.as_deref(), Some("No search query; press / to enter one"));
}

#[test]
fn deletions_are_confirmed_validated_and_reported() {
    let mut app = bare_app();
    let root_id = app.tree.root_id;
    let file = add(&mut app, root_id, entry("file", 2_048));
    app.rebuild_visible();
    app.selected = Some(file);
    app.take_effects();
    app.handle_key(key(KeyCode::Char('d')));
    app.handle_key(key(KeyCode::Char('n')));
    assert_eq!(app.notice.as_deref(), Some("Delete cancelled"));
    app.handle_key(key(KeyCode::Char('d')));
    app.handle_key(key(KeyCode::Char('y')));
    assert!(matches!(app.take_effects()[0], Effect::ValidateDelete));
    let items = vec![DeleteItem { node_id: Some(file), path: path("/tmp/file") }];

    app.start_delete(items.clone(), false, &vec![Err(DeleteValidationError::OutsideRoot)]);
    assert!(matches!(&app.mode, AppMode::ErrorDialog(_)));
    app.handle_key(key(KeyCode::Enter));
    assert!(matches!(&app.mode, AppMode::Browse));
    assert!(app.take_effects().is_empty());

    app.start_delete(items, false, &vec![Ok(path("/tmp/file"))]);
    let mut effects = app.take_effects();
    let Some(Effect::Delete(request)) = effects.pop() else {
        panic!("nothing to delete");
    };
    app.handle_delete_result(DeleteResult {
        generation: request.generation,
        moved: request.items,
        failures: Vec::new(),
    });
    assert_eq!(app.notice.as_deref(), Some("Moved \"file\" to Trash — 2.0 KiB freed"));
    assert!(!app.tree.contains_key(file));
    assert!(!app.should_quit);
}

#[test]
fn quitting_waits_for_the_trash() {
    let mut app = bare_app();
    let root_id = app.tree.root_id;
    let file = add(&mut app, root_id, entry("file", 2_048));
    let items = vec![DeleteItem { node_id: Some(file), path: path("/tmp/file") }];
    app.start_delete(items.clone(), false, &vec![Ok(path("/tmp/file"))]);
    app.handle_key(key(KeyCode::Char('q')));
    assert!(app.quit_after_delete);
    assert!(!app.should_quit);
    app.handle_delete_result(DeleteResult {
        generation: app.generation,
        moved: items,
        failures: Vec::new(),
    });
    assert!(app.should_quit);
}

#[test]
fn failed_deletions_keep_their_entries() {
    let mut app = bare_app();
    let root_id = app.tree.root_id;
    let file = add(&mut app, root_id, entry("file", 1));
    app.rebuild_visible();
    let items = vec![DeleteItem { node_id: Some(file), path: path("/tmp/file") }];
    app.start_delete(items, false, &vec![Ok(path("/tmp/file"))]);
    app.handle_delete_result(DeleteResult {
        generation: app.generation,
        moved: Vec::new(),
        failures: vec![DeleteFailure {
            path: path("/tmp/file"),
            message: "the Trash is full".to_owned(),
        }],
    });
    assert!(app.tree.contains_key(file));
    assert!(app.notice.as_deref().unwrap().contains("the Trash is full"));
}

#[test]
fn keys_switch_what_is_shown() {
    let mut app = bare_app();
    app.handle_key(key(KeyCode::Char('z')));
    assert_eq!(app.size_mode, SizeMode::Physical);
    assert_eq!(app.notice.as_deref(), Some("Showing physical sizes"));
    app.handle_key(key(KeyCode::Char('t')));
    assert_eq!(app.notice.as_deref(), Some("Theme: monochrome"));
    app.handle_key(key(KeyCode::Char('s')));
    assert!(app.notice.as_deref().unwrap().starts_with("Sorted by name"));
    app.handle_key(key(KeyCode::Char('?')));
    app.handle_key(key(KeyCode::PageDown));
    assert_eq!(app.help_scroll, app.page_size);
    app.handle_key(key(KeyCode::Up));
    app.handle_key(key(KeyCode::Char('q')));
    assert!(matches!(app.mode, AppMode::Browse));
    assert!(!app.should_quit);
    app.handle_key(key(KeyCode::Char('c')));
    assert!(!app.should_quit);
    app.handle_key(KeyEvent { code: KeyCode::Char('c'), control: true, alt: false });
    assert!(app.should_quit);
}

#[test]
fn the_watcher_is_switched_on_and_off() {
    let mut app = bare_app();
    app.take_effects();
    app.handle_key(key(KeyCode::Char('w')));
    assert!(matches!(app.take_effects()[0], Effect::StartWatcher { .. }));
    assert!(!app.watch_enabled);
    app.watcher_started(Ok(()));
    assert!(app.watch_enabled);
    app.handle_key(key(KeyCode::Char('w')));
    assert!(!app.watch_enabled);
    assert_eq!(app.notice.as_deref(), Some("Filesystem watcher disabled"));
}

#[test]
fn a_full_rescan_opens_the_root_again() {
    let mut app = new_app();
    app.take_effects();
    app.handle_watch_batch(
        WatchBatch {
            paths: Vec::new(),
            full_rescan: true,
            warning: Some("Watcher warning: overflow".to_owned()),
        },
        &Vec::new(),
    );
    let mut effects = app.take_effects();
    let Some(Effect::OpenRoot { root: again, select, notice, warning }) = effects.pop() else {
        panic!("no root to open");
    };
    assert_eq!(again, root());
    app.open_root(again, select, notice, warning, Ok(1), Ok(()));
    assert_eq!(app.notice.as_deref(), Some("Watcher warning: overflow"));
    assert_eq!(app.generation, 2);
}

#[test]
fn a_root_that_cannot_be_opened_is_an_error() {
    let mut app = new_app();
    app.open_root(path("/gone"), None, None, None, Err("No such directory".to_owned()), Ok(()));
    assert!(matches!(&app.mode, AppMode::ErrorDialog(message) if message == "No such directory"));
    assert_eq!(app.root, root());
}

#[test]
fn the_cache_is_written_now_and_then() {
    let mut app = new_app();
    app.cache.enabled = true;
    app.cache.dirty = true;
    assert!(app.maybe_flush_cache().is_none());
    app.set_clock(Clock { seconds: 1_002, millis: 12_000 });
    assert!(app.maybe_flush_cache().is_some());
    assert!(app.maybe_flush_cache().is_none());
    app.cache_stored(Ok(()));
    app.set_clock(Clock { seconds: 1_004, millis: 14_000 });
    assert!(app.maybe_flush_cache().is_none());
    assert!(app.flush_cache().is_none());
    app.cache_stored(Err("disk full".to_owned()));
    assert_eq!(app.notice.as_deref(), Some("disk full"));
}

#[test]
fn an_export_needs_a_complete_analysis() {
    let mut app = new_app();
    app.take_effects();
    app.export_analysis(path("/out.json"));
    assert_eq!(
        app.notice.as_deref(),
        Some("Building full analysis index…")
    );
    assert!(app.take_effects().iter().any(|effect| matches!(effect, Effect::StartIndex { .. })));
    let mut index = AnalysisIndex::new(root(), true, 1);
    index.complete = true;
    app.analysis_index = Some(index);
    app.export_analysis(path("/out.json"));
    assert!(matches!(app.take_effects()[0], Effect::Export { .. }));
    app.export_finished(&path("/out.json"), Ok(()));
    assert_eq!(app.notice.as_deref(), Some("Exported /out.json"));
}

#[test]
fn analysis_rows_can_be_revealed_in_the_tree() {
    let mut app = bare_app();
    let root_id = app.tree.root_id;
    let file = add(&mut app, root_id, entry("file.bin", 9));
    let mut index = AnalysisIndex::new(root(), true, 1);
    index.files = vec![analysis_file(&root(), "file.bin", 9)];
    index.complete = true;
    app.analysis_index = Some(index);
    app.analysis_status = AnalysisStatus::Ready;
    app.set_view(ViewKind::Largest);
    assert_eq!(app.analysis_rows.len(), 1);
    app.handle_key(key(KeyCode::Enter));
    assert_eq!(app.active_view, ViewKind::Tree);
    assert_eq!(app.selected, Some(file));
}

#[test]
fn only_a_yes_asks_for_a_deletion() {
    let codes = [
        KeyCode::Enter,
        KeyCode::Tab,
        KeyCode::Backspace,
        KeyCode::Up,
        KeyCode::Other,
        KeyCode::Char(' '),
        KeyCode::Char('d'),
        KeyCode::Char('x'),
        KeyCode::Char('q'),
        KeyCode::Char('j'),
        KeyCode::Char('Y'),
        KeyCode::Char('N'),
        KeyCode::Char('y'),
    ];
    for code in codes {
        let mut app = bare_app();
        let root_id = app.tree.root_id;
        let file = add(&mut app, root_id, entry("file", 1));
        app.rebuild_visible();
        app.selected = Some(file);
        app.handle_key(key(KeyCode::Char('d')));
        app.take_effects();
        app.handle_key(key(code));
        let asked = app.take_effects().iter().any(|effect| matches!(effect, Effect::ValidateDelete));
        assert_eq!(asked, code == KeyCode::Char('y'));
        assert!(matches!(&app.mode, AppMode::ConfirmDelete { .. }));
    }
}

#[test]
fn a_no_keeps_what_was_to_be_deleted() {
    for code in [KeyCode::Esc, KeyCode::Char('n')] {
        let mut app = bare_app();
        let root_id = app.tree.root_id;
        let file = add(&mut app, root_id, entry("file", 1));
        app.rebuild_visible();
        app.selected = Some(file);
        app.handle_key(key(KeyCode::Char('d')));
        app.take_effects();
        app.handle_key(key(code));
        assert!(matches!(&app.mode, AppMode::Browse));
        assert_eq!(app.notice.as_deref(), Some("Delete cancelled"));
        assert!(app.take_effects().is_empty());
        assert!(app.tree.contains_key(file));
    }
}

#[test]
fn cancelled_work_is_ignored() {
    let mut app = new_app();
    let root_id = app.tree.root_id;
    let before = app.generation;
    app.handle_key(key(KeyCode::Esc));
    assert_eq!(app.generation, before + 1);
    app.handle_worker_event(WorkerEvent::ChildrenLoaded {
        generation: before,
        node_id: root_id,
        outcome: loaded(vec![entry("late", 1)]),
    });
    assert!(app.visible.is_empty());
    app.handle_analysis_event(AnalysisEvent::FileBatch {
        generation: before,
        files: vec![analysis_file(&root(), "late", 1)],
    });
    assert!(app.analysis_index.is_none());
}

#[test]
fn a_refresh_takes_nothing_from_the_cache() {
    let mut app = new_app();
    app.cache.enabled = true;
    let stamp =
        FileIdentity { device: 1, inode: 7, modified_seconds: 1, modified_nanoseconds: 0 };
    let usage = UsageStats { logical: 1, physical: 1, files: 1 };
    app.cache.insert_at(&path("/tmp/a"), stamp, usage, true, 1_000);
    app.cache.insert_at(&path("/elsewhere"), stamp, usage, true, 1_000);
    assert_eq!(app.cache.lookup_at(&path("/tmp/a"), stamp, true, 1_000), Some(usage));
    app.handle_key(key(KeyCode::Char('r')));
    assert_eq!(app.cache.lookup_at(&path("/tmp/a"), stamp, true, 1_000), None);
    assert_eq!(app.cache.lookup_at(&path("/elsewhere"), stamp, true, 1_000), Some(usage));
    assert!(app
        .take_effects()
        .iter()
        .any(|effect| matches!(effect, Effect::OpenRoot { select: None, .. })));
}

#[test]
fn mount_points_stay_closed() {
    let mut app = bare_app();
    let root_id = app.tree.root_id;
    let mut mount = entry_with_kind("volume", NodeKind::Directory, None);
    mount.mountpoint = true;
    let mount = add(&mut app, root_id, mount);
    app.rebuild_visible();
    app.selected = Some(mount);
    app.take_effects();
    app.handle_key(key(KeyCode::Right));
    assert!(app.take_effects().is_empty());
    assert!(!app.tree.get(mount).unwrap().expanded);
    assert_eq!(
        app.notice.as_deref(),
        Some("Mount point skipped; use --cross-filesystems to scan it")
    );
}

#[test]
fn the_selected_row_stays_in_sight() {
    let mut app = bare_app();
    let root_id = app.tree.root_id;
    for number in 0..20 {
        add(&mut app, root_id, entry(&format!("file-{number}"), number));
    }
    app.rebuild_visible();
    app.set_page_size(5);
    for code in [KeyCode::End, KeyCode::Up, KeyCode::PageUp, KeyCode::Home, KeyCode::PageDown] {
        app.handle_key(key(code));
        let row = app.selected_index().unwrap();
        assert!(app.scroll_offset <= row && row < app.scroll_offset + app.page_size);
    }
}

#[test]
fn every_order_keeps_the_selection() {
    let mut app = bare_app();
    let root_id = app.tree.root_id;
    let directory = add(&mut app, root_id, entry_with_kind("folder", NodeKind::Directory, None));
    let mut inner = entry("inner", 5);
    inner.path = path("/tmp/folder/inner");
    let inner = add(&mut app, directory, inner);
    add(&mut app, root_id, entry("small", 1));
    add(&mut app, root_id, entry("large", 10));
    app.tree.expand_ancestors(inner);
    app.rebuild_visible();
    app.selected = Some(inner);
    for code in ['s', 's', 'S', 's', 's', 'S'] {
        app.handle_key(key(KeyCode::Char(code)));
        assert_eq!(app.selected, Some(inner));
        assert!(app.selected_index().is_some());
    }
}

#[test]
fn searching_opens_the_way_to_a_match() {
    let mut app = bare_app();
    let root_id = app.tree.root_id;
    let outer = add(&mut app, root_id, entry_with_kind("outer", NodeKind::Directory, None));
    let mut inner = entry_with_kind("inner", NodeKind::Directory, None);
    inner.path = path("/tmp/outer/inner");
    let inner = add(&mut app, outer, inner);
    let mut needle = entry("needle", 1);
    needle.path = path("/tmp/outer/inner/needle");
    let needle = add(&mut app, inner, needle);
    app.rebuild_visible();
    assert_eq!(app.visible.len(), 1);
    app.search_query = Some("needle".to_owned());
    app.find_search_match(true, false);
    assert_eq!(app.selected, Some(needle));
    assert_eq!(app.selected_index(), Some(2));
}

#[test]
fn deleting_forgets_the_cache_of_what_was_moved() {
    let mut app = bare_app();
    let root_id = app.tree.root_id;
    app.cache.enabled = true;
    let stamp =
        FileIdentity { device: 1, inode: 7, modified_seconds: 1, modified_nanoseconds: 0 };
    let usage = UsageStats { logical: 1, physical: 1, files: 1 };
    let moved = add(&mut app, root_id, entry_with_kind("moved", NodeKind::Directory, None));
    app.cache.insert_at(&path("/tmp/moved"), stamp, usage, true, 1_000);
    app.cache.insert_at(&path("/tmp/moved/deep"), stamp, usage, true, 1_000);
    app.cache.insert_at(&path("/tmp/kept"), stamp, usage, true, 1_000);
    let items = vec![DeleteItem { node_id: Some(moved), path: path("/tmp/moved") }];
    app.start_delete(items.clone(), false, &vec![Ok(path("/tmp/moved"))]);
    app.handle_delete_result(DeleteResult {
        generation: app.generation,
        moved: items,
        failures: Vec::new(),
    });
    assert_eq!(app.cache.lookup_at(&path("/tmp/moved"), stamp, true, 1_000), None);
    assert_eq!(app.cache.lookup_at(&path("/tmp/moved/deep"), stamp, true, 1_000), None);
    assert_eq!(app.cache.lookup_at(&path("/tmp/kept"), stamp, true, 1_000), Some(usage));
}

#[test]
fn jobs_are_announced_as_long_as_they_are_wanted() {
    let mut app = bare_app();
    let root_id = app.tree.root_id;
    app.take_effects();
    let directory = add(&mut app, root_id, entry_with_kind("folder", NodeKind::Directory, None));
    app.rebuild_visible();
    app.selected = Some(directory);
    app.handle_key(key(KeyCode::Right));
    let jobs: Vec<ScanJob> = app
        .take_effects()
        .into_iter()
        .filter_map(|effect| match effect {
            Effect::Scan(job) => Some(job),
            _ => None,
        })
        .collect();
    assert_eq!(jobs.len(), 2);
    assert!(jobs.iter().all(|job| job.is_wanted(app.generation)));
    assert!(jobs.iter().all(|job| !job.is_wanted(app.generation + 1)));
    assert!(matches!(jobs[0], ScanJob::LoadChildren { .. }));
    assert!(jobs[0].announcement().is_none());
    assert!(matches!(
        jobs[1].announcement(),
        Some(WorkerEvent::SizeStarted { node_id, scan_revision: 1, .. }) if node_id == directory
    ));
}

#[test]
fn files_of_one_size_stay_in_the_order_of_their_paths() {
    let mut index = AnalysisIndex::new(root(), true, 1);
    for (name, size) in [("c", 5), ("a", 5), ("d", 9), ("b", 1)] {
        index.files.push(analysis_file(&root(), name, size));
    }
    let listed = |key: SortKey, direction: SortDirection| -> Vec<String> {
        let sort = SortSpec { key, direction };
        let (rows, truncated) = build_rows(
            ViewKind::Largest, &index, &None, &None, &None, sort, SizeMode::Logical, 1,
        );
        assert!(!truncated);
        rows.into_iter().map(|row| row.label).collect()
    };
    assert_eq!(listed(SortKey::Size, SortDirection::Descending), ["d", "a", "c", "b"]);
    assert_eq!(listed(SortKey::Size, SortDirection::Ascending), ["b", "a", "c", "d"]);
    assert_eq!(listed(SortKey::Name, SortDirection::Descending), ["d", "c", "b", "a"]);
    assert_eq!(listed(SortKey::Files, SortDirection::Descending), ["a", "b", "c", "d"]);
    assert_eq!(listed(SortKey::Files, SortDirection::Ascending), ["a", "b", "c", "d"]);
}

const SCAN_STOPPED: StoppedWorkers = StoppedWorkers { scan: true, analysis: false, trash: false };

fn stopped_message(app: &App) -> &str {
    match &app.mode {
        AppMode::ErrorDialog(message) => message,
        _ => "",
    }
}

#[test]
fn a_browser_needs_scan_workers() {
    let clock = Clock { seconds: 1, millis: 1 };
    let settings = Settings::for_tests(1, &root());
    let result = App::with_settings(root(), settings, 1, None, clock, SCAN_STOPPED);
    assert_eq!(result.err().as_deref(), Some("Scan worker pool stopped unexpectedly"));
    let settings = Settings::for_tests(1, &root());
    let running = StoppedWorkers { scan: false, ..SCAN_STOPPED };
    assert!(App::with_settings(root(), settings, 1, None, clock, running).is_ok());
}

#[test]
fn opening_a_directory_without_workers_shows_an_error() {
    let mut app = bare_app();
    let root_id = app.tree.root_id;
    let directory = add(&mut app, root_id, entry_with_kind("d", NodeKind::Directory, None));
    app.rebuild_visible();
    app.selected = Some(directory);
    let jobs = app.pending_jobs;
    app.take_effects();
    app.set_stopped(SCAN_STOPPED);
    app.expand_selected();
    assert_eq!(stopped_message(&app), "Scan worker pool stopped unexpectedly");
    assert_eq!(app.notice.as_deref(), Some("Scan worker pool stopped unexpectedly"));
    assert!(app.take_effects().is_empty());
    assert_eq!(app.pending_jobs, jobs);
    let node = app.tree.get(directory).unwrap();
    assert!(!node.children_loading);
    assert_eq!(node.scan_state, ScanState::Error);
}

#[test]
fn changes_without_workers_are_still_reported_as_applied() {
    let mut app = bare_app();
    let root_id = app.tree.root_id;
    let directory = add(&mut app, root_id, entry_with_kind("d", NodeKind::Directory, Some(3)));
    app.take_effects();
    app.set_stopped(SCAN_STOPPED);
    app.handle_watch_batch(
        WatchBatch { paths: vec![path("/tmp/d/changed")], full_rescan: false, warning: None },
        &vec![PathFacts { missing: false, is_directory: false }],
    );
    assert!(matches!(app.mode, AppMode::Browse));
    assert_eq!(app.notice.as_deref(), Some("Applied 1 filesystem change(s)"));
    assert_eq!(app.tree.get(directory).unwrap().scan_state, ScanState::Error);
    assert_eq!(app.pending_jobs, 0);
    assert!(!app.take_effects().iter().any(|effect| matches!(effect, Effect::Scan(_))));
}

#[test]
fn a_deletion_stops_at_the_first_rescan_that_is_refused() {
    let mut app = bare_app();
    let root_id = app.tree.root_id;
    let upper = add(&mut app, root_id, entry_with_kind("a", NodeKind::Directory, Some(9)));
    let mut inner = entry_with_kind("b", NodeKind::Directory, Some(5));
    inner.path = path("/tmp/a/b");
    let lower = add(&mut app, upper, inner);
    let mut gone = entry("c", 1);
    gone.path = path("/tmp/a/b/c");
    let child = add(&mut app, lower, gone);
    app.set_stopped(SCAN_STOPPED);
    let moved = vec![DeleteItem { node_id: Some(child), path: path("/tmp/a/b/c") }];
    let result = app.apply_deleted_nodes(&moved, "deleted");
    assert_eq!(result.unwrap_err(), "Scan worker pool stopped unexpectedly");
    assert!(!app.tree.contains_key(child));
    assert_eq!(app.tree.get(upper).unwrap().scan_state, ScanState::Error);
    assert_ne!(app.tree.get(lower).unwrap().scan_state, ScanState::Error);
    assert_eq!(app.tree.get(lower).unwrap().usage.unwrap().logical, 5);
}

#[test]
fn analysis_and_trash_without_workers_show_an_error() {
    let mut app = bare_app();
    app.take_effects();
    app.set_stopped(StoppedWorkers { scan: false, analysis: true, trash: true });
    app.set_view(ViewKind::Largest);
    assert_eq!(stopped_message(&app), "Analysis worker stopped unexpectedly");
    assert_eq!(app.analysis_status, AnalysisStatus::Idle);
    assert!(app.take_effects().is_empty());

    app.mode = AppMode::Browse;
    let items = vec![DeleteItem { node_id: None, path: path("/tmp/a") }];
    app.start_delete(items, false, &vec![Ok(path("/tmp/a"))]);
    assert_eq!(stopped_message(&app), "Trash worker stopped unexpectedly");
    assert!(app.take_effects().is_empty());

    let mut index = AnalysisIndex::new(root(), true, 1);
    index.complete = true;
    app.analysis_index = Some(index);
    app.refresh_analysis_subtrees(vec![path("/tmp/a")]);
    assert!(app.analysis_index.as_ref().unwrap().complete);
    assert_eq!(app.analysis_status, AnalysisStatus::Ready);
    assert!(app.analysis_refresh_pending.is_empty());
    assert!(app.analysis_previous_usage.is_empty());
    assert_eq!(
        app.notice.as_deref(),
        Some("Could not refresh analysis slice: Analysis worker stopped unexpectedly")
    );
}

#[test]
fn no_path_is_marked_twice() {
    let mut app = bare_app();
    let root_id = app.tree.root_id;
    let file = add(&mut app, root_id, entry("file", 1));
    app.rebuild_visible();
    app.selected = Some(file);
    app.toggle_mark_current();
    assert_eq!(app.marked, [path("/tmp/file")]);

    let mut index = AnalysisIndex::new(root(), true, 1);
    index.complete = true;
    index.files.push(analysis_file(&root(), "file", 1));
    app.analysis_index = Some(index);
    app.analysis_status = AnalysisStatus::Ready;
    app.set_view(ViewKind::Largest);
    app.toggle_mark_current();
    assert!(app.marked.is_empty());
    app.toggle_mark_current();
    assert_eq!(app.marked.len(), 1);
}
