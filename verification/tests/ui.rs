use macdirstat::app::{AnalysisRow, AnalysisStatus, App, AppMode, Area, Clock, PromptKind, ViewKind};
use macdirstat::delete::DeleteItem;
use macdirstat::format::format_size;
use macdirstat::path::FilePath;
use macdirstat::scanner::DiscoveredEntry;
use macdirstat::theme::{Emphasis, Theme, ThemeKind};
use macdirstat::tree::{NodeKind, SizeMode, UsageStats};
use macdirstat::ui;
use macdirstat::ui::{DetailPlace, Role};

fn path(text: &str) -> FilePath {
    FilePath::from_text(text)
}

fn app() -> App {
    App::new(path("/r"), 1, 1, Clock { seconds: 100, millis: 0 })
}

fn entry(name: &str, kind: NodeKind, size: Option<u64>) -> DiscoveredEntry {
    DiscoveredEntry {
        path: path("/r").join(&path(name)),
        name: path(name),
        kind,
        usage: size.map(|size| UsageStats { logical: size, physical: 2 * size, files: 1 }),
        error: None,
        identity: None,
        modified: None,
        mountpoint: false,
    }
}

#[test]
fn sizes_are_shown_in_binary_units() {
    for (bytes, shown) in [
        (0, "0 B"),
        (1_023, "1023 B"),
        (1_024, "1.0 KiB"),
        (1_536, "1.5 KiB"),
        (1_048_576, "1.0 MiB"),
        (1_073_741_824, "1.0 GiB"),
        (u64::MAX, "16.0 EiB"),
    ] {
        assert_eq!(format_size(bytes), shown);
    }
}

#[test]
fn renders_small_narrow_and_wide_layouts_in_all_themes() {
    assert_eq!(ui::detail_place(true, 20, 4), DetailPlace::Hidden);
    assert_eq!(ui::detail_place(true, 80, 24), DetailPlace::Below);
    assert_eq!(ui::detail_place(true, 120, 30), DetailPlace::Beside);
    assert_eq!(ui::detail_place(true, 100, 4), DetailPlace::Beside);
    assert_eq!(ui::detail_place(true, 99, 11), DetailPlace::Hidden);
    assert_eq!(ui::detail_place(false, 120, 30), DetailPlace::Hidden);
    let mono = Theme::for_kind(ThemeKind::Monochrome);
    assert_eq!(mono.directory.foreground, None);
    assert_eq!(mono.selected.emphasis, Emphasis::Reversed);
    assert_ne!(Theme::for_kind(ThemeKind::Default), Theme::for_kind(ThemeKind::HighContrast));
}

#[test]
fn renders_help_and_prompt_overlays() {
    let lines = ui::help_lines();
    assert_eq!(lines.len(), 39);
    assert_eq!(lines[0], "Navigation");
    assert_eq!(lines[38], "Press ? or Esc to close help");
    assert_eq!(ui::help_window(0, 26, lines.len()), (0, 26));
    assert_eq!(ui::help_window(100, 26, lines.len()), (13, 39));
    assert_eq!(ui::help_window(5, 60, lines.len()), (0, 39));
    assert_eq!(ui::prompt_labels(PromptKind::Filter).0, " Filter tree and analysis ");
    let screen = Area { x: 0, y: 0, width: 100, height: 30 };
    assert_eq!(ui::centered(screen, 72, 5), Area { x: 14, y: 12, width: 72, height: 5 });
    assert_eq!(ui::centered(screen, 200, 200), screen);
}

#[test]
fn renders_every_analysis_tab_with_adaptive_details() {
    for view in [ViewKind::Largest, ViewKind::Types, ViewKind::Duplicates, ViewKind::Changes] {
        let mut app = app();
        app.active_view = view;
        app.analysis_status = AnalysisStatus::Ready;
        app.analysis_rows = vec![AnalysisRow {
            label: "sample".to_owned(),
            path: Some(path("/r/sample")),
            usage: UsageStats { logical: 100, physical: 50, files: 1 },
            files: 1,
            detail: view.label().to_owned(),
            indent: usize::from(view == ViewKind::Duplicates),
        }];
        let (columns, name) = app.row_line(&app.analysis_rows[0]);
        assert_eq!(columns, "[ ]      100 B          1  ");
        if view == ViewKind::Duplicates {
            assert_eq!(name, "Duplicates ·   sample");
        } else {
            assert_eq!(name, format!("{} · sample", view.label()));
        }
        let details = app.detail_lines("–", "unknown");
        assert_eq!(details[1], "Logical: 100 B | Physical: 50 B");
        assert_eq!(details[3], "/r/sample");
        assert!(!ui::columns_of(view).is_empty());
        app.analysis_rows.clear();
        assert_eq!(app.detail_lines("–", "unknown"), ["No analysis row selected"]);
        assert!(app.empty_message().starts_with("No "));
    }
}

#[test]
fn rows_of_the_tree_show_size_share_and_files() {
    let mut app = app();
    let root = app.tree.root_id;
    let file = app.tree.add_child(root, entry("file", NodeKind::File, Some(2_048))).unwrap();
    let folder = app.tree.add_child(root, entry("folder", NodeKind::Directory, None)).unwrap();
    app.rebuild_visible();
    let line = ui::node_line(app.tree.get(file).unwrap(), 1, true, SizeMode::Logical, "42%");
    assert_eq!(line.columns, "[x]       2.0 KiB    42%          1  ");
    assert_eq!(line.indentation, "  ");
    assert_eq!(line.name, "  file");
    assert_eq!(line.role, Role::Plain);
    let line = ui::node_line(app.tree.get(folder).unwrap(), 0, false, SizeMode::Logical, "–");
    assert_eq!(line.columns, "[ ]             …      –          –  ");
    assert_eq!(line.name, "▶ folder");
    assert_eq!(line.role, Role::Directory);
}

#[test]
fn head_and_foot_tell_the_state() {
    let mut app = app();
    let root = app.tree.root_id;
    app.tree.add_child(root, entry("file", NodeKind::File, Some(2_048))).unwrap();
    app.rebuild_visible();
    assert_eq!(
        app.summary(),
        "Logical: 2.0 KiB   Files: 1   Visible: 1   Sort: size↓   Theme: default"
    );
    assert_eq!(ui::tab_label(1, ViewKind::Largest), " 2:Largest ");
    app.pending_jobs = 0;
    assert_eq!(app.footer(), "Scan complete | 2.0 KiB | 1 files | 0 errors");
    app.filter_query = Some("x".to_owned());
    assert!(app.footer().ends_with(" | filter: x"));
}

#[test]
fn questions_name_what_would_be_moved() {
    let mut app = app();
    let root = app.tree.root_id;
    let file = app.tree.add_child(root, entry("file", NodeKind::File, Some(2_048))).unwrap();
    let known = DeleteItem { node_id: Some(file), path: path("/r/file") };
    let unknown = DeleteItem { node_id: None, path: path("/r/other") };
    app.mode = AppMode::ConfirmDelete { items: vec![known.clone()], multi: false };
    let dialog = app.shown_dialog().unwrap();
    assert_eq!(dialog.title, " Move to Trash ");
    assert_eq!(dialog.lines[0], "Move \"file\" to Trash?");
    assert_eq!(dialog.lines[1], "Size: 2.0 KiB");
    app.mode = AppMode::ConfirmDelete { items: vec![known, unknown], multi: true };
    let dialog = app.shown_dialog().unwrap();
    assert_eq!(dialog.lines[0], "Move 2 marked items to Trash?");
    assert_eq!(dialog.lines[1], "Combined size: at least 2.0 KiB (1 still unknown)");
    app.mode = AppMode::ErrorDialog("boom".to_owned());
    assert_eq!(app.shown_dialog().unwrap().lines[0], "boom");
    app.mode = AppMode::Browse;
    assert!(app.shown_dialog().is_none());
}

#[test]
fn pages_end_where_the_rows_end() {
    assert_eq!(ui::end_of_page(0, 10, 25), 10);
    assert_eq!(ui::end_of_page(20, 10, 25), 25);
    assert_eq!(ui::end_of_page(0, usize::MAX, 25), 25);
    assert_eq!(ui::place_on_page(Some(12), 10, 20), Some(2));
    assert_eq!(ui::place_on_page(Some(9), 10, 20), None);
    assert_eq!(ui::place_on_page(Some(20), 10, 20), None);
    assert_eq!(ui::place_on_page(None, 10, 20), None);
}
