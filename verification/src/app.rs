//! The state of the browser and how it changes.
use vstd::prelude::*;

use crate::analytics::{AnalysisIndex, FileRecord, IndexModel};
use crate::cache::{CacheModel, ScanCache};
use crate::delete::{DeleteItem, DeleteRequest};
use crate::filter;
use crate::filter::{FilterExpression, PredicateModel};
use crate::path::FilePath;
use crate::scanner::ScanOptions;
use crate::snapshot;
use crate::snapshot::{ComparisonModel, SnapshotComparison, SnapshotStore};
use crate::theme::ThemeKind;
use crate::tree;
use crate::tree::{
    NodeId, SizeMode, SortSpec, Tree, TreeModel, UsageStats, VisibleNode,
};
use crate::worker::ScanJob;

pub mod analysis;
pub mod browse;
pub mod keys;
pub mod marks;
pub mod prompt;
pub mod root;
pub mod safety;
pub mod scan;
pub mod screen;
pub mod search;
pub mod selection;
pub mod start;
pub mod watch;

verus! {

/// What a prompt asks for.
#[derive(Clone, Copy, Debug, PartialEq, Eq, Structural)]
pub enum PromptKind {
    Search,
    Filter,
    Export,
}

/// The views that can be shown.
#[derive(Clone, Copy, Debug, PartialEq, Eq, Structural)]
pub enum ViewKind {
    Tree,
    Largest,
    Types,
    Duplicates,
    Changes,
}

impl Default for ViewKind {
    fn default() -> (view: Self)
        ensures
            view == ViewKind::Tree,
    {
        ViewKind::Tree
    }
}

impl ViewKind {
    /// All views, in the order of their tabs.
    pub open spec fn tabs() -> Seq<ViewKind> {
        seq![
            ViewKind::Tree,
            ViewKind::Largest,
            ViewKind::Types,
            ViewKind::Duplicates,
            ViewKind::Changes,
        ]
    }

    /// All views, in the order of their tabs.
    pub fn all() -> (views: Vec<ViewKind>)
        ensures
            views@ == ViewKind::tabs(),
    {
        let views: Vec<ViewKind> = vec![
            ViewKind::Tree,
            ViewKind::Largest,
            ViewKind::Types,
            ViewKind::Duplicates,
            ViewKind::Changes,
        ];
        assert(views@ =~= ViewKind::tabs());
        views
    }

    pub open spec fn label_text(self) -> Seq<char> {
        match self {
            ViewKind::Tree => "Tree"@,
            ViewKind::Largest => "Largest"@,
            ViewKind::Types => "Types"@,
            ViewKind::Duplicates => "Duplicates"@,
            ViewKind::Changes => "Changes"@,
        }
    }

    pub fn label(self) -> (label: &'static str)
        ensures
            label@ == self.label_text(),
    {
        match self {
            ViewKind::Tree => "Tree",
            ViewKind::Largest => "Largest",
            ViewKind::Types => "Types",
            ViewKind::Duplicates => "Duplicates",
            ViewKind::Changes => "Changes",
        }
    }

    pub open spec fn neighbour(self, backwards: bool) -> ViewKind {
        if backwards {
            match self {
                ViewKind::Tree => ViewKind::Changes,
                ViewKind::Largest => ViewKind::Tree,
                ViewKind::Types => ViewKind::Largest,
                ViewKind::Duplicates => ViewKind::Types,
                ViewKind::Changes => ViewKind::Duplicates,
            }
        } else {
            match self {
                ViewKind::Tree => ViewKind::Largest,
                ViewKind::Largest => ViewKind::Types,
                ViewKind::Types => ViewKind::Duplicates,
                ViewKind::Duplicates => ViewKind::Changes,
                ViewKind::Changes => ViewKind::Tree,
            }
        }
    }

    /// The view of the next tab, or of the one before.
    pub fn next(self, backwards: bool) -> (view: Self)
        ensures
            view == self.neighbour(backwards),
    {
        if backwards {
            match self {
                ViewKind::Tree => ViewKind::Changes,
                ViewKind::Largest => ViewKind::Tree,
                ViewKind::Types => ViewKind::Largest,
                ViewKind::Duplicates => ViewKind::Types,
                ViewKind::Changes => ViewKind::Duplicates,
            }
        } else {
            match self {
                ViewKind::Tree => ViewKind::Largest,
                ViewKind::Largest => ViewKind::Types,
                ViewKind::Types => ViewKind::Duplicates,
                ViewKind::Duplicates => ViewKind::Changes,
                ViewKind::Changes => ViewKind::Tree,
            }
        }
    }
}

/// The next tab follows in the list of tabs, round the end, and going back
/// undoes it.
pub proof fn tabs_go_round(place: int)
    requires
        0 <= place < ViewKind::tabs().len(),
    ensures
        ViewKind::tabs()[place].neighbour(false) == ViewKind::tabs()[(place + 1) % 5],
        ViewKind::tabs()[place].neighbour(false).neighbour(true) == ViewKind::tabs()[place],
        ViewKind::tabs()[place].neighbour(true).neighbour(false) == ViewKind::tabs()[place],
{
    assert(place == 0 || place == 1 || place == 2 || place == 3 || place == 4);
}

/// How far the full analysis is.
#[derive(Clone, Copy, Debug, PartialEq, Eq, Structural)]
pub enum AnalysisStatus {
    Idle,
    Indexing,
    Ready,
    Hashing,
}

impl Default for AnalysisStatus {
    fn default() -> (status: Self)
        ensures
            status == AnalysisStatus::Idle,
    {
        AnalysisStatus::Idle
    }
}

/// A row of an analysis view.
#[derive(Debug)]
pub struct AnalysisRow {
    pub label: String,
    pub path: Option<FilePath>,
    pub usage: UsageStats,
    pub files: u64,
    pub detail: String,
    pub indent: usize,
}

#[verifier::ext_equal]
pub struct RowModel {
    pub label: Seq<char>,
    pub path: Option<FilePath>,
    pub usage: UsageStats,
    pub files: u64,
    pub detail: Seq<char>,
    pub indent: usize,
}

impl View for AnalysisRow {
    type V = RowModel;

    open spec fn view(&self) -> RowModel {
        RowModel {
            label: self.label@,
            path: self.path,
            usage: self.usage,
            files: self.files,
            detail: self.detail@,
            indent: self.indent,
        }
    }
}

pub open spec fn row_views(rows: Seq<AnalysisRow>) -> Seq<RowModel> {
    Seq::new(rows.len(), |i: int| rows[i]@)
}

/// What the keys do at the moment.
#[derive(Debug)]
pub enum AppMode {
    Browse,
    Help,
    Input { kind: PromptKind, value: String, previous_filter: Option<String> },
    ConfirmDelete { items: Vec<DeleteItem>, multi: bool },
    Deleting { items: Vec<DeleteItem>, multi: bool },
    ErrorDialog(String),
}

#[verifier::ext_equal]
pub enum ModeModel {
    Browse,
    Help,
    Input { kind: PromptKind, value: Seq<char>, previous_filter: Option<Seq<char>> },
    ConfirmDelete { items: Seq<DeleteItem>, multi: bool },
    Deleting { items: Seq<DeleteItem>, multi: bool },
    ErrorDialog(Seq<char>),
}

impl View for AppMode {
    type V = ModeModel;

    open spec fn view(&self) -> ModeModel {
        match *self {
            AppMode::Browse => ModeModel::Browse,
            AppMode::Help => ModeModel::Help,
            AppMode::Input { kind, value, previous_filter } => ModeModel::Input {
                kind,
                value: value@,
                previous_filter: tree::text_view(previous_filter),
            },
            AppMode::ConfirmDelete { items, multi } => ModeModel::ConfirmDelete {
                items: items@,
                multi,
            },
            AppMode::Deleting { items, multi } => ModeModel::Deleting { items: items@, multi },
            AppMode::ErrorDialog(message) => ModeModel::ErrorDialog(message@),
        }
    }
}

/// A part of the screen.
#[derive(Clone, Copy, Debug, PartialEq, Eq, Structural)]
pub struct Area {
    pub x: u16,
    pub y: u16,
    pub width: u16,
    pub height: u16,
}

impl Area {
    /// One behind the last column or row of an area. Areas end at the largest
    /// coordinate.
    pub open spec fn end(start: u16, length: u16) -> u16 {
        if start + length > u16::MAX {
            u16::MAX
        } else {
            (start + length) as u16
        }
    }

    pub open spec fn holds(self, column: u16, row: u16) -> bool {
        &&& self.x <= column < Area::end(self.x, self.width)
        &&& self.y <= row < Area::end(self.y, self.height)
    }

    /// Whether a place lies in the area.
    pub fn contains(self, column: u16, row: u16) -> (result: bool)
        ensures
            result == self.holds(column, row),
    {
        self.x <= column && column < self.x.saturating_add(self.width) && self.y <= row && row
            < self.y.saturating_add(self.height)
    }
}

/// The time: seconds since the epoch, and milliseconds of a clock that only
/// goes forward.
#[derive(Clone, Copy, Debug, PartialEq, Eq, Structural)]
pub struct Clock {
    pub seconds: u64,
    pub millis: u64,
}

/// Which workers have stopped. They take no more work.
#[derive(Clone, Copy, Debug, PartialEq, Eq, Structural)]
pub struct StoppedWorkers {
    pub scan: bool,
    pub analysis: bool,
    pub trash: bool,
}

/// What is said when the scan workers take no job.
pub open spec fn scan_stopped() -> Seq<char> {
    "Scan worker pool stopped unexpectedly"@
}

/// What is said when the analysis worker takes no request.
pub open spec fn analysis_stopped() -> Seq<char> {
    "Analysis worker stopped unexpectedly"@
}

/// What is said when the Trash worker takes no request.
pub open spec fn trash_stopped() -> Seq<char> {
    "Trash worker stopped unexpectedly"@
}

/// What is to be done outside, in this order.
#[derive(Debug)]
pub enum Effect {
    /// Hand a job to the scan workers.
    Scan(ScanJob),
    /// Let all work of earlier generations come to nothing.
    SetGeneration(u64),
    /// Index a directory.
    StartIndex { generation: u64, root: FilePath, options: ScanOptions },
    /// Look for duplicates among files.
    StartDuplicates { generation: u64, files: Vec<FileRecord> },
    /// Store and compare the finished index.
    FinishAnalysis,
    /// Resolve the parent of the root, to open it.
    OpenParent { parent: FilePath },
    /// Find out about a directory, to open it as the root.
    OpenRoot {
        root: FilePath,
        select: Option<FilePath>,
        notice: Option<String>,
        warning: Option<String>,
    },
    /// Watch a directory.
    StartWatcher { root: FilePath },
    /// Watch no longer.
    StopWatcher,
    /// Write the index to a file.
    Export { path: FilePath },
    /// Validate the entries that are to be deleted.
    ValidateDelete,
    /// Move entries to the Trash.
    Delete(DeleteRequest),
}

#[verifier::ext_equal]
pub enum EffectModel {
    Scan(ScanJob),
    SetGeneration(u64),
    StartIndex { generation: u64, root: FilePath, options: ScanOptions },
    StartDuplicates { generation: u64, files: Seq<FileRecord> },
    FinishAnalysis,
    OpenParent { parent: Seq<u8> },
    OpenRoot {
        root: FilePath,
        select: Option<FilePath>,
        notice: Option<Seq<char>>,
        warning: Option<Seq<char>>,
    },
    StartWatcher { root: FilePath },
    StopWatcher,
    Export { path: Seq<u8> },
    ValidateDelete,
    Delete { generation: u64, root: FilePath, items: Seq<DeleteItem> },
}

impl View for Effect {
    type V = EffectModel;

    open spec fn view(&self) -> EffectModel {
        match *self {
            Effect::Scan(job) => EffectModel::Scan(job),
            Effect::SetGeneration(generation) => EffectModel::SetGeneration(generation),
            Effect::StartIndex { generation, root, options } => EffectModel::StartIndex {
                generation,
                root,
                options,
            },
            Effect::StartDuplicates { generation, files } => EffectModel::StartDuplicates {
                generation,
                files: files@,
            },
            Effect::FinishAnalysis => EffectModel::FinishAnalysis,
            Effect::OpenParent { parent } => EffectModel::OpenParent { parent: parent@ },
            Effect::OpenRoot { root, select, notice, warning } => EffectModel::OpenRoot {
                root,
                select,
                notice: tree::text_view(notice),
                warning: tree::text_view(warning),
            },
            Effect::StartWatcher { root } => EffectModel::StartWatcher { root },
            Effect::StopWatcher => EffectModel::StopWatcher,
            Effect::Export { path } => EffectModel::Export { path: path@ },
            Effect::ValidateDelete => EffectModel::ValidateDelete,
            Effect::Delete(request) => EffectModel::Delete {
                generation: request.generation,
                root: request.root,
                items: request.items@,
            },
        }
    }
}

pub open spec fn effect_views(effects: Seq<Effect>) -> Seq<EffectModel> {
    Seq::new(effects.len(), |i: int| effects[i]@)
}

/// The state of the browser.
pub struct App {
    pub root: FilePath,
    pub tree: Tree,
    pub visible: Vec<VisibleNode>,
    pub selected: Option<NodeId>,
    pub scroll_offset: usize,
    pub page_size: usize,
    pub mode: AppMode,
    pub workers: usize,
    pub pending_jobs: usize,
    pub errors: usize,
    pub notice: Option<String>,
    pub size_mode: SizeMode,
    pub sort: SortSpec,
    pub theme: ThemeKind,
    pub detail_panel: bool,
    pub mouse_enabled: bool,
    pub filter_query: Option<String>,
    pub search_query: Option<String>,
    pub help_scroll: usize,
    pub list_area: Area,
    pub cache_hits: usize,
    pub mounts_skipped: usize,
    pub active_view: ViewKind,
    pub analysis_status: AnalysisStatus,
    pub analysis_index: Option<AnalysisIndex>,
    pub analysis_rows: Vec<AnalysisRow>,
    pub analysis_selected: usize,
    pub analysis_scroll: usize,
    pub analysis_rows_truncated: bool,
    pub analysis_found_usage: UsageStats,
    pub comparison: Option<SnapshotComparison>,
    pub watch_enabled: bool,
    pub marked: Vec<FilePath>,
    pub filter_expression: Option<FilterExpression>,
    pub analysis_refresh_pending: Vec<FilePath>,
    pub analysis_previous_usage: Vec<(FilePath, UsageStats)>,
    pub generation: u64,
    pub root_device: u64,
    pub one_file_system: bool,
    pub cache: ScanCache,
    pub snapshot_store: SnapshotStore,
    pub compare_snapshot: Option<FilePath>,
    pub detect_duplicates: bool,
    pub watch_debounce: u64,
    pub sort_dirty: bool,
    pub last_sort: u64,
    pub last_cache_flush: u64,
    pub should_quit: bool,
    pub quit_after_delete: bool,
    pub pending_select_path: Option<FilePath>,
    pub last_click: Option<(NodeId, u64)>,
    pub clock: Clock,
    pub stopped: StoppedWorkers,
    pub effects: Vec<Effect>,
}

pub struct AppModel {
    pub root: FilePath,
    pub tree: TreeModel,
    pub visible: Seq<VisibleNode>,
    pub selected: Option<NodeId>,
    pub scroll_offset: usize,
    pub page_size: usize,
    pub mode: ModeModel,
    pub workers: usize,
    pub pending_jobs: usize,
    pub errors: usize,
    pub notice: Option<Seq<char>>,
    pub size_mode: SizeMode,
    pub sort: SortSpec,
    pub theme: ThemeKind,
    pub detail_panel: bool,
    pub mouse_enabled: bool,
    pub filter_query: Option<Seq<char>>,
    pub search_query: Option<Seq<char>>,
    pub help_scroll: usize,
    pub list_area: Area,
    pub cache_hits: usize,
    pub mounts_skipped: usize,
    pub active_view: ViewKind,
    pub analysis_status: AnalysisStatus,
    pub analysis_index: Option<IndexModel>,
    pub analysis_rows: Seq<RowModel>,
    pub analysis_selected: usize,
    pub analysis_scroll: usize,
    pub analysis_rows_truncated: bool,
    pub analysis_found_usage: UsageStats,
    pub comparison: Option<ComparisonModel>,
    pub watch_enabled: bool,
    pub marked: Seq<FilePath>,
    pub filter_expression: Option<Seq<PredicateModel>>,
    pub analysis_refresh_pending: Seq<FilePath>,
    pub analysis_previous_usage: Seq<(FilePath, UsageStats)>,
    pub generation: u64,
    pub root_device: u64,
    pub one_file_system: bool,
    pub cache: CacheModel,
    pub snapshot_store: SnapshotStore,
    pub compare_snapshot: Option<FilePath>,
    pub detect_duplicates: bool,
    pub watch_debounce: u64,
    pub sort_dirty: bool,
    pub last_sort: u64,
    pub last_cache_flush: u64,
    pub should_quit: bool,
    pub quit_after_delete: bool,
    pub pending_select_path: Option<FilePath>,
    pub last_click: Option<(NodeId, u64)>,
    pub clock: Clock,
    pub stopped: StoppedWorkers,
    pub effects: Seq<EffectModel>,
}

pub open spec fn index_view(index: Option<AnalysisIndex>) -> Option<IndexModel> {
    match index {
        Some(index) => Some(index@),
        None => None,
    }
}

impl View for App {
    type V = AppModel;

    open spec fn view(&self) -> AppModel {
        AppModel {
            root: self.root,
            tree: self.tree@,
            visible: self.visible@,
            selected: self.selected,
            scroll_offset: self.scroll_offset,
            page_size: self.page_size,
            mode: self.mode@,
            workers: self.workers,
            pending_jobs: self.pending_jobs,
            errors: self.errors,
            notice: tree::text_view(self.notice),
            size_mode: self.size_mode,
            sort: self.sort,
            theme: self.theme,
            detail_panel: self.detail_panel,
            mouse_enabled: self.mouse_enabled,
            filter_query: tree::text_view(self.filter_query),
            search_query: tree::text_view(self.search_query),
            help_scroll: self.help_scroll,
            list_area: self.list_area,
            cache_hits: self.cache_hits,
            mounts_skipped: self.mounts_skipped,
            active_view: self.active_view,
            analysis_status: self.analysis_status,
            analysis_index: index_view(self.analysis_index),
            analysis_rows: row_views(self.analysis_rows@),
            analysis_selected: self.analysis_selected,
            analysis_scroll: self.analysis_scroll,
            analysis_rows_truncated: self.analysis_rows_truncated,
            analysis_found_usage: self.analysis_found_usage,
            comparison: snapshot::comparison_view(self.comparison),
            watch_enabled: self.watch_enabled,
            marked: self.marked@,
            filter_expression: filter::filter_view(self.filter_expression),
            analysis_refresh_pending: self.analysis_refresh_pending@,
            analysis_previous_usage: self.analysis_previous_usage@,
            generation: self.generation,
            root_device: self.root_device,
            one_file_system: self.one_file_system,
            cache: self.cache@,
            snapshot_store: self.snapshot_store,
            compare_snapshot: self.compare_snapshot,
            detect_duplicates: self.detect_duplicates,
            watch_debounce: self.watch_debounce,
            sort_dirty: self.sort_dirty,
            last_sort: self.last_sort,
            last_cache_flush: self.last_cache_flush,
            should_quit: self.should_quit,
            quit_after_delete: self.quit_after_delete,
            pending_select_path: self.pending_select_path,
            last_click: self.last_click,
            clock: self.clock,
            stopped: self.stopped,
            effects: effect_views(self.effects@),
        }
    }
}

impl App {
    /// The invariant of the state: the tree hangs together, the cache is in
    /// order, a page has at least one row, and one of the analysis rows is
    /// selected where there are any. No path is marked or waited for twice, and
    /// none has two earlier usages.
    pub open spec fn wf(self) -> bool {
        &&& tree::is_tree(self.tree@)
        &&& self.cache.wf()
        &&& self.page_size >= 1
        &&& self.analysis_rows@.len() > 0 ==> self.analysis_selected < self.analysis_rows@.len()
        &&& screen::distinct_paths(self.marked@)
        &&& screen::distinct_paths(self.analysis_refresh_pending@)
        &&& screen::distinct_usages(self.analysis_previous_usage@)
    }
}

} // verus!
