//! How the browser begins, and how its cache is written.
use vstd::prelude::*;

use crate::app;
use crate::app::screen;
use crate::app::{
    AnalysisStatus, App, AppMode, AppModel, Area, Clock, ModeModel, StoppedWorkers, ViewKind,
};
use crate::cache;
use crate::cache::{CacheFile, CacheModel, ScanCache};
use crate::config::Settings;
use crate::delete;
use crate::path;
use crate::path::FilePath;
use crate::snapshot::SnapshotStore;
use crate::text;
use crate::tree;
use crate::tree::{NodeId, Tree, UsageStats};

verus! {

/// The generation of the first scan.
pub const FIRST_GENERATION: u64 = 1;

/// How often the cache is written, in milliseconds.
pub const CACHE_FLUSH_INTERVAL: u64 = 2_000;

/// The cache as found on disk.
pub open spec fn initial_cache(
    settings: Settings,
    stored: Option<Result<CacheFile, String>>,
    now: u64,
) -> CacheModel {
    CacheModel {
        path: settings.paths.cache_file,
        ttl: settings.cache_ttl,
        enabled: settings.cache_enabled,
        dirty: false,
        records: cache::stored_records(settings.cache_enabled, settings.cache_ttl, stored, now),
    }
}

impl AppModel {
    /// The state before anything has been read. `id` names the node of the
    /// root, `stored` is the cache on disk.
    pub open spec fn initial(
        root: FilePath,
        id: NodeId,
        settings: Settings,
        device: u64,
        stored: Option<Result<CacheFile, String>>,
        clock: Clock,
        stopped: StoppedWorkers,
    ) -> AppModel {
        AppModel {
            root,
            tree: tree::only_root(root, id),
            visible: Seq::empty(),
            selected: None,
            scroll_offset: 0,
            page_size: 1,
            mode: ModeModel::Browse,
            workers: settings.workers,
            pending_jobs: 0,
            errors: 0,
            notice: cache::load_warning(settings.cache_enabled, stored),
            size_mode: settings.size_mode,
            sort: settings.sort,
            theme: settings.theme,
            detail_panel: settings.detail_panel,
            mouse_enabled: settings.mouse,
            filter_query: None,
            search_query: None,
            help_scroll: 0,
            list_area: Area { x: 0, y: 0, width: 0, height: 0 },
            cache_hits: 0,
            mounts_skipped: 0,
            active_view: ViewKind::Tree,
            analysis_status: AnalysisStatus::Idle,
            analysis_index: None,
            analysis_rows: Seq::empty(),
            analysis_selected: 0,
            analysis_scroll: 0,
            analysis_rows_truncated: false,
            analysis_found_usage: UsageStats::zero(),
            comparison: None,
            watch_enabled: settings.watch,
            marked: Seq::empty(),
            filter_expression: None,
            analysis_refresh_pending: Seq::empty(),
            analysis_previous_usage: Seq::empty(),
            generation: FIRST_GENERATION,
            root_device: device,
            one_file_system: settings.one_file_system,
            cache: initial_cache(settings, stored, clock.seconds),
            snapshot_store: SnapshotStore {
                directory: settings.paths.snapshots_dir,
                enabled: settings.snapshots,
            },
            compare_snapshot: settings.compare_snapshot,
            detect_duplicates: settings.detect_duplicates,
            watch_debounce: settings.watch_debounce,
            sort_dirty: false,
            last_sort: clock.millis,
            last_cache_flush: clock.millis,
            should_quit: false,
            quit_after_delete: false,
            pending_select_path: None,
            last_click: None,
            clock,
            stopped,
            effects: Seq::empty(),
        }
    }

    /// The state with the root being read, and analyzed where that has been
    /// asked for.
    pub open spec fn started(self) -> AppModel {
        let reading = self.children_queued(self.tree.root);
        if self.detect_duplicates || self.compare_snapshot is Some {
            reading.analysis_ensured()
        } else {
            reading
        }
    }

    /// What is to be written of the cache, or why it cannot be written.
    pub open spec fn cache_to_store(self) -> Result<bool, Seq<char>> {
        if !self.cache.enabled || !self.cache.dirty {
            Ok(false)
        } else if path::parent_of(self.cache.path@) is None {
            Err("Invalid cache path: "@ + text::lossy_text(self.cache.path@))
        } else {
            Ok(true)
        }
    }

    pub open spec fn cache_checked(self) -> AppModel {
        match self.cache_to_store() {
            Ok(_) => self,
            Err(message) => self.noticed(message),
        }
    }

    /// Whether the last writing of the cache is long enough ago.
    pub open spec fn flush_is_due(self) -> bool {
        self.clock.millis >= self.last_cache_flush + CACHE_FLUSH_INTERVAL
    }

    pub open spec fn flush_noted(self) -> AppModel {
        AppModel { last_cache_flush: self.clock.millis, ..self }
    }

    /// The state after the cache has been written, or could not be.
    pub open spec fn cache_written(self, result: Result<(), Seq<char>>) -> AppModel {
        match result {
            Ok(_) => AppModel { cache: CacheModel { dirty: false, ..self.cache }, ..self },
            Err(message) => self.noticed(message),
        }
    }
}

/// Whether a file is what the cache of a state is written as.
pub open spec fn is_cache_of(file: Option<CacheFile>, state: AppModel) -> bool {
    match file {
        None => state.cache_to_store() != Ok::<bool, Seq<char>>(true),
        Some(file) => {
            &&& state.cache_to_store() == Ok::<bool, Seq<char>>(true)
            &&& file.schema == cache::CACHE_SCHEMA
            &&& file.records@ == cache::latest(state.cache.records)
        },
    }
}

fn initial_app(
    root: FilePath,
    settings: Settings,
    device: u64,
    stored: Option<Result<CacheFile, String>>,
    clock: Clock,
    stopped: StoppedWorkers,
) -> (app: App)
    ensures
        app.wf(),
        app@ == AppModel::initial(root, app@.tree.root, settings, device, stored, clock, stopped),
{
    let tree = Tree::new(root.clone());
    let (cache, warning) = ScanCache::load(
        settings.paths.cache_file,
        settings.cache_enabled,
        settings.cache_ttl,
        stored,
        clock.seconds,
    );
    proof {
        screen::lemma_nothing_distinct();
    }
    let app = App {
        root,
        tree,
        visible: Vec::new(),
        selected: None,
        scroll_offset: 0,
        page_size: 1,
        mode: AppMode::Browse,
        workers: settings.workers,
        pending_jobs: 0,
        errors: 0,
        notice: warning,
        size_mode: settings.size_mode,
        sort: settings.sort,
        theme: settings.theme,
        detail_panel: settings.detail_panel,
        mouse_enabled: settings.mouse,
        filter_query: None,
        search_query: None,
        help_scroll: 0,
        list_area: Area { x: 0, y: 0, width: 0, height: 0 },
        cache_hits: 0,
        mounts_skipped: 0,
        active_view: ViewKind::Tree,
        analysis_status: AnalysisStatus::Idle,
        analysis_index: None,
        analysis_rows: Vec::new(),
        analysis_selected: 0,
        analysis_scroll: 0,
        analysis_rows_truncated: false,
        analysis_found_usage: UsageStats::default(),
        comparison: None,
        watch_enabled: settings.watch,
        marked: Vec::new(),
        filter_expression: None,
        analysis_refresh_pending: Vec::new(),
        analysis_previous_usage: Vec::new(),
        generation: FIRST_GENERATION,
        root_device: device,
        one_file_system: settings.one_file_system,
        cache,
        snapshot_store: SnapshotStore::new(settings.paths.snapshots_dir, settings.snapshots),
        compare_snapshot: settings.compare_snapshot,
        detect_duplicates: settings.detect_duplicates,
        watch_debounce: settings.watch_debounce,
        sort_dirty: false,
        last_sort: clock.millis,
        last_cache_flush: clock.millis,
        should_quit: false,
        quit_after_delete: false,
        pending_select_path: None,
        last_click: None,
        clock,
        stopped,
        effects: Vec::new(),
    };
    proof {
        let model = AppModel::initial(root, app@.tree.root, settings, device, stored, clock, stopped);
        assert(app@.analysis_rows =~= model.analysis_rows);
        assert(app@.effects =~= model.effects);
        assert(app@.visible =~= model.visible);
        assert(app@.marked =~= model.marked);
        assert(app@.analysis_refresh_pending =~= model.analysis_refresh_pending);
        assert(app@.analysis_previous_usage =~= model.analysis_previous_usage);
    }
    app
}

/// No worker has stopped.
pub open spec fn all_running() -> StoppedWorkers {
    StoppedWorkers { scan: false, analysis: false, trash: false }
}

impl App {
    /// The browser of a directory, with settings for trying things out. Its
    /// workers are all running.
    pub fn new(root: FilePath, workers: usize, device: u64, clock: Clock) -> (app: App)
        ensures
            app.wf(),
            exists|settings: Settings|
                call_ensures(Settings::for_tests, (workers, &root), settings) && app@
                    == AppModel::initial(
                    root,
                    app@.tree.root,
                    settings,
                    device,
                    None,
                    clock,
                    all_running(),
                ).started(),
    {
        let settings = Settings::for_tests(workers, &root);
        let running = StoppedWorkers { scan: false, analysis: false, trash: false };
        let mut app = initial_app(root, settings, device, None, clock, running);
        let ghost fresh = app@;
        let _ = app.start();
        assert(fresh.load_error(fresh.tree.root) is None);
        assert(app@ == AppModel::initial(
            root,
            app@.tree.root,
            settings,
            device,
            None,
            clock,
            all_running(),
        ).started());
        assert(call_ensures(Settings::for_tests, (workers, &root), settings));
        app
    }

    /// The browser of a directory. `device` is the device that the directory is
    /// on, `stored` the cache as found on disk. There is none where the scan
    /// workers have stopped.
    pub fn with_settings(
        root: FilePath,
        settings: Settings,
        device: u64,
        stored: Option<Result<CacheFile, String>>,
        clock: Clock,
        stopped: StoppedWorkers,
    ) -> (result: Result<App, String>)
        ensures
            match result {
                Ok(app) => {
                    &&& !stopped.scan
                    &&& app.wf()
                    &&& app@ == AppModel::initial(
                        root,
                        app@.tree.root,
                        settings,
                        device,
                        stored,
                        clock,
                        stopped,
                    ).started()
                },
                Err(message) => stopped.scan && message@ == app::scan_stopped(),
            },
    {
        let mut app = initial_app(root, settings, device, stored, clock, stopped);
        match app.start() {
            Ok(_) => Ok(app),
            Err(message) => Err(message),
        }
    }

    fn start(&mut self) -> (result: Result<(), String>)
        requires
            old(self).wf(),
        ensures
            final(self).wf(),
            match result {
                Ok(_) => {
                    &&& old(self)@.load_error(old(self)@.tree.root) is None
                    &&& final(self)@ == old(self)@.started()
                    &&& final(self)@.tree.root == old(self)@.tree.root
                },
                Err(message) => old(self)@.load_error(old(self)@.tree.root) == Some(message@),
            },
    {
        if let Err(message) = self.queue_children(self.tree.root_id) {
            return Err(message);
        }
        if self.detect_duplicates || self.compare_snapshot.is_some() {
            self.ensure_analysis();
        }
        Ok(())
    }

    /// What has to be written of the cache, if anything.
    pub fn flush_cache(&mut self) -> (file: Option<CacheFile>)
        requires
            old(self).wf(),
        ensures
            final(self).wf(),
            final(self)@ == old(self)@.cache_checked(),
            is_cache_of(file, old(self)@),
    {
        match self.cache.to_store() {
            Ok(file) => file,
            Err(message) => {
                self.say(message.as_str());
                None
            },
        }
    }

    fn note_flush(&mut self)
        requires
            old(self).wf(),
        ensures
            final(self).wf(),
            final(self)@ == old(self)@.flush_noted(),
    {
        self.last_cache_flush = self.clock.millis;
    }

    /// What has to be written of the cache, if it is time for that.
    pub fn maybe_flush_cache(&mut self) -> (file: Option<CacheFile>)
        requires
            old(self).wf(),
        ensures
            final(self).wf(),
            old(self)@.flush_is_due() ==> final(self)@ == old(self)@.cache_checked().flush_noted()
                && is_cache_of(file, old(self)@),
            !old(self)@.flush_is_due() ==> final(self)@ == old(self)@ && file is None,
    {
        if self.clock.millis.saturating_sub(self.last_cache_flush) < CACHE_FLUSH_INTERVAL {
            return None;
        }
        let file = self.flush_cache();
        self.note_flush();
        file
    }

    /// Takes in whether the cache has been written.
    pub fn cache_stored(&mut self, result: Result<(), String>)
        requires
            old(self).wf(),
        ensures
            final(self).wf(),
            final(self)@ == old(self)@.cache_written(delete::unit_result(result)),
    {
        match result {
            Ok(_) => {
                self.cache.stored();
            },
            Err(message) => {
                self.say(message.as_str());
            },
        }
    }
}

/// The cache is written at most every two seconds, if it is in use and has
/// changed.
pub proof fn the_cache_is_written_in_time(state: AppModel)
    ensures
        state.flush_is_due() <==> state.clock.millis >= state.last_cache_flush + 2_000,
        state.cache_to_store() == Ok::<bool, Seq<char>>(true) ==> state.cache.enabled
            && state.cache.dirty,
        (!state.cache.enabled || !state.cache.dirty) ==> state.cache_to_store() == Ok::<
            bool,
            Seq<char>,
        >(false),
        state.cache.enabled && state.cache.dirty && path::parent_of(state.cache.path@) is Some
            ==> state.cache_to_store() == Ok::<bool, Seq<char>>(true),
        state.cache.enabled && state.cache.dirty && path::parent_of(state.cache.path@) is None
            ==> state.cache_to_store() is Err,
{
}

/// A written cache has nothing left to write; one that could not be written is
/// tried again.
pub proof fn written_caches_are_clean(state: AppModel, message: Seq<char>)
    ensures
        !state.cache_written(Ok(())).cache.dirty,
        state.cache_written(Ok(())).cache.records == state.cache.records,
        state.cache_written(Err(message)).cache == state.cache,
        state.cache_written(Err(message)).notice == Some(message),
{
}

/// The program begins as it was set up, with an unread root and nothing marked.
pub proof fn the_program_begins_as_set_up(
    root: FilePath,
    id: NodeId,
    settings: Settings,
    device: u64,
    stored: Option<Result<CacheFile, String>>,
    clock: Clock,
    stopped: StoppedWorkers,
)
    ensures
        ({
            let state = AppModel::initial(root, id, settings, device, stored, clock, stopped);
            &&& state.root == root && state.tree.root == id && state.tree.nodes[id].path == root
            &&& state.tree.nodes.dom() == Set::empty().insert(id)
            &&& state.workers == settings.workers && state.size_mode == settings.size_mode
            &&& state.sort == settings.sort && state.theme == settings.theme
            &&& state.detail_panel == settings.detail_panel && state.mouse_enabled
                == settings.mouse
            &&& state.watch_enabled == settings.watch && state.watch_debounce
                == settings.watch_debounce
            &&& state.one_file_system == settings.one_file_system && state.root_device == device
            &&& state.cache.ttl == settings.cache_ttl && state.cache.enabled
                == settings.cache_enabled && !state.cache.dirty
            &&& state.snapshot_store.enabled == settings.snapshots
            &&& state.snapshot_store.directory == settings.paths.snapshots_dir
            &&& state.marked.len() == 0 && state.effects.len() == 0 && state.pending_jobs == 0
            &&& state.active_view == ViewKind::Tree && !state.should_quit
        }),
{
    assert(tree::only_root(root, id).nodes.dom() =~= Set::empty().insert(id));
}

/// The root is read at once; the index is built at once where duplicates or a
/// comparison were asked for.
pub proof fn the_root_is_read_at_once(state: AppModel)
    ensures
        !state.detect_duplicates && state.compare_snapshot is None ==> state.started()
            == state.children_queued(state.tree.root),
        state.detect_duplicates || state.compare_snapshot is Some ==> state.started()
            == state.children_queued(state.tree.root).analysis_ensured(),
{
}

} // verus!
