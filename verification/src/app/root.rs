//! Which directory is shown: opening one, scanning it anew, watching it.
use vstd::prelude::*;
use vstd::string::StringExecFns;

use crate::app::analysis;
use crate::app::scan;
use crate::app::screen;
use crate::app::{AnalysisStatus, App, AppMode, AppModel, Effect, EffectModel, ModeModel};
use crate::delete;
use crate::path;
use crate::path::FilePath;
use crate::text;
use crate::tree;
use crate::tree::{NodeId, NodeModel, ScanState, Tree, TreeModel};

verus! {

/// A node with nothing going on. What was being measured is not known; where
/// `forget` is set, nothing else is known of it either.
pub open spec fn stopped_node(node: NodeModel, forget: bool) -> NodeModel {
    let idle = NodeModel { children_loading: false, ..node };
    if node.scan_state == ScanState::Queued || node.scan_state == ScanState::Scanning {
        let reset = NodeModel { scan_state: ScanState::NotScanned, ..idle };
        if forget {
            NodeModel { usage: None, cached: false, ..reset }
        } else {
            reset
        }
    } else {
        idle
    }
}

/// The tree with nothing going on.
pub open spec fn stopped_tree(tree: TreeModel, forget: bool) -> TreeModel {
    TreeModel {
        nodes: Map::new(
            |id: NodeId| tree.nodes.contains_key(id),
            |id: NodeId| stopped_node(tree.nodes[id], forget),
        ),
        ..tree
    }
}

impl AppModel {
    /// The state after all work under way has been given up.
    pub open spec fn generation_advanced(self) -> AppModel {
        let next = (self.generation + 1) as u64;
        (AppModel { generation: next, ..self }).asked(EffectModel::SetGeneration(next))
    }

    pub open spec fn jobs_stopped(self, forget: bool) -> AppModel {
        AppModel { pending_jobs: 0, tree: stopped_tree(self.tree, forget), ..self }
    }

    pub open spec fn is_analyzing(self) -> bool {
        self.analysis_status == AnalysisStatus::Indexing || self.analysis_status
            == AnalysisStatus::Hashing
    }

    pub open spec fn sort_forgotten(self) -> AppModel {
        AppModel { sort_dirty: false, ..self }
    }

    /// The state with the analysis given up, if it was under way.
    pub open spec fn analysis_stopped(self) -> AppModel {
        if !self.is_analyzing() {
            self
        } else if self.has_complete_index() {
            self.with_status(AnalysisStatus::Ready)
        } else {
            self.with_status(AnalysisStatus::Idle)
        }
    }

    /// The state after the scan has been cancelled.
    pub open spec fn scan_cancelled(self) -> AppModel {
        if self.pending_jobs == 0 && !self.is_analyzing() {
            self.noticed("No active scan"@)
        } else if self.generation == u64::MAX {
            self.failed("Scan generation overflow"@)
        } else {
            self.generation_advanced().jobs_stopped(
                true,
            ).sort_forgotten().analysis_stopped().noticed(
                "Cancelled "@ + text::decimal(self.pending_jobs as nat) + " tree job(s)"@ + (
                if self.is_analyzing() {
                    " and full analysis"@
                } else {
                    ""@
                }),
            ).rebuilt()
        }
    }

    /// The state with the parent of the root asked for.
    pub open spec fn parent_wanted(self) -> AppModel {
        match path::parent_of(self.root@) {
            Some(parent) => self.asked(EffectModel::OpenParent { parent }),
            None => self.noticed("Already at filesystem root"@),
        }
    }

    /// The state with the parent of the root found on disk, or an error shown.
    pub open spec fn parent_found(self, parent: Result<FilePath, String>) -> AppModel {
        match parent {
            Ok(parent) => self.asked(
                EffectModel::OpenRoot {
                    root: parent,
                    select: Some(self.root),
                    notice: Some("Opened parent directory"@),
                    warning: None,
                },
            ),
            Err(message) => self.failed("Could not open parent directory: "@ + message@),
        }
    }

    /// The state with a fresh scan of the root asked for.
    pub open spec fn refresh_wanted(self, warning: Option<Seq<char>>) -> AppModel {
        self.subtree_uncached(self.root@).asked(
            EffectModel::OpenRoot {
                root: self.root,
                select: None,
                notice: Some("Refreshing current root without cache"@),
                warning,
            },
        )
    }

    /// The state with another root, of which nothing is known yet.
    pub open spec fn tree_replaced(self, root: FilePath, id: NodeId, device: u64) -> AppModel {
        AppModel {
            root_device: device,
            root,
            tree: tree::only_root(root, id),
            visible: Seq::empty(),
            selected: None,
            scroll_offset: 0,
            ..self
        }
    }

    /// The state with nothing counted and nothing marked.
    pub open spec fn counts_reset(self, notice: Option<Seq<char>>) -> AppModel {
        AppModel {
            pending_jobs: 0,
            errors: 0,
            notice,
            marked: Seq::empty(),
            cache_hits: 0,
            mounts_skipped: 0,
            ..self
        }
    }

    /// The state without an analysis.
    pub open spec fn analysis_reset(self) -> AppModel {
        AppModel {
            analysis_status: AnalysisStatus::Idle,
            comparison: None,
            ..self.index_dropped().rows_cleared()
        }
    }

    /// The state in its normal mode, with nothing searched for.
    pub open spec fn modes_reset(self, select: Option<FilePath>) -> AppModel {
        AppModel {
            mode: ModeModel::Browse,
            sort_dirty: false,
            last_sort: self.clock.millis,
            filter_query: None,
            search_query: None,
            pending_select_path: select,
            ..self
        }
    }

    /// The state with another root. What was marked, searched for and analyzed
    /// belonged to the old one.
    pub open spec fn with_root(
        self,
        root: FilePath,
        id: NodeId,
        device: u64,
        select: Option<FilePath>,
        notice: Option<Seq<char>>,
    ) -> AppModel {
        self.tree_replaced(root, id, device).counts_reset(notice).analysis_reset().modes_reset(
            select,
        )
    }

    /// The state with another root on the screen, and what went wrong. `device`
    /// and `watcher` are what came of asking for the device and of watching the
    /// new root; `id` names its node.
    #[verifier::opaque]
    pub open spec fn root_switched(
        self,
        root: FilePath,
        id: NodeId,
        select: Option<FilePath>,
        notice: Option<Seq<char>>,
        device: Result<u64, Seq<char>>,
        watcher: Result<(), Seq<char>>,
    ) -> (AppModel, Option<Seq<char>>) {
        if self.generation == u64::MAX {
            (self, Some("Scan generation overflow"@))
        } else {
            let advanced = self.generation_advanced();
            match device {
                Err(message) => (advanced, Some(message)),
                Ok(device) => {
                    let fresh = advanced.with_root(root, id, device, select, notice);
                    match watcher {
                        Err(message) => (fresh, Some(message)),
                        Ok(_) => match fresh.load_error(id) {
                            Some(message) => (fresh, Some(message)),
                            None => (
                                fresh.children_queued(id).analysis_ensured_if_shown(),
                                None,
                            ),
                        },
                    }
                },
            }
        }
    }

    /// The state after another root has been opened.
    pub open spec fn root_opened(
        self,
        root: FilePath,
        id: NodeId,
        select: Option<FilePath>,
        notice: Option<Seq<char>>,
        warning: Option<Seq<char>>,
        device: Result<u64, Seq<char>>,
        watcher: Result<(), Seq<char>>,
    ) -> AppModel {
        let (state, error) = self.root_switched(root, id, select, notice, device, watcher);
        state.opening_reported(error, warning)
    }

    /// The state with what went wrong, and a warning.
    pub open spec fn opening_reported(
        self,
        error: Option<Seq<char>>,
        warning: Option<Seq<char>>,
    ) -> AppModel {
        match error {
            Some(message) => self.failed(message).noticed_if(warning),
            None => self.noticed_if(warning),
        }
    }

    pub open spec fn with_watching(self, enabled: bool) -> AppModel {
        AppModel { watch_enabled: enabled, ..self }
    }

    /// The state with watching ended, or asked for.
    pub open spec fn watcher_toggled(self) -> AppModel {
        if self.watch_enabled {
            self.asked(EffectModel::StopWatcher).with_watching(false).noticed(
                "Filesystem watcher disabled"@,
            )
        } else {
            self.asked(EffectModel::StartWatcher { root: self.root })
        }
    }

    /// The state after watching has begun, or could not.
    pub open spec fn watcher_begun(self, result: Result<(), Seq<char>>) -> AppModel {
        match result {
            Ok(_) => self.with_watching(true).noticed("Filesystem watcher enabled"@),
            Err(message) => self.failed(message),
        }
    }

    /// The state with the writing of the index asked for. Without a complete
    /// index there is nothing to write yet.
    pub open spec fn export_wanted(self, path: Seq<u8>) -> AppModel {
        if self.has_complete_index() {
            self.asked(EffectModel::Export { path })
        } else {
            self.noticed(
                "A complete analysis is required; building it now, then press e again"@,
            ).analysis_ensured()
        }
    }

    /// The state after the index has been written, or could not.
    pub open spec fn export_done(self, path: Seq<u8>, result: Result<(), Seq<char>>) -> AppModel {
        match result {
            Ok(_) => self.noticed("Exported "@ + text::lossy_text(path)),
            Err(message) => self.failed("Export failed: "@ + message),
        }
    }
}

/// What went wrong, if anything did.
pub open spec fn error_of(result: Result<(), String>) -> Option<Seq<char>> {
    match result {
        Ok(_) => None,
        Err(message) => Some(message@),
    }
}

pub open spec fn device_view(device: Result<u64, String>) -> Result<u64, Seq<char>> {
    match device {
        Ok(device) => Ok(device),
        Err(message) => Err(message@),
    }
}

fn stop_nodes(tree: &mut Tree, forget: bool)
    requires
        tree::is_tree(old(tree)@),
    ensures
        tree::is_tree(final(tree)@),
        final(tree)@ == stopped_tree(old(tree)@, forget),
{
    let ghost before = tree@;
    let ids = tree.ids();
    let mut i: usize = 0;
    while i < ids.len()
        invariant
            i <= ids@.len(),
            tree::is_tree(tree@),
            tree@.root == before.root,
            tree@.nodes.dom() == before.nodes.dom(),
            ids@.no_duplicates(),
            forall|id: NodeId| ids@.contains(id) <==> before.nodes.contains_key(id),
            forall|j: int|
                0 <= j < i ==> tree@.nodes[#[trigger] ids@[j]] == stopped_node(
                    before.nodes[ids@[j]],
                    forget,
                ),
            forall|j: int|
                i <= j < ids@.len() ==> tree@.nodes[#[trigger] ids@[j]] == before.nodes[ids@[j]],
        decreases ids@.len() - i,
    {
        let id: NodeId = ids[i];
        assert(ids@.contains(ids@[i as int]));
        let ghost middle = tree@;
        proof {
            tree::lemma_with_same_links(middle, id, stopped_node(middle.nodes[id], forget));
        }
        stop_node(tree, id, forget);
        i += 1;
    }
    proof {
        let after = stopped_tree(before, forget);
        assert forall|id: NodeId| before.nodes.contains_key(id) implies tree@.nodes[id]
            == after.nodes[id] by {
            assert(ids@.contains(id));
            let j = choose|j: int| 0 <= j < ids@.len() && ids@[j] == id;
            assert(tree@.nodes[ids@[j]] == stopped_node(before.nodes[ids@[j]], forget));
        }
        assert(tree@.nodes =~= after.nodes);
    }
}

fn stop_node(tree: &mut Tree, id: NodeId, forget: bool)
    requires
        old(tree)@.nodes.contains_key(id),
    ensures
        final(tree)@ == tree::with_node(
            old(tree)@,
            id,
            stopped_node(old(tree)@.nodes[id], forget),
        ),
{
    let node = tree.node_mut(id);
    node.children_loading = false;
    if node.scan_state == ScanState::Queued || node.scan_state == ScanState::Scanning {
        node.scan_state = ScanState::NotScanned;
        if forget {
            node.usage = None;
            node.cached = false;
        }
    }
}

impl App {
    /// Gives up all work under way. Generations are counted; at the end of the
    /// count there is an error.
    pub(crate) fn advance_generation(&mut self) -> (result: Result<(), String>)
        requires
            old(self).wf(),
        ensures
            final(self).wf(),
            match result {
                Ok(_) => old(self).generation < u64::MAX && final(self)@
                    == old(self)@.generation_advanced(),
                Err(message) => old(self).generation == u64::MAX && final(self)@ == old(self)@
                    && message@ == "Scan generation overflow"@,
            },
    {
        if self.generation == u64::MAX {
            return Err("Scan generation overflow".to_owned());
        }
        self.generation = self.generation + 1;
        self.ask(Effect::SetGeneration(self.generation));
        Ok(())
    }

    pub(crate) fn stop_jobs(&mut self, forget: bool)
        requires
            old(self).wf(),
        ensures
            final(self).wf(),
            final(self)@ == old(self)@.jobs_stopped(forget),
    {
        stop_nodes(&mut self.tree, forget);
        self.pending_jobs = 0;
    }

    fn forget_sort(&mut self)
        requires
            old(self).wf(),
        ensures
            final(self).wf(),
            final(self)@ == old(self)@.sort_forgotten(),
    {
        self.sort_dirty = false;
    }

    fn analyzing(&self) -> (result: bool)
        ensures
            result == self@.is_analyzing(),
    {
        self.analysis_status == AnalysisStatus::Indexing || self.analysis_status
            == AnalysisStatus::Hashing
    }

    fn stop_analysis(&mut self)
        requires
            old(self).wf(),
        ensures
            final(self).wf(),
            final(self)@ == old(self)@.analysis_stopped(),
    {
        if !self.analyzing() {
            return ;
        }
        if self.index_is_complete() {
            self.set_status(AnalysisStatus::Ready);
        } else {
            self.set_status(AnalysisStatus::Idle);
        }
    }

    /// Cancels the scan and the analysis.
    pub fn cancel_scan(&mut self)
        requires
            old(self).wf(),
        ensures
            final(self).wf(),
            final(self)@ == old(self)@.scan_cancelled(),
    {
        let active: bool = self.analyzing();
        if self.pending_jobs == 0 && !active {
            self.say("No active scan");
            return ;
        }
        let mut message = "Cancelled ".to_owned();
        text::push_count(&mut message, self.pending_jobs);
        message.append(" tree job(s)");
        message.append(
            if active {
                " and full analysis"
            } else {
                ""
            },
        );
        if let Err(error) = self.advance_generation() {
            self.show_error(error);
            return ;
        }
        self.stop_jobs(true);
        self.forget_sort();
        self.stop_analysis();
        self.say(message.as_str());
        self.rebuild_visible();
    }

    /// Asks for the parent of the root.
    pub fn navigate_parent(&mut self)
        requires
            old(self).wf(),
        ensures
            final(self).wf(),
            final(self)@ == old(self)@.parent_wanted(),
    {
        match self.root.parent() {
            Some(parent) => {
                self.ask(Effect::OpenParent { parent });
            },
            None => {
                self.say("Already at filesystem root");
            },
        }
    }

    /// Takes in the parent of the root as it is found on disk.
    pub fn open_parent(&mut self, parent: Result<FilePath, String>)
        requires
            old(self).wf(),
        ensures
            final(self).wf(),
            final(self)@ == old(self)@.parent_found(parent),
    {
        match parent {
            Ok(parent) => {
                let effect = Effect::OpenRoot {
                    root: parent,
                    select: Some(self.root.clone()),
                    notice: Some("Opened parent directory".to_owned()),
                    warning: None,
                };
                self.ask(effect);
            },
            Err(message) => {
                let mut told = "Could not open parent directory: ".to_owned();
                told.append(message.as_str());
                self.show_error(told);
            },
        }
    }

    pub(crate) fn refresh_with(&mut self, warning: Option<String>)
        requires
            old(self).wf(),
        ensures
            final(self).wf(),
            final(self)@ == old(self)@.refresh_wanted(tree::text_view(warning)),
    {
        let root = self.root.clone();
        self.uncache_subtree(&root);
        let effect = Effect::OpenRoot {
            root,
            select: None,
            notice: Some("Refreshing current root without cache".to_owned()),
            warning,
        };
        self.ask(effect);
    }

    /// Asks for a fresh scan of the root.
    pub fn refresh_root(&mut self)
        requires
            old(self).wf(),
        ensures
            final(self).wf(),
            final(self)@ == old(self)@.refresh_wanted(None),
    {
        self.refresh_with(None);
    }
}

impl App {
    fn replace_tree(&mut self, root: FilePath, device: u64)
        requires
            old(self).wf(),
        ensures
            final(self).wf(),
            final(self)@ == old(self)@.tree_replaced(root, final(self)@.tree.root, device),
    {
        let tree = Tree::new(root.clone());
        self.root_device = device;
        self.root = root;
        self.tree = tree;
        self.visible = Vec::new();
        self.selected = None;
        self.scroll_offset = 0;
        assert(self.visible@ =~= Seq::empty());
    }

    fn reset_counts(&mut self, notice: Option<String>)
        requires
            old(self).wf(),
        ensures
            final(self).wf(),
            final(self)@ == old(self)@.counts_reset(tree::text_view(notice)),
    {
        self.pending_jobs = 0;
        self.errors = 0;
        self.notice = notice;
        proof {
            screen::lemma_nothing_distinct();
        }
        self.marked = Vec::new();
        self.cache_hits = 0;
        self.mounts_skipped = 0;
        assert(self.marked@ =~= Seq::empty());
    }

    fn reset_analysis(&mut self)
        requires
            old(self).wf(),
        ensures
            final(self).wf(),
            final(self)@ == old(self)@.analysis_reset(),
    {
        self.drop_index();
        self.clear_rows();
        self.analysis_status = AnalysisStatus::Idle;
        self.comparison = None;
    }

    fn reset_modes(&mut self, select: Option<FilePath>)
        requires
            old(self).wf(),
        ensures
            final(self).wf(),
            final(self)@ == old(self)@.modes_reset(select),
    {
        self.mode = AppMode::Browse;
        self.sort_dirty = false;
        self.last_sort = self.clock.millis;
        self.filter_query = None;
        self.search_query = None;
        self.pending_select_path = select;
    }

    fn begin_root(
        &mut self,
        root: FilePath,
        device: u64,
        select: Option<FilePath>,
        notice: Option<String>,
    )
        requires
            old(self).wf(),
        ensures
            final(self).wf(),
            final(self)@ == old(self)@.with_root(
                root,
                final(self)@.tree.root,
                device,
                select,
                tree::text_view(notice),
            ),
    {
        self.replace_tree(root, device);
        self.reset_counts(notice);
        self.reset_analysis();
        self.reset_modes(select);
    }

    /// Brings another root to the screen.
    fn switch_root(
        &mut self,
        root: FilePath,
        select: Option<FilePath>,
        notice: Option<String>,
        device: Result<u64, String>,
        watcher: Result<(), String>,
    ) -> (result: Result<(), String>)
        requires
            old(self).wf(),
        ensures
            final(self).wf(),
            old(self)@.root_switched(
                root,
                final(self)@.tree.root,
                select,
                tree::text_view(notice),
                device_view(device),
                delete::unit_result(watcher),
            ) == (final(self)@, error_of(result)),
    {
        proof {
            reveal(AppModel::root_switched);
        }
        if let Err(message) = self.advance_generation() {
            return Err(message);
        }
        let device: u64 = match device {
            Ok(device) => device,
            Err(message) => {
                return Err(message);
            },
        };
        self.begin_root(root, device, select, notice);
        if let Err(message) = watcher {
            return Err(message);
        }
        let id = self.tree.root_id;
        let ghost fresh = self@;
        if let Err(message) = self.queue_children(id) {
            return Err(message);
        }
        self.ensure_analysis_if_shown();
        proof {
            lemma_root_kept(fresh, id);
        }
        Ok(())
    }

    /// Opens another root. `device` and `watcher` are what came of asking for
    /// its device and of watching it, if it is to be watched.
    pub fn open_root(
        &mut self,
        root: FilePath,
        select: Option<FilePath>,
        notice: Option<String>,
        warning: Option<String>,
        device: Result<u64, String>,
        watcher: Result<(), String>,
    )
        requires
            old(self).wf(),
        ensures
            final(self).wf(),
            final(self)@ == old(self)@.root_opened(
                root,
                final(self)@.tree.root,
                select,
                tree::text_view(notice),
                tree::text_view(warning),
                device_view(device),
                delete::unit_result(watcher),
            ),
    {
        let result = self.switch_root(root, select, notice, device, watcher);
        self.report_opening(result, warning);
    }

    fn report_opening(&mut self, result: Result<(), String>, warning: Option<String>)
        requires
            old(self).wf(),
        ensures
            final(self).wf(),
            final(self)@.tree == old(self)@.tree,
            final(self)@ == old(self)@.opening_reported(
                error_of(result),
                tree::text_view(warning),
            ),
    {
        if let Err(message) = result {
            self.show_error(message);
        }
        self.say_if(&warning);
    }

    fn set_watching(&mut self, enabled: bool)
        requires
            old(self).wf(),
        ensures
            final(self).wf(),
            final(self)@ == old(self)@.with_watching(enabled),
    {
        self.watch_enabled = enabled;
    }

    /// Ends watching, or asks for it.
    pub fn toggle_watcher(&mut self)
        requires
            old(self).wf(),
        ensures
            final(self).wf(),
            final(self)@ == old(self)@.watcher_toggled(),
    {
        if self.watch_enabled {
            self.ask(Effect::StopWatcher);
            self.set_watching(false);
            self.say("Filesystem watcher disabled");
            return ;
        }
        let effect = Effect::StartWatcher { root: self.root.clone() };
        self.ask(effect);
    }

    /// Takes in whether watching has begun.
    pub fn watcher_started(&mut self, result: Result<(), String>)
        requires
            old(self).wf(),
        ensures
            final(self).wf(),
            final(self)@ == old(self)@.watcher_begun(delete::unit_result(result)),
    {
        match result {
            Ok(_) => {
                self.set_watching(true);
                self.say("Filesystem watcher enabled");
            },
            Err(message) => {
                self.show_error(message);
            },
        }
    }

    /// Asks for the index to be written to a file.
    pub fn export_analysis(&mut self, path: FilePath)
        requires
            old(self).wf(),
        ensures
            final(self).wf(),
            final(self)@ == old(self)@.export_wanted(path@),
    {
        if self.index_is_complete() {
            self.ask(Effect::Export { path });
            return ;
        }
        self.say("A complete analysis is required; building it now, then press e again");
        self.ensure_analysis();
    }

    /// Takes in whether the index has been written.
    pub fn export_finished(&mut self, path: &FilePath, result: Result<(), String>)
        requires
            old(self).wf(),
        ensures
            final(self).wf(),
            final(self)@ == old(self)@.export_done(path@, delete::unit_result(result)),
    {
        match result {
            Ok(_) => {
                self.say_with("Exported ", path.display().as_str());
            },
            Err(message) => {
                let mut told = "Export failed: ".to_owned();
                told.append(message.as_str());
                self.show_error(told);
            },
        }
    }
}

/// Asking for the entries of the root does not change which node it is.
proof fn lemma_root_kept(state: AppModel, id: NodeId)
    ensures
        state.children_queued(id).tree.root == state.tree.root,
        state.children_queued(id).analysis_ensured_if_shown().tree.root == state.tree.root,
{
}

/// Cancelling goes over to the next generation, so that no report of the old one
/// counts any more, and leaves no job. What waited or was being measured is as it
/// was before, without a size; what was measured keeps its size.
pub proof fn cancelling_leaves_no_job(state: AppModel)
    requires
        state.pending_jobs > 0 || state.analysis_status == AnalysisStatus::Indexing
            || state.analysis_status == AnalysisStatus::Hashing,
        state.generation < u64::MAX,
    ensures
        ({
            let after = state.scan_cancelled();
            &&& after.generation == state.generation + 1
            &&& after.pending_jobs == 0
            &&& !after.sort_dirty
            &&& after.effects == state.effects.push(
                EffectModel::SetGeneration((state.generation + 1) as u64),
            )
            &&& state.analysis_status == AnalysisStatus::Indexing || state.analysis_status
                == AnalysisStatus::Hashing ==> after.analysis_status == (
            if state.analysis_index is Some && state.analysis_index->0.complete {
                AnalysisStatus::Ready
            } else {
                AnalysisStatus::Idle
            })
            &&& after.cache == state.cache && after.marked == state.marked
        }),
{
}

/// A stopped node is no longer being read; where it was being measured it has to
/// be measured again.
pub proof fn stopped_nodes_wait_again(node: NodeModel, forget: bool)
    ensures
        ({
            let after = stopped_node(node, forget);
            let busy = node.scan_state == ScanState::Queued || node.scan_state
                == ScanState::Scanning;
            &&& !after.children_loading
            &&& busy ==> after.scan_state == ScanState::NotScanned
            &&& busy && forget ==> after.usage is None && !after.cached
            &&& busy && !forget ==> after.usage == node.usage && after.cached == node.cached
            &&& !busy ==> after.scan_state == node.scan_state && after.usage == node.usage
                && after.cached == node.cached
            &&& after.children == node.children && after.expanded == node.expanded && after.path
                == node.path && after.scan_revision == node.scan_revision
        }),
{
}

/// Without work under way there is nothing to cancel.
pub proof fn nothing_under_way_is_not_cancelled(state: AppModel)
    requires
        state.pending_jobs == 0,
        state.analysis_status == AnalysisStatus::Idle || state.analysis_status
            == AnalysisStatus::Ready,
    ensures
        state.scan_cancelled() == state.noticed("No active scan"@),
{
}

/// The parent of the root is asked for where there is one.
pub proof fn the_parent_is_asked_for(state: AppModel)
    ensures
        path::parent_of(state.root@) is Some ==> state.parent_wanted() == state.asked(
            EffectModel::OpenParent { parent: path::parent_of(state.root@)->0 },
        ),
        path::parent_of(state.root@) is None ==> state.parent_wanted() == state.noticed(
            "Already at filesystem root"@,
        ),
{
}

/// A refresh asks for the same root again.
pub proof fn a_refresh_asks_for_the_same_root(state: AppModel, warning: Option<Seq<char>>)
    ensures
        ({
            let after = state.refresh_wanted(warning);
            &&& after.effects == state.effects.push(
                EffectModel::OpenRoot {
                    root: state.root,
                    select: None,
                    notice: Some("Refreshing current root without cache"@),
                    warning,
                },
            )
            &&& after.cache == state.cache.without_subtree(state.root@)
            &&& after.tree == state.tree
        }),
{
}

/// The watch is turned off at once, and on when it has begun.
pub proof fn the_watch_is_on_when_it_has_begun(state: AppModel, message: Seq<char>)
    ensures
        state.watch_enabled ==> !state.watcher_toggled().watch_enabled
            && state.watcher_toggled().effects == state.effects.push(EffectModel::StopWatcher),
        !state.watch_enabled ==> !state.watcher_toggled().watch_enabled
            && state.watcher_toggled().effects == state.effects.push(
            EffectModel::StartWatcher { root: state.root },
        ),
        state.watcher_begun(Ok(())).watch_enabled,
        state.watcher_begun(Err(message)).watch_enabled == state.watch_enabled,
        state.watcher_begun(Err(message)).mode == ModeModel::ErrorDialog(message),
{
}

/// Only a complete index is exported; else one is built.
pub proof fn only_a_complete_index_is_exported(state: AppModel, path: Seq<u8>)
    ensures
        state.analysis_index is Some && state.analysis_index->0.complete ==> state.export_wanted(
            path,
        ).effects == state.effects.push(EffectModel::Export { path }),
        state.analysis_index is None || !state.analysis_index->0.complete ==> state.export_wanted(
            path,
        ) == state.noticed(
            "A complete analysis is required; building it now, then press e again"@,
        ).analysis_ensured(),
{
}

/// An export is told by its path or by what went wrong.
pub proof fn exports_are_told(state: AppModel, path: Seq<u8>, message: Seq<char>)
    ensures
        state.export_done(path, Ok(())).notice == Some("Exported "@ + text::lossy_text(path)),
        state.export_done(path, Ok(())).mode == state.mode,
        state.export_done(path, Err(message)).mode == ModeModel::ErrorDialog(
            "Export failed: "@ + message,
        ),
{
}

} // verus!
