//! Scanning directories in the tree view.
use vstd::prelude::*;
use vstd::string::StringExecFns;

use crate::app;
use crate::app::{App, AppModel, Effect, EffectModel};
use crate::lists;
use crate::path;
use crate::path::FilePath;
use crate::scanner::{DiscoveredEntry, LoadOutcome, OutcomeModel, ScanOptions, ScanOutcome};
use crate::text;
use crate::tree;
use crate::tree::{
    FileIdentity, NodeId, NodeKind, NodeModel, ScanState, Tree, TreeModel, UsageStats, NODE_LIMIT,
};
use crate::worker::{ScanJob, WorkerEvent};

verus! {

/// How often the tree is put in order while a scan goes on, in milliseconds.
pub const SORT_INTERVAL: u64 = 200;

/// A count with one more, up to the largest.
pub open spec fn one_more(count: usize) -> usize {
    if count < usize::MAX {
        (count + 1) as usize
    } else {
        count
    }
}

/// The sum of two counts, up to the largest.
pub open spec fn sum_of(first: usize, second: usize) -> usize {
    if first + second > usize::MAX {
        usize::MAX
    } else {
        (first + second) as usize
    }
}

/// The difference of two counts, down to zero.
pub open spec fn one_less(count: usize) -> usize {
    if count > 0 {
        (count - 1) as usize
    } else {
        0
    }
}

/// A directory whose size was asked for: nothing is known of it.
pub open spec fn queued_node(node: NodeModel, revision: u64) -> NodeModel {
    NodeModel {
        scan_revision: revision,
        scan_state: ScanState::Queued,
        usage: None,
        cached: false,
        error: None,
        warning_count: 0,
        ..node
    }
}

impl AppModel {
    pub open spec fn options(self) -> ScanOptions {
        ScanOptions { root_device: self.root_device, one_file_system: self.one_file_system }
    }

    /// The state with another node in the tree.
    pub open spec fn with_node(self, id: NodeId, node: NodeModel) -> AppModel {
        AppModel { tree: tree::with_node(self.tree, id, node), ..self }
    }

    /// The state with one more job under way.
    pub open spec fn job_added(self) -> AppModel {
        AppModel { pending_jobs: one_more(self.pending_jobs), ..self }
    }

    /// The state with nothing in the cache for a path.
    pub open spec fn uncached(self, path: Seq<u8>) -> AppModel {
        AppModel { cache: self.cache.without_path(path), ..self }
    }

    /// Whether the entries of a directory still have to be asked for. Mount
    /// points are not read.
    pub open spec fn can_load(self, id: NodeId) -> bool {
        &&& self.tree.nodes.contains_key(id)
        &&& !self.tree.nodes[id].children_loaded
        &&& !self.tree.nodes[id].children_loading
        &&& self.tree.nodes[id].kind == NodeKind::Directory
        &&& !self.tree.nodes[id].mountpoint
    }

    /// Why the entries of a directory cannot be asked for.
    pub open spec fn load_error(self, id: NodeId) -> Option<Seq<char>> {
        if self.can_load(id) && self.stopped.scan {
            Some(app::scan_stopped())
        } else {
            None
        }
    }

    /// The state with the entries of a directory asked for, or an error shown.
    pub open spec fn read(self, id: NodeId) -> AppModel {
        match self.load_error(id) {
            Some(message) => self.failed(message),
            None => self.children_queued(id),
        }
    }

    /// The state with the entries of a directory asked for.
    pub open spec fn children_queued(self, id: NodeId) -> AppModel {
        if self.can_load(id) && !self.stopped.scan {
            let node = self.tree.nodes[id];
            let job = ScanJob::LoadChildren {
                generation: self.generation,
                node_id: id,
                path: node.path,
                options: self.options(),
            };
            self.with_node(id, NodeModel { children_loading: true, ..node }).job_added().asked(
                EffectModel::Scan(job),
            )
        } else {
            self
        }
    }

    /// Whether a directory is to be measured.
    pub open spec fn can_measure(self, id: NodeId, force: bool) -> bool {
        &&& self.tree.nodes.contains_key(id)
        &&& self.tree.nodes[id].kind == NodeKind::Directory
        &&& !self.tree.nodes[id].mountpoint
        &&& force || self.tree.nodes[id].scan_state == ScanState::NotScanned
            || self.tree.nodes[id].scan_state == ScanState::Error
    }

    /// Why a directory cannot be measured once more.
    pub open spec fn measure_error(self, id: NodeId, force: bool) -> Option<Seq<char>> {
        if self.can_measure(id, force) && self.tree.nodes[id].scan_revision == u64::MAX {
            Some("Scan revision overflow for "@ + text::lossy_text(self.tree.nodes[id].path@))
        } else if self.can_measure(id, force) && self.stopped.scan {
            Some(app::scan_stopped())
        } else {
            None
        }
    }

    /// The state with the size of a directory asked for. What was known of it
    /// is forgotten, so that no earlier answer can be taken for this one. Where
    /// the workers take no job, that leaves a directory that was not measured.
    pub open spec fn size_queued(self, id: NodeId, force: bool) -> AppModel {
        if self.can_measure(id, force) && self.tree.nodes[id].scan_revision < u64::MAX {
            let node = self.tree.nodes[id];
            let revision = (node.scan_revision + 1) as u64;
            let job = ScanJob::CalculateSize {
                generation: self.generation,
                node_id: id,
                scan_revision: revision,
                path: node.path,
                options: self.options(),
            };
            let queued = queued_node(node, revision);
            let cleared = self.with_node(
                id,
                if self.stopped.scan {
                    NodeModel { scan_state: ScanState::Error, ..queued }
                } else {
                    queued
                },
            );
            let forgotten = if force {
                cleared.uncached(node.path@)
            } else {
                cleared
            };
            if self.stopped.scan {
                forgotten
            } else {
                forgotten.job_added().asked(EffectModel::Scan(job))
            }
        } else {
            self
        }
    }

    /// The state with the size of a directory asked for, or an error shown.
    pub open spec fn measured(self, id: NodeId, force: bool) -> AppModel {
        match self.measure_error(id, force) {
            Some(message) => self.size_queued(id, force).failed(message),
            None => self.size_queued(id, force),
        }
    }

    /// The state with the sizes of directories asked for, one after the other.
    pub open spec fn all_measured(self, ids: Seq<NodeId>, force: bool) -> AppModel
        decreases ids.len(),
    {
        if ids.len() == 0 {
            self
        } else {
            self.all_measured(ids.drop_last(), force).measured(ids.last(), force)
        }
    }

    /// The state after a job has come to its end.
    pub open spec fn job_done(self) -> AppModel {
        AppModel { pending_jobs: one_less(self.pending_jobs), ..self }
    }

    /// The state after some problems, the first of which is told.
    pub open spec fn warned(self, count: usize, message: Option<Seq<char>>) -> AppModel {
        AppModel {
            errors: sum_of(self.errors, count),
            notice: if count > 0 && message is Some {
                message
            } else {
                self.notice
            },
            ..self
        }
    }

    /// What the cache knows of a directory that was found.
    pub open spec fn cache_hit(self, entry: DiscoveredEntry) -> Option<UsageStats> {
        if entry.kind == NodeKind::Directory && !entry.mountpoint {
            match entry.identity {
                Some(identity) => self.cache.found(
                    entry.path@,
                    identity,
                    self.one_file_system,
                    self.clock.seconds,
                ),
                None => None,
            }
        } else {
            None
        }
    }

    /// Whether an entry that was found has to be measured.
    pub open spec fn must_measure(self, entry: DiscoveredEntry) -> bool {
        entry.kind == NodeKind::Directory && !entry.mountpoint && self.cache_hit(entry) is None
    }

    /// The state with an entry added to a directory, under a new name.
    pub open spec fn entry_added(self, parent: NodeId, entry: DiscoveredEntry, id: NodeId) -> AppModel {
        let node = NodeModel::for_entry(entry, parent);
        let hit = self.cache_hit(entry);
        AppModel {
            tree: tree::with_child(
                self.tree,
                parent,
                id,
                if hit is Some {
                    NodeModel { usage: hit, scan_state: ScanState::Complete, cached: true, ..node }
                } else {
                    node
                },
            ),
            mounts_skipped: if entry.mountpoint {
                one_more(self.mounts_skipped)
            } else {
                self.mounts_skipped
            },
            cache_hits: if hit is Some {
                one_more(self.cache_hits)
            } else {
                self.cache_hits
            },
            sort_dirty: self.sort_dirty || hit is Some,
            ..self
        }
    }

    pub open spec fn entries_added(
        self,
        parent: NodeId,
        entries: Seq<DiscoveredEntry>,
        ids: Seq<NodeId>,
    ) -> AppModel
        decreases entries.len(),
    {
        if entries.len() == 0 {
            self
        } else {
            self.entries_added(parent, entries.drop_last(), ids.drop_last()).entry_added(
                parent,
                entries.last(),
                ids.last(),
            )
        }
    }

    /// The entries that have to be measured.
    pub open spec fn unmeasured(self, entries: Seq<DiscoveredEntry>, ids: Seq<NodeId>) -> Seq<NodeId>
        decreases entries.len(),
    {
        if entries.len() == 0 {
            Seq::empty()
        } else {
            let rest = self.unmeasured(entries.drop_last(), ids.drop_last());
            if self.must_measure(entries.last()) {
                rest.push(ids.last())
            } else {
                rest
            }
        }
    }
}

/// Whether names are new to a tree.
pub open spec fn fresh_ids(tree: TreeModel, ids: Seq<NodeId>) -> bool {
    &&& ids.no_duplicates()
    &&& forall|i: int| 0 <= i < ids.len() ==> !tree.nodes.contains_key(#[trigger] ids[i])
}

impl App {
    pub fn scan_options(&self) -> (options: ScanOptions)
        ensures
            options == self@.options(),
    {
        ScanOptions { root_device: self.root_device, one_file_system: self.one_file_system }
    }

    /// Asks for the entries of a directory.
    pub(crate) fn queue_children(&mut self, node_id: NodeId) -> (result: Result<(), String>)
        requires
            old(self).wf(),
        ensures
            final(self).wf(),
            final(self)@ == old(self)@.children_queued(node_id),
            match result {
                Ok(_) => old(self)@.load_error(node_id) is None,
                Err(message) => old(self)@.load_error(node_id) == Some(message@),
            },
    {
        let options = self.scan_options();
        let path = match self.tree.get(node_id) {
            Some(node) => {
                if node.children_loaded || node.children_loading || node.kind
                    != NodeKind::Directory || node.mountpoint {
                    return Ok(());
                }
                node.path.clone()
            },
            None => {
                return Ok(());
            },
        };
        if self.stopped.scan {
            return Err("Scan worker pool stopped unexpectedly".to_owned());
        }
        let ghost before = self@;
        proof {
            tree::lemma_with_same_links(
                before.tree,
                node_id,
                NodeModel { children_loading: true, ..before.tree.nodes[node_id] },
            );
        }
        let node = self.tree.node_mut(node_id);
        node.children_loading = true;
        self.add_job();
        let job = ScanJob::LoadChildren { generation: self.generation, node_id, path, options };
        self.ask(Effect::Scan(job));
        Ok(())
    }

    /// Asks for the entries of a directory, or shows an error.
    pub(crate) fn load(&mut self, node_id: NodeId)
        requires
            old(self).wf(),
        ensures
            final(self).wf(),
            final(self)@ == old(self)@.read(node_id),
    {
        if let Err(message) = self.queue_children(node_id) {
            self.show_error(message);
        }
    }

    pub(crate) fn queue_size(&mut self, node_id: NodeId) -> (result: Result<(), String>)
        requires
            old(self).wf(),
        ensures
            final(self).wf(),
            final(self)@ == old(self)@.size_queued(node_id, false),
            match result {
                Ok(_) => old(self)@.measure_error(node_id, false) is None,
                Err(message) => old(self)@.measure_error(node_id, false) == Some(message@),
            },
    {
        self.queue_size_with_mode(node_id, false)
    }

    pub(crate) fn rescan_size(&mut self, node_id: NodeId) -> (result: Result<(), String>)
        requires
            old(self).wf(),
        ensures
            final(self).wf(),
            final(self)@ == old(self)@.size_queued(node_id, true),
            match result {
                Ok(_) => old(self)@.measure_error(node_id, true) is None,
                Err(message) => old(self)@.measure_error(node_id, true) == Some(message@),
            },
    {
        self.queue_size_with_mode(node_id, true)
    }

    fn add_job(&mut self)
        requires
            old(self).wf(),
        ensures
            final(self).wf(),
            final(self)@ == old(self)@.job_added(),
    {
        self.pending_jobs = self.pending_jobs.saturating_add(1);
    }

    fn uncache(&mut self, path: &FilePath)
        requires
            old(self).wf(),
        ensures
            final(self).wf(),
            final(self)@ == old(self)@.uncached(path@),
    {
        self.cache.invalidate_path(path);
    }

    fn mark_queued(&mut self, node_id: NodeId, revision: u64, state: ScanState)
        requires
            old(self).wf(),
            old(self)@.tree.nodes.contains_key(node_id),
        ensures
            final(self).wf(),
            final(self)@ == old(self)@.with_node(
                node_id,
                NodeModel {
                    scan_state: state,
                    ..queued_node(old(self)@.tree.nodes[node_id], revision)
                },
            ),
    {
        let ghost before = self@;
        proof {
            tree::lemma_with_same_links(
                before.tree,
                node_id,
                NodeModel {
                    scan_state: state,
                    ..queued_node(before.tree.nodes[node_id], revision)
                },
            );
        }
        let node = self.tree.node_mut(node_id);
        node.scan_revision = revision;
        node.scan_state = state;
        node.usage = None;
        node.cached = false;
        node.error = None;
        node.warning_count = 0;
    }

    /// Asks for the size of a directory, if it is not known or if it has to be
    /// found out again.
    fn queue_size_with_mode(&mut self, node_id: NodeId, force: bool) -> (result: Result<
        (),
        String,
    >)
        requires
            old(self).wf(),
        ensures
            final(self).wf(),
            final(self)@ == old(self)@.size_queued(node_id, force),
            match result {
                Ok(_) => old(self)@.measure_error(node_id, force) is None,
                Err(message) => old(self)@.measure_error(node_id, force) == Some(message@),
            },
    {
        let options = self.scan_options();
        let (path, scan_revision) = match self.tree.get(node_id) {
            Some(node) => {
                if node.kind != NodeKind::Directory || node.mountpoint || !(force
                    || node.scan_state == ScanState::NotScanned || node.scan_state
                    == ScanState::Error) {
                    return Ok(());
                }
                if node.scan_revision == u64::MAX {
                    let mut message = "Scan revision overflow for ".to_owned();
                    message.append(node.path.display().as_str());
                    return Err(message);
                }
                (node.path.clone(), node.scan_revision + 1)
            },
            None => {
                return Ok(());
            },
        };
        let stopped: bool = self.stopped.scan;
        self.mark_queued(
            node_id,
            scan_revision,
            if stopped {
                ScanState::Error
            } else {
                ScanState::Queued
            },
        );
        if force {
            self.uncache(&path);
        }
        if stopped {
            return Err("Scan worker pool stopped unexpectedly".to_owned());
        }
        self.add_job();
        let job = ScanJob::CalculateSize {
            generation: self.generation,
            node_id,
            scan_revision,
            path,
            options,
        };
        self.ask(Effect::Scan(job));
        Ok(())
    }

    /// Asks for the size of a directory, or shows an error.
    pub(crate) fn measure(&mut self, node_id: NodeId)
        requires
            old(self).wf(),
        ensures
            final(self).wf(),
            final(self)@ == old(self)@.measured(node_id, false),
    {
        if let Err(message) = self.queue_size(node_id) {
            self.show_error(message);
        }
    }

    pub(crate) fn finish_job(&mut self)
        requires
            old(self).wf(),
        ensures
            final(self).wf(),
            final(self)@ == old(self)@.job_done(),
    {
        self.pending_jobs = self.pending_jobs.saturating_sub(1);
    }

    pub(crate) fn record_warnings(&mut self, count: usize, first_message: &Option<String>)
        requires
            old(self).wf(),
        ensures
            final(self).wf(),
            final(self)@ == old(self)@.warned(count, tree::text_view(*first_message)),
    {
        self.errors = self.errors.saturating_add(count);
        if count > 0 {
            if let Some(message) = first_message {
                self.notice = Some(message.clone());
            }
        }
    }
}
/// The nodes of a tree with a path.
pub open spec fn at_path(tree: TreeModel, path: Seq<u8>) -> spec_fn(NodeId) -> bool {
    |id: NodeId| path::same_path(tree.nodes[id].path@, path)
}

/// The first node with a path, in the order of the arena.
pub open spec fn node_at(tree: TreeModel, path: Seq<u8>) -> Option<NodeId> {
    lists::first_item(tree::slot_order(tree.nodes.dom()), at_path(tree, path))
}

/// Whether a node is a directory that a path lies in.
pub open spec fn leads_to(node: NodeModel, path: Seq<u8>) -> bool {
    node.kind == NodeKind::Directory && path::path_starts_with(path, node.path@)
}

/// Of the given nodes, the deepest directory that a path lies in; of several,
/// the last one.
pub open spec fn deepest_of(tree: TreeModel, ids: Seq<NodeId>, path: Seq<u8>) -> Option<NodeId>
    decreases ids.len(),
{
    if ids.len() == 0 {
        None
    } else {
        let best = deepest_of(tree, ids.drop_last(), path);
        let node = tree.nodes[ids.last()];
        if leads_to(node, path) && (best is None || path::components(node.path@).len()
            >= path::components(tree.nodes[best->0].path@).len()) {
            Some(ids.last())
        } else {
            best
        }
    }
}

/// The deepest directory of a tree that a path lies in.
pub open spec fn deepest(tree: TreeModel, path: Seq<u8>) -> Option<NodeId> {
    deepest_of(tree, tree::slot_order(tree.nodes.dom()), path)
}

impl AppModel {
    pub open spec fn expanded(self, id: NodeId) -> AppModel {
        self.with_node(id, NodeModel { expanded: true, ..self.tree.nodes[id] })
    }

    /// The state with a path selected that was asked for: if it is not loaded
    /// yet, the directory that leads to it is opened and read.
    pub open spec fn pending_applied(self) -> AppModel {
        match self.pending_select_path {
            None => self,
            Some(path) => match node_at(self.tree, path@) {
                Some(id) => (AppModel {
                    selected: Some(id),
                    tree: tree::opened_to(self.tree, id),
                    pending_select_path: None,
                    ..self
                }).rebuilt().scrolled(),
                None => match deepest(self.tree, path@) {
                    Some(id) => self.expanded(id).read(id),
                    None => self,
                },
            },
        }
    }

    /// The state after the measuring of a directory has begun.
    pub open spec fn size_started(self, id: NodeId, revision: u64) -> AppModel {
        if self.tree.nodes.contains_key(id) && self.tree.nodes[id].scan_revision == revision
            && self.tree.nodes[id].scan_state == ScanState::Queued {
            self.with_node(
                id,
                NodeModel { scan_state: ScanState::Scanning, ..self.tree.nodes[id] },
            )
        } else {
            self
        }
    }

    /// The state with a note on a directory that could not be read.
    pub open spec fn unread_noted(self, id: NodeId, message: Seq<char>) -> AppModel {
        if self.tree.nodes.contains_key(id) {
            let node = self.tree.nodes[id];
            self.with_node(
                id,
                NodeModel {
                    children_loading: false,
                    error: Some(message),
                    warning_count: one_more(node.warning_count),
                    scan_state: if id == self.tree.root {
                        ScanState::Error
                    } else {
                        node.scan_state
                    },
                    ..node
                },
            )
        } else {
            self
        }
    }

    /// The state after a directory could not be read.
    pub open spec fn load_failed(self, id: NodeId, message: Seq<char>) -> AppModel {
        self.job_done().warned(1, Some(message)).unread_noted(id, message).rebuilt()
    }

    /// The state with a note on a directory that was measured. A size that was
    /// found goes to the cache.
    pub open spec fn size_noted(self, id: NodeId, outcome: OutcomeModel) -> AppModel {
        let node = self.tree.nodes[id];
        let sized = self.with_node(id, measured_node(node, outcome));
        AppModel {
            mounts_skipped: sum_of(self.mounts_skipped, outcome.mounts_skipped),
            cache: match node.identity {
                Some(identity) => if outcome.fatal_error is None {
                    self.cache.with_usage(
                        node.path,
                        identity,
                        outcome.usage,
                        self.one_file_system,
                        self.clock.seconds,
                    )
                } else {
                    self.cache
                },
                None => self.cache,
            },
            sort_dirty: true,
            ..sized
        }
    }

    /// The state after a directory has been measured. An answer to an earlier
    /// question than the last one says nothing.
    pub open spec fn size_known(self, id: NodeId, revision: u64, outcome: OutcomeModel) -> AppModel {
        let done = self.job_done();
        if self.tree.nodes.contains_key(id) && self.tree.nodes[id].scan_revision == revision {
            done.warned(outcome.warnings.error_count, outcome.warnings.first_message).size_noted(
                id,
                outcome,
            )
        } else {
            done
        }
    }

    /// The state with a note on a directory whose entries were read.
    pub open spec fn read_noted(
        self,
        id: NodeId,
        count: usize,
        message: Option<Seq<char>>,
    ) -> AppModel {
        let node = self.tree.nodes[id];
        self.with_node(
            id,
            NodeModel {
                children_loading: false,
                children_loaded: true,
                warning_count: sum_of(node.warning_count, count),
                error: if node.error is None {
                    message
                } else {
                    node.error
                },
                ..node
            },
        )
    }

    /// The state with the children of a node in order.
    pub open spec fn children_sorted(self, id: NodeId) -> AppModel {
        AppModel { tree: tree::sorted_below(self.tree, id, self.sort, self.size_mode), ..self }
    }

    /// The state after the entries of a directory of the tree have been read,
    /// under new names: they are added and put in order, and the directories
    /// among them that the cache does not know are measured.
    pub open spec fn children_loaded(
        self,
        id: NodeId,
        entries: Seq<DiscoveredEntry>,
        count: usize,
        message: Option<Seq<char>>,
        ids: Seq<NodeId>,
    ) -> AppModel {
        let read = self.job_done().warned(count, message).read_noted(id, count, message);
        read.entries_added(id, entries, ids).children_sorted(id).all_measured(
            read.unmeasured(entries, ids),
            false,
        ).rebuilt().pending_applied()
    }
}

/// Whether one state follows from another when the entries of a directory have
/// been read: the entries get some new names. A directory that is no longer
/// there takes none.
pub open spec fn loads(
    before: AppModel,
    id: NodeId,
    entries: Seq<DiscoveredEntry>,
    count: usize,
    message: Option<Seq<char>>,
    after: AppModel,
) -> bool {
    if before.tree.nodes.contains_key(id) {
        exists|ids: Seq<NodeId>|
            {
                &&& ids.len() == entries.len()
                &&& fresh_ids(before.tree, ids)
                &&& after == #[trigger] before.children_loaded(id, entries, count, message, ids)
            }
    } else {
        after == before.job_done()
    }
}

/// A directory that was measured.
pub open spec fn measured_node(node: NodeModel, outcome: OutcomeModel) -> NodeModel {
    let noted = NodeModel {
        warning_count: outcome.warnings.error_count,
        error: if outcome.fatal_error is Some {
            outcome.fatal_error
        } else {
            outcome.warnings.first_message
        },
        ..node
    };
    if outcome.fatal_error is Some {
        NodeModel { usage: None, scan_state: ScanState::Error, ..noted }
    } else {
        NodeModel {
            usage: Some(outcome.usage),
            scan_state: ScanState::Complete,
            cached: false,
            ..noted
        }
    }
}

impl App {
    /// The first node with a path.
    pub(crate) fn find_node(&self, path: &FilePath) -> (found: Option<NodeId>)
        ensures
            found == node_at(self@.tree, path@),
            found matches Some(id) ==> self@.tree.nodes.contains_key(id),
    {
        let ids = self.tree.ids();
        let ghost wanted = at_path(self@.tree, path@);
        let mut i: usize = 0;
        while i < ids.len()
            invariant
                i <= ids@.len(),
                wanted == at_path(self@.tree, path@),
                ids@ == tree::slot_order(self@.tree.nodes.dom()),
                forall|id: NodeId| ids@.contains(id) <==> self@.tree.nodes.contains_key(id),
                forall|j: int| 0 <= j < i ==> !wanted(#[trigger] ids@[j]),
            decreases ids@.len() - i,
        {
            assert(ids@.contains(ids@[i as int]));
            if let Some(node) = self.tree.get(ids[i]) {
                if node.path.same(path) {
                    proof {
                        lists::lemma_first_index(ids@, wanted, i as int);
                    }
                    return Some(ids[i]);
                }
            }
            i += 1;
        }
        proof {
            lists::lemma_first_index(ids@, wanted, i as int);
        }
        None
    }

    /// The deepest directory that a path lies in.
    pub(crate) fn find_deepest(&self, path: &FilePath) -> (found: Option<NodeId>)
        ensures
            found == deepest(self@.tree, path@),
            found matches Some(id) ==> self@.tree.nodes.contains_key(id),
    {
        let ids = self.tree.ids();
        let mut best: Option<NodeId> = None;
        let mut best_depth: usize = 0;
        let mut i: usize = 0;
        while i < ids.len()
            invariant
                i <= ids@.len(),
                ids@ == tree::slot_order(self@.tree.nodes.dom()),
                forall|id: NodeId| ids@.contains(id) <==> self@.tree.nodes.contains_key(id),
                best == deepest_of(self@.tree, ids@.take(i as int), path@),
                best matches Some(id) ==> self@.tree.nodes.contains_key(id) && best_depth
                    == path::components(self@.tree.nodes[id].path@).len(),
            decreases ids@.len() - i,
        {
            assert(ids@.contains(ids@[i as int]));
            assert(ids@.take(i + 1).drop_last() =~= ids@.take(i as int));
            if let Some(node) = self.tree.get(ids[i]) {
                if node.kind == NodeKind::Directory && path.starts_with(&node.path) {
                    let depth: usize = node.path.depth();
                    if best.is_none() || depth >= best_depth {
                        best = Some(ids[i]);
                        best_depth = depth;
                    }
                }
            }
            i += 1;
        }
        assert(ids@.take(i as int) =~= ids@);
        best
    }

    pub(crate) fn expand(&mut self, node_id: NodeId)
        requires
            old(self).wf(),
            old(self)@.tree.nodes.contains_key(node_id),
        ensures
            final(self).wf(),
            final(self)@ == old(self)@.expanded(node_id),
    {
        let ghost before = self@;
        proof {
            tree::lemma_with_same_links(
                before.tree,
                node_id,
                NodeModel { expanded: true, ..before.tree.nodes[node_id] },
            );
        }
        let node = self.tree.node_mut(node_id);
        node.expanded = true;
    }

    /// Selects the path that was asked for, if it is loaded, or reads on.
    pub(crate) fn apply_pending_selection(&mut self)
        requires
            old(self).wf(),
        ensures
            final(self).wf(),
            final(self)@ == old(self)@.pending_applied(),
    {
        let path = match &self.pending_select_path {
            Some(path) => path.clone(),
            None => {
                return ;
            },
        };
        if let Some(node_id) = self.find_node(&path) {
            self.selected = Some(node_id);
            self.tree.expand_ancestors(node_id);
            self.pending_select_path = None;
            self.rebuild_visible();
            self.ensure_selection_visible();
            return ;
        }
        if let Some(node_id) = self.find_deepest(&path) {
            self.expand(node_id);
            self.load(node_id);
        }
    }
}

/// What is left of a state after entries have been added: only the tree and
/// some counts differ.
proof fn lemma_entries_added(
    state: AppModel,
    parent: NodeId,
    entries: Seq<DiscoveredEntry>,
    ids: Seq<NodeId>,
)
    ensures
        ({
            let after = state.entries_added(parent, entries, ids);
            &&& after.cache == state.cache
            &&& after.one_file_system == state.one_file_system
            &&& after.clock == state.clock
        }),
    decreases entries.len(),
{
    if entries.len() > 0 {
        lemma_entries_added(state, parent, entries.drop_last(), ids.drop_last());
    }
}

fn store_outcome(tree: &mut Tree, node_id: NodeId, outcome: ScanOutcome)
    requires
        tree::is_tree(old(tree)@),
        old(tree)@.nodes.contains_key(node_id),
    ensures
        tree::is_tree(final(tree)@),
        final(tree)@ == tree::with_node(
            old(tree)@,
            node_id,
            measured_node(old(tree)@.nodes[node_id], outcome@),
        ),
{
    let ghost before = tree@;
    proof {
        tree::lemma_with_same_links(
            before,
            node_id,
            measured_node(before.nodes[node_id], outcome@),
        );
    }
    let usage = outcome.usage;
    let fatal: bool = outcome.fatal_error.is_some();
    let node = tree.node_mut(node_id);
    node.warning_count = outcome.warnings.error_count;
    if fatal {
        node.error = outcome.fatal_error;
        node.usage = None;
        node.scan_state = ScanState::Error;
    } else {
        node.error = outcome.warnings.first_message;
        node.usage = Some(usage);
        node.scan_state = ScanState::Complete;
        node.cached = false;
    }
}

impl App {
    fn note_size_started(&mut self, node_id: NodeId, revision: u64)
        requires
            old(self).wf(),
        ensures
            final(self).wf(),
            final(self)@ == old(self)@.size_started(node_id, revision),
    {
        let ghost before = self@;
        let started: bool = match self.tree.get(node_id) {
            Some(node) => node.scan_revision == revision && node.scan_state == ScanState::Queued,
            None => false,
        };
        if started {
            proof {
                tree::lemma_with_same_links(
                    before.tree,
                    node_id,
                    NodeModel { scan_state: ScanState::Scanning, ..before.tree.nodes[node_id] },
                );
            }
            let node = self.tree.node_mut(node_id);
            node.scan_state = ScanState::Scanning;
        }
    }

    fn note_unread(&mut self, node_id: NodeId, message: String)
        requires
            old(self).wf(),
        ensures
            final(self).wf(),
            final(self)@ == old(self)@.unread_noted(node_id, message@),
    {
        let ghost before = self@;
        if !self.tree.contains_key(node_id) {
            return ;
        }
        let is_root: bool = node_id == self.tree.root_id;
        proof {
            let node = before.tree.nodes[node_id];
            tree::lemma_with_same_links(
                before.tree,
                node_id,
                NodeModel {
                    children_loading: false,
                    error: Some(message@),
                    warning_count: one_more(node.warning_count),
                    scan_state: if is_root {
                        ScanState::Error
                    } else {
                        node.scan_state
                    },
                    ..node
                },
            );
        }
        let node = self.tree.node_mut(node_id);
        node.children_loading = false;
        node.error = Some(message);
        node.warning_count = node.warning_count.saturating_add(1);
        if is_root {
            node.scan_state = ScanState::Error;
        }
    }

    fn note_read(&mut self, node_id: NodeId, count: usize, message: Option<String>)
        requires
            old(self).wf(),
            old(self)@.tree.nodes.contains_key(node_id),
        ensures
            final(self).wf(),
            final(self)@ == old(self)@.read_noted(node_id, count, tree::text_view(message)),
    {
        let ghost before = self@;
        proof {
            let node = before.tree.nodes[node_id];
            tree::lemma_with_same_links(
                before.tree,
                node_id,
                NodeModel {
                    children_loading: false,
                    children_loaded: true,
                    warning_count: sum_of(node.warning_count, count),
                    error: if node.error is None {
                        tree::text_view(message)
                    } else {
                        node.error
                    },
                    ..node
                },
            );
        }
        let node = self.tree.node_mut(node_id);
        node.children_loading = false;
        node.children_loaded = true;
        node.warning_count = node.warning_count.saturating_add(count);
        if node.error.is_none() {
            node.error = message;
        }
    }

    fn note_size(&mut self, node_id: NodeId, outcome: ScanOutcome)
        requires
            old(self).wf(),
            old(self)@.tree.nodes.contains_key(node_id),
        ensures
            final(self).wf(),
            final(self)@ == old(self)@.size_noted(node_id, outcome@),
    {
        let ghost before = self@;
        let fatal: bool = outcome.fatal_error.is_some();
        let usage = outcome.usage;
        let skipped: usize = outcome.mounts_skipped;
        let mut known: Option<(FilePath, FileIdentity)> = None;
        if let Some(node) = self.tree.get(node_id) {
            if let Some(identity) = node.identity {
                known = Some((node.path.clone(), identity));
            }
        }
        store_outcome(&mut self.tree, node_id, outcome);
        self.mounts_skipped = self.mounts_skipped.saturating_add(skipped);
        if !fatal {
            if let Some((path, identity)) = known {
                self.cache.insert_at(
                    &path,
                    identity,
                    usage,
                    self.one_file_system,
                    self.clock.seconds,
                );
            }
        }
        self.sort_dirty = true;
    }

    /// Adds an entry to a directory; the result tells its name and whether it
    /// has to be measured.
    fn add_entry(&mut self, parent: NodeId, entry: DiscoveredEntry) -> (added: (NodeId, bool))
        requires
            old(self).wf(),
            old(self)@.tree.nodes.contains_key(parent),
            old(self)@.tree.nodes.dom().len() < NODE_LIMIT,
        ensures
            final(self).wf(),
            !old(self)@.tree.nodes.contains_key(added.0),
            final(self)@ == old(self)@.entry_added(parent, entry, added.0),
            final(self)@.tree.nodes.dom() == old(self)@.tree.nodes.dom().insert(added.0),
            final(self)@.tree.nodes.dom().len() == old(self)@.tree.nodes.dom().len() + 1,
            added.1 == old(self)@.must_measure(entry),
    {
        let ghost before = self@;
        let skipped: bool = entry.mountpoint;
        let is_directory: bool = entry.kind == NodeKind::Directory && !entry.mountpoint;
        let mut hit: Option<UsageStats> = None;
        if is_directory {
            if let Some(identity) = entry.identity {
                hit =
                self.cache.lookup_at(
                    &entry.path,
                    identity,
                    self.one_file_system,
                    self.clock.seconds,
                );
            }
        }
        if skipped {
            self.mounts_skipped = self.mounts_skipped.saturating_add(1);
        }
        let ghost node = NodeModel::for_entry(entry, parent);
        let child: NodeId = self.add_known(parent, entry, hit);
        proof {
            tree::lemma_child_count(
                before.tree,
                parent,
                child,
                if hit is Some {
                    NodeModel { usage: hit, scan_state: ScanState::Complete, cached: true, ..node }
                } else {
                    node
                },
            );
        }
        if hit.is_some() {
            self.cache_hits = self.cache_hits.saturating_add(1);
            self.sort_dirty = true;
        }
        (child, is_directory && hit.is_none())
    }

    fn add_known(
        &mut self,
        parent: NodeId,
        entry: DiscoveredEntry,
        hit: Option<UsageStats>,
    ) -> (child: NodeId)
        requires
            old(self).wf(),
            old(self)@.tree.nodes.contains_key(parent),
            old(self)@.tree.nodes.dom().len() < NODE_LIMIT,
        ensures
            final(self).wf(),
            !old(self)@.tree.nodes.contains_key(child),
            ({
                let node = NodeModel::for_entry(entry, parent);
                final(self)@ == AppModel {
                    tree: tree::with_child(
                        old(self)@.tree,
                        parent,
                        child,
                        if hit is Some {
                            NodeModel {
                                usage: hit,
                                scan_state: ScanState::Complete,
                                cached: true,
                                ..node
                            }
                        } else {
                            node
                        },
                    ),
                    ..old(self)@
                }
            }),
    {
        let ghost before = self@;
        let ghost node = NodeModel::for_entry(entry, parent);
        let child: NodeId = match self.tree.add_child(parent, entry) {
            Some(child) => child,
            None => parent,
        };
        if hit.is_some() {
            let ghost middle = self@.tree;
            let ghost known = NodeModel {
                usage: hit,
                scan_state: ScanState::Complete,
                cached: true,
                ..node
            };
            proof {
                tree::lemma_with_same_links(middle, child, known);
                assert(tree::with_node(middle, child, known).nodes =~= tree::with_child(
                    before.tree,
                    parent,
                    child,
                    known,
                ).nodes);
            }
            let added = self.tree.node_mut(child);
            added.usage = hit;
            added.scan_state = ScanState::Complete;
            added.cached = true;
        }
        child
    }

    /// Adds entries to a directory; the result tells which of them have to be
    /// measured.
    fn add_entries(&mut self, parent: NodeId, entries: Vec<DiscoveredEntry>) -> (result: (
        Vec<NodeId>,
        Ghost<Seq<NodeId>>,
    ))
        requires
            old(self).wf(),
            old(self)@.tree.nodes.contains_key(parent),
            old(self)@.tree.nodes.dom().len() + entries@.len() <= NODE_LIMIT,
        ensures
            final(self).wf(),
            result.1@.len() == entries@.len(),
            fresh_ids(old(self)@.tree, result.1@),
            final(self)@ == old(self)@.entries_added(parent, entries@, result.1@),
            result.0@ == old(self)@.unmeasured(entries@, result.1@),
    {
        let ghost before = self@;
        let ghost all = entries@;
        let ghost mut ids: Seq<NodeId> = Seq::empty();
        let mut directories: Vec<NodeId> = Vec::new();
        assert(directories@ =~= Seq::empty());
        for entry in iter: entries
            invariant
                iter.seq() == all,
                self.wf(),
                ids.len() == iter.index(),
                fresh_ids(before.tree, ids),
                before.tree.nodes.contains_key(parent),
                before.tree.nodes.dom().len() + all.len() <= NODE_LIMIT,
                forall|id: NodeId| #[trigger]
                    self@.tree.nodes.contains_key(id) <==> before.tree.nodes.contains_key(id)
                        || ids.contains(id),
                self@.tree.nodes.dom().len() == before.tree.nodes.dom().len() + iter.index(),
                self@ == before.entries_added(parent, all.take(iter.index()), ids),
                directories@ == before.unmeasured(all.take(iter.index()), ids),
        {
            let ghost at = iter.index();
            let ghost old_ids = ids;
            let ghost middle = self@;
            proof {
                lemma_entries_added(before, parent, all.take(at), ids);
                assert(all.take(at + 1).drop_last() =~= all.take(at));
                assert(all.take(at + 1).last() == entry);
            }
            let (child, unknown) = self.add_entry(parent, entry);
            proof {
                ids = ids.push(child);
                assert(ids.drop_last() =~= old_ids);
                lists::lemma_push_contains(old_ids, child);
                assert(middle.must_measure(entry) == before.must_measure(entry));
                assert forall|id: NodeId| #[trigger]
                    self@.tree.nodes.contains_key(id) <==> before.tree.nodes.contains_key(id)
                        || ids.contains(id) by {
                    assert(self@.tree.nodes.dom().contains(id) <==> middle.tree.nodes.dom().insert(
                        child,
                    ).contains(id));
                    assert(middle.tree.nodes.contains_key(id) <==> before.tree.nodes.contains_key(id)
                        || old_ids.contains(id));
                }
                assert(!middle.tree.nodes.contains_key(child));
                assert(fresh_ids(before.tree, ids)) by {
                    assert forall|i: int| 0 <= i < ids.len() implies !before.tree.nodes.contains_key(
                        #[trigger] ids[i],
                    ) by {
                        if i < old_ids.len() {
                            assert(ids[i] == old_ids[i]);
                        }
                    }
                    assert(!old_ids.contains(child));
                }
            }
            if unknown {
                directories.push(child);
            }
        }
        assert(all.take(all.len() as int) =~= all);
        (directories, Ghost(ids))
    }

    fn sort_below(&mut self, node_id: NodeId)
        requires
            old(self).wf(),
        ensures
            final(self).wf(),
            final(self)@ == old(self)@.children_sorted(node_id),
    {
        self.tree.sort_children(node_id, self.sort, self.size_mode);
    }

    fn measure_all(&mut self, ids: &Vec<NodeId>)
        requires
            old(self).wf(),
        ensures
            final(self).wf(),
            final(self)@ == old(self)@.all_measured(ids@, false),
    {
        let ghost before = self@;
        let mut i: usize = 0;
        while i < ids.len()
            invariant
                i <= ids@.len(),
                self.wf(),
                self@ == before.all_measured(ids@.take(i as int), false),
            decreases ids@.len() - i,
        {
            assert(ids@.take(i + 1).drop_last() =~= ids@.take(i as int));
            self.measure(ids[i]);
            i += 1;
        }
        assert(ids@.take(i as int) =~= ids@);
    }

    /// Takes in the entries of a directory.
    fn load_children(&mut self, node_id: NodeId, outcome: LoadOutcome)
        requires
            old(self).wf(),
            old(self)@.tree.nodes.dom().len() + outcome.entries@.len() <= NODE_LIMIT,
        ensures
            final(self).wf(),
            loads(
                old(self)@,
                node_id,
                outcome.entries@,
                outcome.warnings.error_count,
                tree::text_view(outcome.warnings.first_message),
                final(self)@,
            ),
    {
        let ghost before = self@;
        let ghost entries = outcome.entries@;
        let ghost count = outcome.warnings.error_count;
        let ghost message = tree::text_view(outcome.warnings.first_message);
        self.finish_job();
        if !self.tree.contains_key(node_id) {
            return ;
        }
        self.record_warnings(outcome.warnings.error_count, &outcome.warnings.first_message);
        self.note_read(node_id, outcome.warnings.error_count, outcome.warnings.first_message);
        proof {
            assert(self@.tree.nodes.dom() =~= before.tree.nodes.dom());
        }
        let ghost read = self@;
        let (directories, added) = self.add_entries(node_id, outcome.entries);
        self.sort_below(node_id);
        self.measure_all(&directories);
        self.rebuild_visible();
        self.apply_pending_selection();
        proof {
            assert(fresh_ids(before.tree, added@));
            assert(self@ == before.children_loaded(node_id, entries, count, message, added@));
        }
    }
}

impl AppModel {
    /// The state with the whole tree in order.
    pub open spec fn all_sorted(self) -> AppModel {
        AppModel { tree: tree::sorted_tree(self.tree, self.sort, self.size_mode), ..self }
    }

    pub open spec fn sort_noted(self) -> AppModel {
        AppModel { sort_dirty: false, last_sort: self.clock.millis, ..self }
    }

    /// Whether it is time to put the tree in order: at the end of a scan, and
    /// now and then while it goes on.
    pub open spec fn sorts_now(self) -> bool {
        self.sort_dirty && (self.pending_jobs == 0 || self.clock.millis - self.last_sort
            >= SORT_INTERVAL)
    }

    /// The state with the tree in order, if it is time for that.
    pub open spec fn sorted_in_time(self) -> AppModel {
        if self.sorts_now() {
            self.all_sorted().sort_noted().rebuilt()
        } else {
            self
        }
    }
}

/// Whether one state follows from another when a worker reports something.
/// What belongs to another generation is ignored.
pub open spec fn answers(before: AppModel, event: WorkerEvent, after: AppModel) -> bool {
    if event.made_in() != before.generation {
        after == before
    } else {
        match event {
            WorkerEvent::SizeStarted { node_id, scan_revision, .. } => after
                == before.size_started(node_id, scan_revision),
            WorkerEvent::ChildrenLoaded { node_id, outcome, .. } => loads(
                before,
                node_id,
                outcome.entries@,
                outcome.warnings.error_count,
                tree::text_view(outcome.warnings.first_message),
                after,
            ),
            WorkerEvent::ChildrenLoadFailed { node_id, message, .. } => after
                == before.load_failed(node_id, message@),
            WorkerEvent::SizeCalculated { node_id, scan_revision, outcome, .. } => after
                == before.size_known(node_id, scan_revision, outcome@),
        }
    }
}

/// Whether the tree has room for what a worker reports.
pub open spec fn has_room(state: AppModel, event: WorkerEvent) -> bool {
    match event {
        WorkerEvent::ChildrenLoaded { outcome, .. } => state.tree.nodes.dom().len()
            + outcome.entries@.len() <= NODE_LIMIT,
        _ => true,
    }
}

/// A report of an earlier generation changes nothing.
pub proof fn stale_reports_change_nothing(before: AppModel, event: WorkerEvent, after: AppModel)
    requires
        answers(before, event, after),
        event.made_in() != before.generation,
    ensures
        after == before,
{
}

/// The size that answers an earlier question does not replace what is known of
/// a directory.
pub proof fn stale_sizes_change_no_node(
    before: AppModel,
    generation: u64,
    node_id: NodeId,
    scan_revision: u64,
    outcome: ScanOutcome,
    after: AppModel,
)
    requires
        answers(
            before,
            WorkerEvent::SizeCalculated { generation, node_id, scan_revision, outcome },
            after,
        ),
        !before.tree.nodes.contains_key(node_id) || before.tree.nodes[node_id].scan_revision
            != scan_revision,
    ensures
        after.tree == before.tree,
        after.cache == before.cache,
        after.errors == before.errors,
        after.notice == before.notice,
{
}

impl App {
    fn measure_known(&mut self, node_id: NodeId, revision: u64, outcome: ScanOutcome)
        requires
            old(self).wf(),
        ensures
            final(self).wf(),
            final(self)@ == old(self)@.size_known(node_id, revision, outcome@),
    {
        self.finish_job();
        let current: bool = match self.tree.get(node_id) {
            Some(node) => node.scan_revision == revision,
            None => false,
        };
        if !current {
            return ;
        }
        self.record_warnings(outcome.warnings.error_count, &outcome.warnings.first_message);
        self.note_size(node_id, outcome);
    }

    fn fail_load(&mut self, node_id: NodeId, message: String)
        requires
            old(self).wf(),
        ensures
            final(self).wf(),
            final(self)@ == old(self)@.load_failed(node_id, message@),
    {
        self.finish_job();
        let told = Some(message.clone());
        self.record_warnings(1, &told);
        self.note_unread(node_id, message);
        self.rebuild_visible();
    }

    /// Takes in what a worker reports.
    pub fn handle_worker_event(&mut self, event: WorkerEvent)
        requires
            old(self).wf(),
            has_room(old(self)@, event),
        ensures
            final(self).wf(),
            answers(old(self)@, event, final(self)@),
    {
        if event.generation() != self.generation {
            return ;
        }
        match event {
            WorkerEvent::SizeStarted { node_id, scan_revision, .. } => {
                self.note_size_started(node_id, scan_revision);
            },
            WorkerEvent::ChildrenLoaded { node_id, outcome, .. } => {
                self.load_children(node_id, outcome);
            },
            WorkerEvent::ChildrenLoadFailed { node_id, message, .. } => {
                self.fail_load(node_id, message);
            },
            WorkerEvent::SizeCalculated { node_id, scan_revision, outcome, .. } => {
                self.measure_known(node_id, scan_revision, outcome);
            },
        }
    }

    pub(crate) fn sort_tree(&mut self)
        requires
            old(self).wf(),
        ensures
            final(self).wf(),
            final(self)@ == old(self)@.all_sorted(),
    {
        self.tree.sort_all_loaded(self.sort, self.size_mode);
    }

    fn note_sorted(&mut self)
        requires
            old(self).wf(),
        ensures
            final(self).wf(),
            final(self)@ == old(self)@.sort_noted(),
    {
        self.sort_dirty = false;
        self.last_sort = self.clock.millis;
    }

    /// Puts the tree in order, if it is time for that.
    pub fn maybe_sort(&mut self)
        requires
            old(self).wf(),
        ensures
            final(self).wf(),
            final(self)@ == old(self)@.sorted_in_time(),
    {
        if !self.sort_dirty {
            return ;
        }
        if self.pending_jobs > 0 && self.clock.millis.saturating_sub(self.last_sort)
            < SORT_INTERVAL {
            return ;
        }
        self.sort_tree();
        self.note_sorted();
        self.rebuild_visible();
    }
}

/// A measured directory has the size that was found, and the job is done. Where
/// it could not be read at all it has none and says why. Reports that come too
/// late for it change no node, nor do others change.
pub proof fn measured_directories_have_their_size(
    before: AppModel,
    id: NodeId,
    revision: u64,
    outcome: OutcomeModel,
    other: NodeId,
)
    requires
        before.tree.nodes.contains_key(id),
    ensures
        ({
            let after = before.size_known(id, revision, outcome);
            let node = after.tree.nodes[id];
            let wanted = before.tree.nodes[id].scan_revision == revision;
            &&& before.pending_jobs > 0 ==> after.pending_jobs == before.pending_jobs - 1
            &&& !wanted ==> after.tree == before.tree && after.errors == before.errors
                && after.cache == before.cache
            &&& wanted && outcome.fatal_error is None ==> {
                &&& node.usage == Some(outcome.usage)
                &&& node.scan_state == ScanState::Complete
                &&& !node.cached
                &&& node.error == outcome.warnings.first_message
            }
            &&& wanted && outcome.fatal_error is Some ==> {
                &&& node.usage is None
                &&& node.scan_state == ScanState::Error
                &&& node.error == outcome.fatal_error
                &&& after.cache == before.cache
            }
            &&& wanted ==> {
                &&& node.warning_count == outcome.warnings.error_count
                &&& after.sort_dirty
                &&& before.errors + outcome.warnings.error_count <= usize::MAX ==> after.errors
                    == before.errors + outcome.warnings.error_count
                &&& before.mounts_skipped + outcome.mounts_skipped <= usize::MAX
                    ==> after.mounts_skipped == before.mounts_skipped + outcome.mounts_skipped
                &&& node.path == before.tree.nodes[id].path && node.children
                    == before.tree.nodes[id].children && node.parent == before.tree.nodes[id].parent
            }
            &&& other != id && before.tree.nodes.contains_key(other) ==> after.tree.nodes[other]
                == before.tree.nodes[other]
        }),
{
}

/// A directory is measured when it never was or when that failed, and at any
/// time where it is asked for again. Mount points are not measured. The job bears
/// the next revision of the node, which then waits without a size.
pub proof fn directories_are_measured_on_request(before: AppModel, id: NodeId, force: bool)
    requires
        before.tree.nodes.contains_key(id),
        !before.stopped.scan,
        before.tree.nodes[id].scan_revision < u64::MAX,
        before.pending_jobs < usize::MAX,
    ensures
        ({
            let node = before.tree.nodes[id];
            let after = before.size_queued(id, force);
            let due = node.kind == NodeKind::Directory && !node.mountpoint && (force
                || node.scan_state == ScanState::NotScanned || node.scan_state
                == ScanState::Error);
            &&& !due ==> after == before
            &&& due ==> {
                &&& after.pending_jobs == before.pending_jobs + 1
                &&& after.effects == before.effects.push(
                    EffectModel::Scan(
                        ScanJob::CalculateSize {
                            generation: before.generation,
                            node_id: id,
                            scan_revision: (node.scan_revision + 1) as u64,
                            path: node.path,
                            options: ScanOptions {
                                root_device: before.root_device,
                                one_file_system: before.one_file_system,
                            },
                        },
                    ),
                )
                &&& after.tree.nodes[id].scan_revision == node.scan_revision + 1
                &&& after.tree.nodes[id].scan_state == ScanState::Queued
                &&& after.tree.nodes[id].usage is None
                &&& !after.tree.nodes[id].cached
                &&& after.tree.nodes[id].error is None
                &&& after.tree.nodes[id].warning_count == 0
                &&& !force ==> after.cache == before.cache
            }
        }),
{
}

/// A directory is read once: not while it is being read and not after. Mount
/// points and other entries are not read.
pub proof fn directories_are_read_once(before: AppModel, id: NodeId)
    requires
        before.tree.nodes.contains_key(id),
        !before.stopped.scan,
        before.pending_jobs < usize::MAX,
    ensures
        ({
            let node = before.tree.nodes[id];
            let after = before.children_queued(id);
            let due = node.kind == NodeKind::Directory && !node.mountpoint && !node.children_loaded
                && !node.children_loading;
            &&& !due ==> after == before
            &&& due ==> {
                &&& after.pending_jobs == before.pending_jobs + 1
                &&& after.effects == before.effects.push(
                    EffectModel::Scan(
                        ScanJob::LoadChildren {
                            generation: before.generation,
                            node_id: id,
                            path: node.path,
                            options: ScanOptions {
                                root_device: before.root_device,
                                one_file_system: before.one_file_system,
                            },
                        },
                    ),
                )
                &&& after.tree.nodes[id].children_loading
                &&& after.tree.nodes[id].usage == node.usage
                &&& after.tree.nodes[id].scan_state == node.scan_state
                &&& after.children_queued(id) == after
            }
        }),
{
}

/// An added entry hangs under the directory that was read. A directory whose
/// usage is in the cache has it at once and counts as taken from there; any other
/// one still has to be measured, unless it is a mount point, which is counted as
/// skipped.
pub proof fn added_entries_use_the_cache(
    before: AppModel,
    parent: NodeId,
    entry: DiscoveredEntry,
    id: NodeId,
)
    requires
        parent != id,
        before.cache_hits < usize::MAX,
        before.mounts_skipped < usize::MAX,
    ensures
        ({
            let after = before.entry_added(parent, entry, id);
            let node = after.tree.nodes[id];
            let measurable = entry.kind == NodeKind::Directory && !entry.mountpoint;
            let known = measurable && entry.identity is Some && before.cache.found(
                entry.path@,
                entry.identity->0,
                before.one_file_system,
                before.clock.seconds,
            ) is Some;
            &&& node.path == entry.path && node.parent == Some(parent)
            &&& after.tree.nodes[parent].children == before.tree.nodes[parent].children.push(id)
            &&& known ==> {
                &&& node.usage == before.cache.found(
                    entry.path@,
                    entry.identity->0,
                    before.one_file_system,
                    before.clock.seconds,
                )
                &&& node.cached && node.scan_state == ScanState::Complete
                &&& after.cache_hits == before.cache_hits + 1
                &&& after.sort_dirty
            }
            &&& !known ==> node.usage == entry.usage && !node.cached && after.cache_hits
                == before.cache_hits
            &&& before.must_measure(entry) <==> measurable && !known
            &&& entry.mountpoint ==> after.mounts_skipped == before.mounts_skipped + 1
            &&& !entry.mountpoint ==> after.mounts_skipped == before.mounts_skipped
        }),
{
}

/// A directory that could not be read says so, counts as one error, and can be
/// read again; only a root fails with it.
pub proof fn unreadable_directories_say_so(before: AppModel, id: NodeId, message: Seq<char>)
    requires
        before.tree.nodes.contains_key(id),
        before.errors < usize::MAX,
        before.tree.nodes[id].warning_count < usize::MAX,
    ensures
        ({
            let noted = before.job_done().warned(1, Some(message)).unread_noted(id, message);
            let node = noted.tree.nodes[id];
            &&& before.load_failed(id, message) == noted.rebuilt()
            &&& noted.errors == before.errors + 1
            &&& noted.notice == Some(message)
            &&& before.pending_jobs > 0 ==> noted.pending_jobs == before.pending_jobs - 1
            &&& node.error == Some(message)
            &&& node.warning_count == before.tree.nodes[id].warning_count + 1
            &&& !node.children_loading
            &&& node.children_loaded == before.tree.nodes[id].children_loaded
            &&& id == before.tree.root ==> node.scan_state == ScanState::Error
            &&& id != before.tree.root ==> node.scan_state == before.tree.nodes[id].scan_state
        }),
{
}

/// Only a queued node of the reported revision begins to be measured.
pub proof fn queued_nodes_begin_to_be_measured(before: AppModel, id: NodeId, revision: u64)
    requires
        before.tree.nodes.contains_key(id),
    ensures
        ({
            let node = before.tree.nodes[id];
            let after = before.size_started(id, revision);
            &&& node.scan_revision == revision && node.scan_state == ScanState::Queued
                ==> after.tree.nodes[id].scan_state == ScanState::Scanning
            &&& node.scan_revision != revision || node.scan_state != ScanState::Queued ==> after
                == before
        }),
{
}

/// New sizes are put in order when nothing is left to do, and else at most every
/// 200 milliseconds.
pub proof fn sizes_are_sorted_in_time(before: AppModel)
    ensures
        !before.sort_dirty ==> before.sorted_in_time() == before,
        before.sort_dirty && before.pending_jobs > 0 && before.clock.millis < before.last_sort + 200
            ==> before.sorted_in_time() == before,
        before.sort_dirty && (before.pending_jobs == 0 || before.clock.millis >= before.last_sort
            + 200) ==> before.sorted_in_time() == before.all_sorted().sort_noted().rebuilt()
            && !before.all_sorted().sort_noted().sort_dirty
            && before.all_sorted().sort_noted().last_sort == before.clock.millis,
{
}

/// Of the directories that a path lies in, the deepest one leads to it.
pub proof fn the_deepest_directory_leads_on(
    tree: TreeModel,
    ids: Seq<NodeId>,
    path: Seq<u8>,
    i: int,
)
    requires
        0 <= i < ids.len(),
        tree.nodes[ids[i]].kind == NodeKind::Directory,
        path::path_starts_with(path, tree.nodes[ids[i]].path@),
    ensures
        ({
            let found = deepest_of(tree, ids, path);
            &&& found is Some
            &&& ids.contains(found->0)
            &&& tree.nodes[found->0].kind == NodeKind::Directory
            &&& path::path_starts_with(path, tree.nodes[found->0].path@)
            &&& path::components(tree.nodes[ids[i]].path@).len() <= path::components(
                tree.nodes[found->0].path@,
            ).len()
        }),
    decreases ids.len(),
{
    let front = ids.drop_last();
    if i < front.len() {
        the_deepest_directory_leads_on(tree, front, path, i);
        let found = deepest_of(tree, front, path)->0;
        let k = choose|k: int| 0 <= k < front.len() && front[k] == found;
        assert(ids[k] == found);
        assert(front[i] == ids[i]);
    } else {
        lemma_deepest_among(tree, front, path);
    }
    assert(ids[ids.len() - 1] == ids.last());
}

proof fn lemma_deepest_among(tree: TreeModel, ids: Seq<NodeId>, path: Seq<u8>)
    ensures
        deepest_of(tree, ids, path) matches Some(id) ==> ids.contains(id) && leads_to(
            tree.nodes[id],
            path,
        ),
    decreases ids.len(),
{
    if ids.len() > 0 {
        let front = ids.drop_last();
        lemma_deepest_among(tree, front, path);
        assert(ids[ids.len() - 1] == ids.last());
        if deepest_of(tree, front, path) is Some {
            let found = deepest_of(tree, front, path)->0;
            let k = choose|k: int| 0 <= k < front.len() && front[k] == found;
            assert(ids[k] == found);
        }
    }
}

/// What was measured is kept in the cache for the entry as it was then; a
/// directory that could not be read is not.
pub proof fn measured_sizes_are_cached(
    before: AppModel,
    id: NodeId,
    revision: u64,
    outcome: OutcomeModel,
)
    requires
        before.tree.nodes.contains_key(id),
        before.tree.nodes[id].scan_revision == revision,
        before.tree.nodes[id].identity is Some,
        outcome.fatal_error is None,
    ensures
        before.size_known(id, revision, outcome).cache == before.cache.with_usage(
            before.tree.nodes[id].path,
            before.tree.nodes[id].identity->0,
            outcome.usage,
            before.one_file_system,
            before.clock.seconds,
        ),
{
}

/// A directory that was read is not read again; the problems of its listing are
/// counted, and its first problem stays.
pub proof fn read_directories_are_loaded(
    before: AppModel,
    id: NodeId,
    count: usize,
    message: Option<Seq<char>>,
)
    requires
        before.tree.nodes.contains_key(id),
        before.tree.nodes[id].warning_count + count <= usize::MAX,
    ensures
        ({
            let node = before.tree.nodes[id];
            let after = before.read_noted(id, count, message).tree.nodes[id];
            &&& after.children_loaded && !after.children_loading
            &&& after.warning_count == node.warning_count + count
            &&& node.error is Some ==> after.error == node.error
            &&& node.error is None ==> after.error == message
            &&& after.usage == node.usage && after.scan_state == node.scan_state && after.expanded
                == node.expanded && after.children == node.children
        }),
{
}

/// Of the read entries those are measured that are directories of unknown usage.
pub proof fn unknown_directories_are_measured(
    state: AppModel,
    entries: Seq<DiscoveredEntry>,
    ids: Seq<NodeId>,
    i: int,
)
    requires
        entries.len() == ids.len(),
        ids.no_duplicates(),
        0 <= i < ids.len(),
    ensures
        state.unmeasured(entries, ids).contains(ids[i]) <==> entries[i].kind == NodeKind::Directory
            && !entries[i].mountpoint && state.cache_hit(entries[i]) is None,
    decreases entries.len(),
{
    let front = state.unmeasured(entries.drop_last(), ids.drop_last());
    let all = state.unmeasured(entries, ids);
    let shorter = ids.drop_last();
    assert(shorter.no_duplicates()) by {
        assert forall|a: int, b: int|
            0 <= a < shorter.len() && 0 <= b < shorter.len() && a != b implies shorter[a]
            != shorter[b] by {
            assert(ids[a] != ids[b]);
        }
    }
    lemma_unmeasured_within(state, entries.drop_last(), shorter);
    if i < shorter.len() {
        unknown_directories_are_measured(state, entries.drop_last(), shorter, i);
        assert(shorter[i] == ids[i]);
        assert(entries.drop_last()[i] == entries[i]);
        assert(ids[i] != ids.last());
        if front.contains(ids[i]) {
            let k = choose|k: int| 0 <= k < front.len() && front[k] == ids[i];
            assert(all[k] == ids[i]);
        }
        if all.contains(ids[i]) {
            let k = choose|k: int| 0 <= k < all.len() && all[k] == ids[i];
            assert(k < front.len());
            assert(front[k] == ids[i]);
        }
    } else {
        assert(ids[i] == ids.last());
        if front.contains(ids[i]) {
            let m = choose|m: int| 0 <= m < shorter.len() && shorter[m] == ids[i];
            assert(ids[m] == ids[i]);
        }
        if state.must_measure(entries.last()) {
            assert(all[front.len() as int] == ids[i]);
        }
    }
}

proof fn lemma_unmeasured_within(
    state: AppModel,
    entries: Seq<DiscoveredEntry>,
    ids: Seq<NodeId>,
)
    requires
        entries.len() == ids.len(),
    ensures
        forall|id: NodeId| #[trigger]
            state.unmeasured(entries, ids).contains(id) ==> ids.contains(id),
    decreases entries.len(),
{
    if entries.len() > 0 {
        let front = state.unmeasured(entries.drop_last(), ids.drop_last());
        let all = state.unmeasured(entries, ids);
        lemma_unmeasured_within(state, entries.drop_last(), ids.drop_last());
        assert forall|id: NodeId| #[trigger] all.contains(id) implies ids.contains(id) by {
            let k = choose|k: int| 0 <= k < all.len() && all[k] == id;
            if k < front.len() {
                assert(front[k] == id);
                assert(front.contains(id));
                let m = choose|m: int|
                    0 <= m < ids.drop_last().len() && ids.drop_last()[m] == id;
                assert(ids[m] == id);
            } else {
                assert(ids[ids.len() - 1] == id);
            }
        }
    }
}

} // verus!
