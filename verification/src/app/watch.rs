//! What happens when the disk changes below the root.
use vstd::prelude::*;

use crate::app::analysis;
use crate::app::marks;
use crate::app::root;
use crate::app::scan;
use crate::app::{AnalysisStatus, App, AppModel, EffectModel};
use crate::path;
use crate::path::FilePath;
use crate::text;
use crate::tree;
use crate::tree::removal;
use crate::tree::{NodeId, NodeModel, TreeModel};
use crate::watcher::WatchBatch;

verus! {

/// What is on disk at a path that changed.
#[derive(Clone, Copy, Debug, PartialEq, Eq, Structural)]
pub struct PathFacts {
    /// Nothing is there any more.
    pub missing: bool,
    /// A directory is there.
    pub is_directory: bool,
}

/// The directory whose entries a change concerns.
pub open spec fn changed_directory(root: Seq<u8>, path: Seq<u8>, facts: PathFacts) -> Seq<u8> {
    if facts.is_directory {
        path
    } else {
        match path::parent_of(path) {
            Some(parent) => parent,
            None => root,
        }
    }
}

/// The directories whose entries have to be read again.
pub open spec fn reload_ids(
    tree: TreeModel,
    root: Seq<u8>,
    paths: Seq<FilePath>,
    facts: Seq<PathFacts>,
) -> Seq<NodeId>
    decreases paths.len(),
{
    if paths.len() == 0 {
        Seq::empty()
    } else {
        let rest = reload_ids(tree, root, paths.drop_last(), facts);
        match scan::deepest(tree, changed_directory(root, paths.last()@, facts[paths.len() - 1])) {
            Some(id) => marks::with_id(rest, id),
            None => rest,
        }
    }
}

/// The names with a directory and the directories above it; the root itself is
/// not measured.
pub open spec fn with_line(list: Seq<NodeId>, tree: TreeModel, id: NodeId) -> Seq<NodeId> {
    marks::with_ids(
        if id == tree.root {
            list
        } else {
            marks::with_id(list, id)
        },
        marks::inner_ancestors(tree, id),
    )
}

/// The directories that have to be measured again.
pub open spec fn rescan_ids(
    tree: TreeModel,
    root: Seq<u8>,
    paths: Seq<FilePath>,
    facts: Seq<PathFacts>,
) -> Seq<NodeId>
    decreases paths.len(),
{
    if paths.len() == 0 {
        Seq::empty()
    } else {
        let rest = rescan_ids(tree, root, paths.drop_last(), facts);
        match scan::deepest(tree, changed_directory(root, paths.last()@, facts[paths.len() - 1])) {
            Some(id) => with_line(rest, tree, id),
            None => rest,
        }
    }
}

/// The paths of some nodes.
pub open spec fn node_paths(tree: TreeModel, ids: Seq<NodeId>) -> Seq<FilePath>
    decreases ids.len(),
{
    if ids.len() == 0 {
        Seq::empty()
    } else if tree.nodes.contains_key(ids.last()) {
        node_paths(tree, ids.drop_last()).push(tree.nodes[ids.last()].path)
    } else {
        node_paths(tree, ids.drop_last())
    }
}

impl AppModel {
    /// The state after a change at a path: nothing below it is taken from the
    /// cache, and what is gone is no longer marked.
    pub open spec fn change_seen(self, path: Seq<u8>, facts: PathFacts) -> AppModel {
        if facts.missing {
            self.subtree_uncached(path).subtree_unmarked(path)
        } else {
            self.subtree_uncached(path)
        }
    }

    pub open spec fn changes_seen(self, paths: Seq<FilePath>, facts: Seq<PathFacts>) -> AppModel
        decreases paths.len(),
    {
        if paths.len() == 0 {
            self
        } else {
            self.changes_seen(paths.drop_last(), facts).change_seen(
                paths.last()@,
                facts[paths.len() - 1],
            )
        }
    }

    /// The state with a directory of which no entries are known.
    pub open spec fn entries_forgotten(self, id: NodeId) -> AppModel {
        let tree = tree::cleared(self.tree, id);
        AppModel {
            tree: tree::with_node(
                tree,
                id,
                NodeModel { children_loaded: false, children_loading: false, ..tree.nodes[id] },
            ),
            ..self
        }
    }

    /// The state with the entries of a directory asked for anew.
    pub open spec fn reloaded(self, id: NodeId) -> AppModel {
        if self.tree.nodes.contains_key(id) {
            let forgotten = self.entries_forgotten(id);
            match forgotten.load_error(id) {
                Some(message) => forgotten.noticed(message),
                None => forgotten.children_queued(id),
            }
        } else {
            self
        }
    }

    pub open spec fn all_reloaded(self, ids: Seq<NodeId>) -> AppModel
        decreases ids.len(),
    {
        if ids.len() == 0 {
            self
        } else {
            self.all_reloaded(ids.drop_last()).reloaded(ids.last())
        }
    }

    /// The state with a directory measured again, or told why not.
    pub open spec fn remeasured(self, id: NodeId) -> AppModel {
        match self.measure_error(id, true) {
            Some(message) => self.size_queued(id, true).noticed(message),
            None => self.size_queued(id, true),
        }
    }

    pub open spec fn all_remeasured(self, ids: Seq<NodeId>) -> AppModel
        decreases ids.len(),
    {
        if ids.len() == 0 {
            self
        } else {
            self.all_remeasured(ids.drop_last()).remeasured(ids.last())
        }
    }

    /// The path of the selected node.
    pub open spec fn node_path(self) -> Option<FilePath> {
        match self.selected {
            Some(id) => if self.tree.nodes.contains_key(id) {
                Some(self.tree.nodes[id].path)
            } else {
                None
            },
            None => None,
        }
    }

    pub open spec fn reselecting(self, path: Option<FilePath>) -> AppModel {
        AppModel { pending_select_path: path, ..self }
    }

    /// The state after some paths have changed: the directories concerned are
    /// read and measured again, and the analysis is brought up to date.
    pub open spec fn changes_applied(self, paths: Seq<FilePath>, facts: Seq<PathFacts>) -> AppModel {
        let stopped = self.generation_advanced().jobs_stopped(false);
        let seen = stopped.changes_seen(paths, facts);
        let reloads = reload_ids(seen.tree, seen.root@, paths, facts);
        let rescans = rescan_ids(seen.tree, seen.root@, paths, facts);
        seen.all_reloaded(reloads).all_remeasured(rescans).reselecting(
            stopped.node_path(),
        ).with_comparison(None).subtrees_refreshed(
            node_paths(seen.tree, reloads),
        ).rebuilt().noticed(
            "Applied "@ + text::decimal(paths.len()) + " filesystem change(s)"@,
        )
    }

    /// The state after a report of what has changed on disk.
    pub open spec fn batch_seen(self, batch: WatchBatch, facts: Seq<PathFacts>) -> AppModel {
        let warning = tree::text_view(batch.warning);
        if batch.full_rescan {
            self.refresh_wanted(warning)
        } else {
            let told = self.noticed_if(warning);
            if batch.paths@.len() == 0 {
                told
            } else if told.generation == u64::MAX {
                told.failed("Scan generation overflow"@)
            } else {
                told.changes_applied(batch.paths@, facts)
            }
        }
    }
}

fn directory_of(root: &FilePath, path: &FilePath, facts: PathFacts) -> (directory: FilePath)
    ensures
        directory@ == changed_directory(root@, path@, facts),
{
    if facts.is_directory {
        path.clone()
    } else {
        match path.parent() {
            Some(parent) => parent,
            None => root.clone(),
        }
    }
}

impl App {
    fn see_change(&mut self, path: &FilePath, facts: PathFacts)
        requires
            old(self).wf(),
        ensures
            final(self).wf(),
            final(self)@ == old(self)@.change_seen(path@, facts),
    {
        self.uncache_subtree(path);
        if facts.missing {
            self.unmark_subtree(path);
        }
    }

    fn see_changes(&mut self, paths: &Vec<FilePath>, facts: &Vec<PathFacts>)
        requires
            old(self).wf(),
            facts@.len() == paths@.len(),
        ensures
            final(self).wf(),
            final(self)@ == old(self)@.changes_seen(paths@, facts@),
    {
        let ghost before = self@;
        let mut i: usize = 0;
        while i < paths.len()
            invariant
                i <= paths@.len(),
                facts@.len() == paths@.len(),
                self.wf(),
                self@ == before.changes_seen(paths@.take(i as int), facts@),
            decreases paths@.len() - i,
        {
            assert(paths@.take(i + 1).drop_last() =~= paths@.take(i as int));
            self.see_change(&paths[i], facts[i]);
            i += 1;
        }
        assert(paths@.take(i as int) =~= paths@);
    }

    fn add_line(&self, list: &mut Vec<NodeId>, id: NodeId)
        requires
            self.wf(),
        ensures
            final(list)@ == with_line(old(list)@, self@.tree, id),
    {
        if id != self.tree.root_id {
            marks::add_id(list, id);
        }
        self.add_inner_ancestors(list, id);
    }

    fn find_changed(&self, paths: &Vec<FilePath>, facts: &Vec<PathFacts>) -> (found: (
        Vec<NodeId>,
        Vec<NodeId>,
    ))
        requires
            self.wf(),
            facts@.len() == paths@.len(),
        ensures
            found.0@ == reload_ids(self@.tree, self@.root@, paths@, facts@),
            found.1@ == rescan_ids(self@.tree, self@.root@, paths@, facts@),
    {
        let mut reloads: Vec<NodeId> = Vec::new();
        let mut rescans: Vec<NodeId> = Vec::new();
        let mut i: usize = 0;
        while i < paths.len()
            invariant
                i <= paths@.len(),
                facts@.len() == paths@.len(),
                self.wf(),
                reloads@ == reload_ids(self@.tree, self@.root@, paths@.take(i as int), facts@),
                rescans@ == rescan_ids(self@.tree, self@.root@, paths@.take(i as int), facts@),
            decreases paths@.len() - i,
        {
            assert(paths@.take(i + 1).drop_last() =~= paths@.take(i as int));
            let directory = directory_of(&self.root, &paths[i], facts[i]);
            if let Some(id) = self.find_deepest(&directory) {
                marks::add_id(&mut reloads, id);
                self.add_line(&mut rescans, id);
            }
            i += 1;
        }
        assert(paths@.take(i as int) =~= paths@);
        (reloads, rescans)
    }

    fn paths_of(&self, ids: &Vec<NodeId>) -> (paths: Vec<FilePath>)
        ensures
            paths@ == node_paths(self@.tree, ids@),
    {
        let mut paths: Vec<FilePath> = Vec::new();
        let mut i: usize = 0;
        while i < ids.len()
            invariant
                i <= ids@.len(),
                paths@ == node_paths(self@.tree, ids@.take(i as int)),
            decreases ids@.len() - i,
        {
            assert(ids@.take(i + 1).drop_last() =~= ids@.take(i as int));
            if let Some(node) = self.tree.get(ids[i]) {
                paths.push(node.path.clone());
            }
            i += 1;
        }
        assert(ids@.take(i as int) =~= ids@);
        paths
    }

    fn forget_entries(&mut self, node_id: NodeId)
        requires
            old(self).wf(),
            old(self)@.tree.nodes.contains_key(node_id),
        ensures
            final(self).wf(),
            final(self)@ == old(self)@.entries_forgotten(node_id),
    {
        forget_children(&mut self.tree, node_id);
    }

    fn reload(&mut self, node_id: NodeId)
        requires
            old(self).wf(),
        ensures
            final(self).wf(),
            final(self)@ == old(self)@.reloaded(node_id),
    {
        if self.tree.contains_key(node_id) {
            self.forget_entries(node_id);
            if let Err(message) = self.queue_children(node_id) {
                self.say(message.as_str());
            }
        }
    }

    fn reload_all(&mut self, ids: &Vec<NodeId>)
        requires
            old(self).wf(),
        ensures
            final(self).wf(),
            final(self)@ == old(self)@.all_reloaded(ids@),
    {
        let ghost before = self@;
        let mut i: usize = 0;
        while i < ids.len()
            invariant
                i <= ids@.len(),
                self.wf(),
                self@ == before.all_reloaded(ids@.take(i as int)),
            decreases ids@.len() - i,
        {
            assert(ids@.take(i + 1).drop_last() =~= ids@.take(i as int));
            self.reload(ids[i]);
            i += 1;
        }
        assert(ids@.take(i as int) =~= ids@);
    }

    fn remeasure(&mut self, node_id: NodeId)
        requires
            old(self).wf(),
        ensures
            final(self).wf(),
            final(self)@ == old(self)@.remeasured(node_id),
    {
        if let Err(message) = self.rescan_size(node_id) {
            self.say(message.as_str());
        }
    }

    fn remeasure_all(&mut self, ids: &Vec<NodeId>)
        requires
            old(self).wf(),
        ensures
            final(self).wf(),
            final(self)@ == old(self)@.all_remeasured(ids@),
    {
        let ghost before = self@;
        let mut i: usize = 0;
        while i < ids.len()
            invariant
                i <= ids@.len(),
                self.wf(),
                self@ == before.all_remeasured(ids@.take(i as int)),
            decreases ids@.len() - i,
        {
            assert(ids@.take(i + 1).drop_last() =~= ids@.take(i as int));
            self.remeasure(ids[i]);
            i += 1;
        }
        assert(ids@.take(i as int) =~= ids@);
    }

    fn selected_node_path(&self) -> (path: Option<FilePath>)
        ensures
            path == self@.node_path(),
    {
        match self.selected_node() {
            Some(node) => Some(node.path.clone()),
            None => None,
        }
    }

    pub(crate) fn reselect(&mut self, path: Option<FilePath>)
        requires
            old(self).wf(),
        ensures
            final(self).wf(),
            final(self)@ == old(self)@.reselecting(path),
    {
        self.pending_select_path = path;
    }

    fn apply_changes(&mut self, paths: &Vec<FilePath>, facts: &Vec<PathFacts>)
        requires
            old(self).wf(),
            old(self).generation < u64::MAX,
            facts@.len() == paths@.len(),
        ensures
            final(self).wf(),
            final(self)@ == old(self)@.changes_applied(paths@, facts@),
    {
        let _ = self.advance_generation();
        self.stop_jobs(false);
        let selected = self.selected_node_path();
        self.see_changes(paths, facts);
        let (reloads, rescans) = self.find_changed(paths, facts);
        let analyzed = self.paths_of(&reloads);
        self.reload_all(&reloads);
        self.remeasure_all(&rescans);
        self.reselect(selected);
        self.set_comparison(None);
        self.refresh_analysis_subtrees(analyzed);
        self.rebuild_visible();
        self.say_count("Applied ", paths.len(), " filesystem change(s)");
    }

    /// Takes in what has changed on disk. `facts` says what is now at each of
    /// the paths.
    pub fn handle_watch_batch(&mut self, batch: WatchBatch, facts: &Vec<PathFacts>)
        requires
            old(self).wf(),
            facts@.len() == batch.paths@.len(),
        ensures
            final(self).wf(),
            final(self)@ == old(self)@.batch_seen(batch, facts@),
    {
        if batch.full_rescan {
            self.refresh_with(batch.warning);
            return ;
        }
        self.say_if(&batch.warning);
        if batch.paths.len() == 0 {
            return ;
        }
        if self.generation == u64::MAX {
            self.show_error("Scan generation overflow".to_owned());
            return ;
        }
        self.apply_changes(&batch.paths, facts);
    }
}

fn forget_children(tree: &mut tree::Tree, node_id: NodeId)
    requires
        tree::is_tree(old(tree)@),
        old(tree)@.nodes.contains_key(node_id),
    ensures
        tree::is_tree(final(tree)@),
        final(tree)@ == tree::with_node(
            tree::cleared(old(tree)@, node_id),
            node_id,
            NodeModel {
                children_loaded: false,
                children_loading: false,
                ..tree::cleared(old(tree)@, node_id).nodes[node_id]
            },
        ),
{
    tree.clear_children(node_id);
    proof {
        tree::lemma_with_same_links(
            tree@,
            node_id,
            NodeModel {
                children_loaded: false,
                children_loading: false,
                ..tree@.nodes[node_id]
            },
        );
    }
    let node = tree.node_mut(node_id);
    node.children_loaded = false;
    node.children_loading = false;
}

/// Whether a node lies below one of some nodes.
pub open spec fn below_one_of(tree: TreeModel, ids: Seq<NodeId>, id: NodeId) -> bool {
    exists|i: int| 0 <= i < ids.len() && tree::ancestor_ids(tree, id).contains(#[trigger] ids[i])
}

/// Whether what became of a tree is what is left of it when only what lies
/// below some nodes has gone, and only these nodes have changed.
pub open spec fn spares_the_rest(before: TreeModel, after: TreeModel, ids: Seq<NodeId>) -> bool {
    &&& removal::is_rest(before, after)
    &&& forall|id: NodeId| #[trigger]
        before.nodes.contains_key(id) && !below_one_of(before, ids, id)
            ==> after.nodes.contains_key(id) && (!ids.contains(id) ==> after.nodes[id]
            == before.nodes[id])
}

proof fn lemma_reloaded(state: AppModel, id: NodeId)
    requires
        tree::is_tree(state.tree),
    ensures
        spares_the_rest(state.tree, state.reloaded(id).tree, seq![id]),
{
    let ids = seq![id];
    if state.tree.nodes.contains_key(id) {
        let cleared = tree::cleared(state.tree, id);
        let forgotten = state.entries_forgotten(id);
        removal::clearing_takes_what_lies_below(state.tree, id, id);
        removal::lemma_not_below_itself(state.tree, id);
        tree::lemma_with_same_links(cleared, id, forgotten.tree.nodes[id]);
        if forgotten.can_load(id) {
            tree::lemma_with_same_links(
                forgotten.tree,
                id,
                NodeModel { children_loading: true, ..forgotten.tree.nodes[id] },
            );
        }
        assert forall|other: NodeId| #[trigger]
            state.tree.nodes.contains_key(other) && !below_one_of(
                state.tree,
                ids,
                other,
            ) implies state.reloaded(id).tree.nodes.contains_key(other) && (!ids.contains(other)
            ==> state.reloaded(id).tree.nodes[other] == state.tree.nodes[other]) by {
            removal::clearing_takes_what_lies_below(state.tree, id, other);
            assert(ids[0] == id);
        }
    }
}

proof fn lemma_all_reloaded(state: AppModel, ids: Seq<NodeId>)
    requires
        tree::is_tree(state.tree),
    ensures
        spares_the_rest(state.tree, state.all_reloaded(ids).tree, ids),
    decreases ids.len(),
{
    if ids.len() > 0 {
        let less = ids.drop_last();
        let before = state.all_reloaded(less);
        lemma_all_reloaded(state, less);
        lemma_reloaded(before, ids.last());
        let one = seq![ids.last()];
        let after = state.all_reloaded(ids);
        assert forall|id: NodeId| #[trigger]
            state.tree.nodes.contains_key(id) && !below_one_of(
                state.tree,
                ids,
                id,
            ) implies after.tree.nodes.contains_key(id) && (!ids.contains(id)
            ==> after.tree.nodes[id] == state.tree.nodes[id]) by {
            assert(!below_one_of(state.tree, less, id)) by {
                if below_one_of(state.tree, less, id) {
                    let i = choose|i: int|
                        0 <= i < less.len() && tree::ancestor_ids(state.tree, id).contains(
                            #[trigger] less[i],
                        );
                    assert(ids[i] == less[i]);
                }
            }
            removal::lemma_same_ancestors(state.tree, before.tree, id);
            assert(!below_one_of(before.tree, one, id)) by {
                assert(ids[ids.len() - 1] == ids.last());
            }
            if !ids.contains(id) {
                assert(!less.contains(id)) by {
                    if less.contains(id) {
                        let i = choose|i: int| 0 <= i < less.len() && less[i] == id;
                        assert(ids[i] == id);
                    }
                }
                assert(!one.contains(id)) by {
                    assert(ids[ids.len() - 1] == ids.last());
                }
            }
        }
    }
}

proof fn lemma_all_remeasured(state: AppModel, ids: Seq<NodeId>, id: NodeId)
    requires
        state.tree.nodes.contains_key(id),
    ensures
        state.all_remeasured(ids).tree.nodes.contains_key(id),
        !ids.contains(id) ==> state.all_remeasured(ids).tree.nodes[id] == state.tree.nodes[id],
    decreases ids.len(),
{
    if ids.len() > 0 {
        let less = ids.drop_last();
        lemma_all_remeasured(state, less, id);
        assert(ids[ids.len() - 1] == ids.last());
        if less.contains(id) {
            let i = choose|i: int| 0 <= i < less.len() && less[i] == id;
            assert(ids[i] == id);
        }
    }
}

proof fn lemma_slices(state: AppModel, paths: Seq<FilePath>)
    ensures
        state.slices_taken(paths).tree == state.tree,
        state.slices_asked(paths).tree == state.tree,
    decreases paths.len(),
{
    if paths.len() > 0 {
        lemma_slices(state, paths.drop_last());
    }
}

proof fn lemma_subtrees_refreshed(state: AppModel, paths: Seq<FilePath>)
    ensures
        state.subtrees_refreshed(paths).tree == state.tree,
{
    let roots = analysis::slice_roots(paths);
    let taken = state.index_opened().slices_taken(roots);
    lemma_slices(state.index_opened(), roots);
    lemma_slices(taken.with_status(AnalysisStatus::Indexing), roots);
}

proof fn lemma_changes_seen(state: AppModel, paths: Seq<FilePath>, facts: Seq<PathFacts>)
    ensures
        state.changes_seen(paths, facts).tree == state.tree,
        state.changes_seen(paths, facts).root == state.root,
    decreases paths.len(),
{
    if paths.len() > 0 {
        lemma_changes_seen(state, paths.drop_last(), facts);
    }
}

/// A change on disk takes away only what lies below the directories that have to
/// be read again; and only these, and those that have to be measured again, are
/// changed. All other nodes stay as they are, with the work on them given up.
pub proof fn changes_spare_the_rest(
    state: AppModel,
    paths: Seq<FilePath>,
    facts: Seq<PathFacts>,
    id: NodeId,
)
    requires
        tree::is_tree(state.tree),
        state.tree.nodes.contains_key(id),
        !below_one_of(
            state.tree,
            reload_ids(root::stopped_tree(state.tree, false), state.root@, paths, facts),
            id,
        ),
    ensures
        ({
            let stopped = root::stopped_tree(state.tree, false);
            let reloads = reload_ids(stopped, state.root@, paths, facts);
            let rescans = rescan_ids(stopped, state.root@, paths, facts);
            let after = state.changes_applied(paths, facts).tree;
            &&& after.nodes.contains_key(id)
            &&& !reloads.contains(id) && !rescans.contains(id) ==> after.nodes[id]
                == root::stopped_node(state.tree.nodes[id], false)
        }),
{
    let stopped = state.generation_advanced().jobs_stopped(false);
    let seen = stopped.changes_seen(paths, facts);
    let reloads = reload_ids(seen.tree, seen.root@, paths, facts);
    let rescans = rescan_ids(seen.tree, seen.root@, paths, facts);
    lemma_changes_seen(stopped, paths, facts);
    assert(stopped.tree.nodes.dom() =~= state.tree.nodes.dom());
    tree::lemma_same_links(state.tree, stopped.tree);
    removal::lemma_same_ancestors(state.tree, stopped.tree, id);
    lemma_all_reloaded(seen, reloads);
    let reread = seen.all_reloaded(reloads);
    lemma_all_remeasured(reread, rescans, id);
    let settled = reread.all_remeasured(rescans).reselecting(
        stopped.node_path(),
    ).with_comparison(None);
    lemma_subtrees_refreshed(settled, node_paths(seen.tree, reloads));
}

/// A report that calls for a full rescan asks for one scan of the root, whatever
/// else it says, and for nothing else.
pub proof fn a_full_rescan_is_asked_for_once(
    app: AppModel,
    batch: WatchBatch,
    facts: Seq<PathFacts>,
)
    requires
        batch.full_rescan,
    ensures
        app.batch_seen(batch, facts).effects == app.effects.push(
            EffectModel::OpenRoot {
                root: app.root,
                select: None,
                notice: Some("Refreshing current root without cache"@),
                warning: tree::text_view(batch.warning),
            },
        ),
        app.batch_seen(batch, facts).marked == app.marked,
        app.batch_seen(batch, facts).tree == app.tree,
{
}

/// A change in a directory is looked for there; a change of anything else in the
/// directory that holds it.
pub proof fn changes_are_looked_for_in_a_directory(root: Seq<u8>, path: Seq<u8>, facts: PathFacts)
    ensures
        facts.is_directory ==> changed_directory(root, path, facts) == path,
        !facts.is_directory && path::parent_of(path) is Some ==> changed_directory(
            root,
            path,
            facts,
        ) == path::parent_of(path)->0,
        !facts.is_directory && path::parent_of(path) is None ==> changed_directory(
            root,
            path,
            facts,
        ) == root,
{
}

/// A changed path is no longer cached, with all below it; where nothing is left
/// of it, it is no longer marked either.
pub proof fn changed_paths_are_forgotten(state: AppModel, path: Seq<u8>, facts: PathFacts)
    ensures
        state.change_seen(path, facts).cache == state.cache.without_subtree(path),
        !facts.missing ==> state.change_seen(path, facts).marked == state.marked,
        facts.missing ==> forall|i: int|
            0 <= i < state.change_seen(path, facts).marked.len() ==> !path::path_starts_with(
                (#[trigger] state.change_seen(path, facts).marked[i])@,
                path,
            ),
        state.change_seen(path, facts).tree == state.tree,
{
    if facts.missing {
        let keep = analysis::path_outside(path);
        let kept = state.marked.filter(keep);
        assert forall|i: int| 0 <= i < kept.len() implies !path::path_starts_with(
            (#[trigger] kept[i])@,
            path,
        ) by {
            state.marked.lemma_filter_pred(keep, i);
        }
    }
}

/// A batch that asks for it ends in a refresh of the root; an empty one changes
/// nothing but the notice.
pub proof fn batches_end_in_a_refresh_or_in_changes(
    state: AppModel,
    batch: WatchBatch,
    facts: Seq<PathFacts>,
)
    ensures
        batch.full_rescan ==> state.batch_seen(batch, facts) == state.refresh_wanted(
            tree::text_view(batch.warning),
        ),
        !batch.full_rescan && batch.paths@.len() == 0 && batch.warning is None ==> state.batch_seen(
            batch,
            facts,
        ) == state,
        !batch.full_rescan && batch.paths@.len() > 0 && batch.warning is None && state.generation
            < u64::MAX ==> state.batch_seen(batch, facts) == state.changes_applied(
            batch.paths@,
            facts,
        ),
{
}

/// After changes the directories they lie in are read again, and these and all
/// directories above them are measured again, the root excepted.
pub proof fn changed_directories_are_measured_again(
    tree: TreeModel,
    root: Seq<u8>,
    paths: Seq<FilePath>,
    facts: Seq<PathFacts>,
    i: int,
    id: NodeId,
)
    requires
        0 <= i < paths.len(),
        scan::deepest(tree, changed_directory(root, paths[i]@, facts[i])) == Some(id),
    ensures
        reload_ids(tree, root, paths, facts).contains(id),
        id != tree.root ==> rescan_ids(tree, root, paths, facts).contains(id),
        forall|above: NodeId| #[trigger]
            tree::ancestor_ids(tree, id).contains(above) && above != tree.root ==> rescan_ids(
                tree,
                root,
                paths,
                facts,
            ).contains(above),
    decreases paths.len(),
{
    let front = paths.drop_last();
    let before = reload_ids(tree, root, front, facts);
    let measured = rescan_ids(tree, root, front, facts);
    let last = scan::deepest(
        tree,
        changed_directory(root, paths.last()@, facts[paths.len() - 1]),
    );
    if i < front.len() {
        assert(front[i] == paths[i]);
        changed_directories_are_measured_again(tree, root, front, facts, i, id);
        if last is Some {
            lemma_with_one(before, last->0, id);
            lemma_with_line(measured, tree, last->0, id);
            assert forall|above: NodeId| #[trigger]
                tree::ancestor_ids(tree, id).contains(above) && above
                    != tree.root implies rescan_ids(tree, root, paths, facts).contains(above) by {
                lemma_with_line(measured, tree, last->0, above);
            }
        }
    } else {
        lemma_with_one(before, id, id);
        lemma_with_line(measured, tree, id, id);
        assert forall|above: NodeId| #[trigger]
            tree::ancestor_ids(tree, id).contains(above) && above != tree.root implies rescan_ids(
            tree,
            root,
            paths,
            facts,
        ).contains(above) by {
            lemma_with_line(measured, tree, id, above);
        }
    }
}

proof fn lemma_with_one(list: Seq<NodeId>, id: NodeId, other: NodeId)
    ensures
        marks::with_id(list, id).contains(other) <==> list.contains(other) || other == id,
{
    if !list.contains(id) {
        let after = list.push(id);
        assert(after[list.len() as int] == id);
        if list.contains(other) {
            let k = choose|k: int| 0 <= k < list.len() && list[k] == other;
            assert(after[k] == other);
        }
        if after.contains(other) {
            let k = choose|k: int| 0 <= k < after.len() && after[k] == other;
            if k < list.len() {
                assert(list[k] == other);
            }
        }
    }
}

proof fn lemma_with_line(list: Seq<NodeId>, tree: TreeModel, id: NodeId, other: NodeId)
    ensures
        with_line(list, tree, id).contains(other) <==> list.contains(other) || (other == id && id
            != tree.root) || (tree::ancestor_ids(tree, id).contains(other) && other != tree.root),
{
    let above = tree::ancestor_ids(tree, id);
    let keep = tree::other_than(tree.root);
    let start = if id == tree.root {
        list
    } else {
        marks::with_id(list, id)
    };
    lemma_with_one(list, id, other);
    marks::lemma_with_ids(start, marks::inner_ancestors(tree, id), other);
    if above.filter(keep).contains(other) {
        above.lemma_filter_contains_rev(keep, other);
        let k = choose|k: int| 0 <= k < above.filter(keep).len() && above.filter(keep)[k] == other;
        above.lemma_filter_pred(keep, k);
    }
    if above.contains(other) && keep(other) {
        let k = choose|k: int| 0 <= k < above.len() && above[k] == other;
        above.lemma_filter_contains(keep, k);
    }
}

} // verus!
