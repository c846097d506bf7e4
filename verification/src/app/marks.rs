//! Marking entries and moving them to the Trash.
use vstd::prelude::*;
use vstd::string::StringExecFns;

use crate::analytics;
use crate::analytics::{AnalysisIndex, IndexModel};
use crate::app;
use crate::app::analysis;
use crate::app::scan;
use crate::app::screen;
use crate::app::{App, AppMode, AppModel, Effect, EffectModel, ModeModel, ViewKind};
use crate::delete;
use crate::delete::{DeleteItem, DeleteRequest, DeleteResult, DeleteValidationError, ResultModel};
use crate::lists;
use crate::order;
use crate::path;
use crate::path::FilePath;
use crate::rows;
use crate::text;
use crate::tree;
use crate::tree::{NodeId, TreeModel, UsageStats};

verus! {

/// Whether an ancestor of a path is in a list. Nothing above the root is looked
/// at.
pub open spec fn marked_above(marked: Seq<FilePath>, root: Seq<u8>, path: Seq<u8>) -> bool
    decreases path::components(path).len(),
{
    proof {
        path::parent_drops_the_last_component(path);
    }
    match path::parent_of(path) {
        None => false,
        Some(parent) => if screen::has_path(marked, parent) {
            true
        } else if path::same_path(parent, root) {
            false
        } else {
            marked_above(marked, root, parent)
        },
    }
}

/// Whether one of some nodes has a path of a list.
pub open spec fn any_marked(tree: TreeModel, marked: Seq<FilePath>, ids: Seq<NodeId>) -> bool {
    exists|i: int|
        0 <= i < ids.len() && tree.nodes.contains_key(#[trigger] ids[i]) && screen::has_path(
            marked,
            tree.nodes[ids[i]].path@,
        )
}

/// Whether a path lies below another one, or belongs to a node below it.
pub open spec fn lies_below(tree: TreeModel, marked: Seq<u8>, path: Seq<u8>, id: NodeId) -> bool {
    ||| path::path_starts_with(marked, path) && !path::same_path(marked, path)
    ||| match scan::node_at(tree, marked) {
        Some(other) => tree::ancestor_ids(tree, other).contains(id),
        None => false,
    }
}

/// The paths that do not lie below a node.
pub open spec fn not_below(tree: TreeModel, path: Seq<u8>, id: NodeId) -> spec_fn(FilePath) -> bool {
    |marked: FilePath| !lies_below(tree, marked@, path, id)
}

/// The paths that do not lie below another one.
pub open spec fn not_inside(path: Seq<u8>) -> spec_fn(FilePath) -> bool {
    |marked: FilePath| !path::path_starts_with(marked@, path) || path::same_path(marked@, path)
}

impl AppModel {
    pub open spec fn with_marks(self, marked: Seq<FilePath>) -> AppModel {
        AppModel { marked, ..self }
    }

    /// The state with the mark of the selected node set or taken away. A node
    /// below a marked one cannot be marked, and marking a node takes away the
    /// marks below it, so that nothing is deleted twice.
    pub open spec fn selected_marked(self) -> AppModel {
        match self.selected {
            None => self,
            Some(id) => if !self.tree.nodes.contains_key(id) {
                self
            } else {
                let path = self.tree.nodes[id].path;
                if screen::has_path(self.marked, path@) {
                    self.with_marks(self.marked.filter(analysis::other_path(path@))).noticed(
                        "Item unmarked"@,
                    )
                } else if marked_above(self.marked, self.root@, path@) || any_marked(
                    self.tree,
                    self.marked,
                    tree::ancestor_ids(self.tree, id),
                ) {
                    self.noticed("Item is already included by a marked parent"@)
                } else {
                    self.with_marks(
                        self.marked.filter(not_below(self.tree, path@, id)).push(path),
                    ).noticed("Item marked"@)
                }
            },
        }
    }

    /// The path of the selected row of an analysis view.
    pub open spec fn selected_path(self) -> Option<FilePath> {
        if self.active_view != ViewKind::Tree && self.analysis_selected < self.analysis_rows.len() {
            self.analysis_rows[self.analysis_selected as int].path
        } else {
            None
        }
    }

    /// The state with the mark of the selected entry set or taken away.
    pub open spec fn current_marked(self) -> AppModel {
        if self.active_view == ViewKind::Tree {
            self.selected_marked()
        } else {
            match self.selected_path() {
                None => self.noticed("This summary row cannot be marked"@),
                Some(path) => if !self.can_delete(path@) {
                    self.noticed("The analysis root cannot be marked"@)
                } else if screen::has_path(self.marked, path@) {
                    self.with_marks(self.marked.filter(analysis::other_path(path@))).noticed(
                        "Item unmarked"@,
                    )
                } else if marked_above(self.marked, self.root@, path@) {
                    self.noticed("Item is already included by a marked parent"@)
                } else {
                    self.with_marks(self.marked.filter(not_inside(path@)).push(path)).noticed(
                        "Item marked"@,
                    )
                },
            }
        }
    }

    /// The entry that a deletion of the selected row is about.
    pub open spec fn current_item(self) -> Option<DeleteItem> {
        if self.active_view == ViewKind::Tree {
            match self.selected {
                Some(id) => if self.tree.nodes.contains_key(id) {
                    Some(DeleteItem { node_id: Some(id), path: self.tree.nodes[id].path })
                } else {
                    None
                },
                None => None,
            }
        } else {
            match self.selected_path() {
                Some(path) => if self.can_delete(path@) {
                    Some(DeleteItem { node_id: None, path })
                } else {
                    None
                },
                None => None,
            }
        }
    }

    pub open spec fn with_mode(self, mode: ModeModel) -> AppModel {
        AppModel { mode, ..self }
    }

    /// The state with the question whether the selected entry is to be deleted.
    pub open spec fn current_delete_asked(self) -> AppModel {
        match self.current_item() {
            Some(item) => self.with_mode(
                ModeModel::ConfirmDelete { items: seq![item], multi: false },
            ),
            None => self.noticed("This row has no deletable path"@),
        }
    }

    /// The entries that are marked, with the nodes that are loaded for them.
    pub open spec fn marked_items(self) -> Seq<DeleteItem> {
        Seq::new(
            self.marked.len(),
            |i: int|
                DeleteItem {
                    node_id: scan::node_at(self.tree, self.marked[i]@),
                    path: self.marked[i],
                },
        )
    }

    /// The state with the question whether the marked entries are to be
    /// deleted, in the order of their paths.
    pub open spec fn marked_delete_asked(self) -> AppModel {
        if self.marked.len() == 0 {
            self.noticed("No items marked"@)
        } else {
            self.with_mode(
                ModeModel::ConfirmDelete {
                    items: order::sorted_by(self.marked_items(), item_keys(self.marked_items())),
                    multi: true,
                },
            )
        }
    }
}

pub open spec fn item_keys(items: Seq<DeleteItem>) -> Seq<Seq<u64>> {
    Seq::new(items.len(), |i: int| path::path_key(items[i].path@))
}

impl App {
    fn has_marked_ancestor(&self, path: &FilePath) -> (result: bool)
        ensures
            result == marked_above(self.marked@, self.root@, path@),
    {
        let mut current = path.clone();
        loop
            invariant
                marked_above(self.marked@, self.root@, path@) == marked_above(
                    self.marked@,
                    self.root@,
                    current@,
                ),
            decreases path::components(current@).len(),
        {
            proof {
                path::parent_drops_the_last_component(current@);
            }
            let parent = match current.parent() {
                Some(parent) => parent,
                None => {
                    return false;
                },
            };
            if screen::holds_path(&self.marked, &parent) {
                return true;
            }
            if parent.same(&self.root) {
                return false;
            }
            current = parent;
        }
    }

    fn has_marked_tree_ancestor(&self, node_id: NodeId) -> (result: bool)
        requires
            self.wf(),
        ensures
            result == any_marked(
                self@.tree,
                self.marked@,
                tree::ancestor_ids(self@.tree, node_id),
            ),
    {
        let ids = self.tree.ancestors_of(node_id);
        let mut i: usize = 0;
        while i < ids.len()
            invariant
                i <= ids@.len(),
                ids@ == tree::ancestor_ids(self@.tree, node_id),
                forall|j: int|
                    0 <= j < i ==> !(self@.tree.nodes.contains_key(#[trigger] ids@[j])
                        && screen::has_path(self.marked@, self@.tree.nodes[ids@[j]].path@)),
            decreases ids@.len() - i,
        {
            if let Some(node) = self.tree.get(ids[i]) {
                if screen::holds_path(&self.marked, &node.path) {
                    assert(self@.tree.nodes.contains_key(ids@[i as int]));
                    return true;
                }
            }
            i += 1;
        }
        false
    }

    fn is_tree_descendant(&self, candidate: NodeId, ancestor: NodeId) -> (result: bool)
        requires
            self.wf(),
        ensures
            result == tree::ancestor_ids(self@.tree, candidate).contains(ancestor),
    {
        let ids = self.tree.ancestors_of(candidate);
        let mut i: usize = 0;
        while i < ids.len()
            invariant
                i <= ids@.len(),
                ids@ == tree::ancestor_ids(self@.tree, candidate),
                forall|j: int| 0 <= j < i ==> #[trigger] ids@[j] != ancestor,
            decreases ids@.len() - i,
        {
            if ids[i] == ancestor {
                assert(ids@[i as int] == ancestor);
                return true;
            }
            i += 1;
        }
        false
    }

    fn is_below(&self, marked: &FilePath, path: &FilePath, node_id: NodeId) -> (result: bool)
        requires
            self.wf(),
        ensures
            result == lies_below(self@.tree, marked@, path@, node_id),
    {
        if marked.starts_with(path) && !marked.same(path) {
            return true;
        }
        match self.find_node(marked) {
            Some(other) => self.is_tree_descendant(other, node_id),
            None => false,
        }
    }

    fn marks_not_below(&self, path: &FilePath, node_id: NodeId) -> (rest: Vec<FilePath>)
        requires
            self.wf(),
        ensures
            rest@ == self.marked@.filter(not_below(self@.tree, path@, node_id)),
    {
        let ghost keep = not_below(self@.tree, path@, node_id);
        let mut rest: Vec<FilePath> = Vec::new();
        let mut i: usize = 0;
        proof {
            reveal(Seq::filter);
            assert(self.marked@.take(0) =~= Seq::empty());
            assert(rest@ =~= self.marked@.take(0).filter(keep));
        }
        while i < self.marked.len()
            invariant
                i <= self.marked@.len(),
                self.wf(),
                keep == not_below(self@.tree, path@, node_id),
                rest@ == self.marked@.take(i as int).filter(keep),
            decreases self.marked@.len() - i,
        {
            proof {
                lists::lemma_filter_step(self.marked@, keep, i as int);
            }
            if !self.is_below(&self.marked[i], path, node_id) {
                rest.push(self.marked[i].clone());
            }
            i += 1;
        }
        assert(self.marked@.take(i as int) =~= self.marked@);
        rest
    }

    fn marks_not_inside(&self, path: &FilePath) -> (rest: Vec<FilePath>)
        ensures
            rest@ == self.marked@.filter(not_inside(path@)),
    {
        let ghost keep = not_inside(path@);
        let mut rest: Vec<FilePath> = Vec::new();
        let mut i: usize = 0;
        proof {
            reveal(Seq::filter);
            assert(self.marked@.take(0) =~= Seq::empty());
            assert(rest@ =~= self.marked@.take(0).filter(keep));
        }
        while i < self.marked.len()
            invariant
                i <= self.marked@.len(),
                keep == not_inside(path@),
                rest@ == self.marked@.take(i as int).filter(keep),
            decreases self.marked@.len() - i,
        {
            proof {
                lists::lemma_filter_step(self.marked@, keep, i as int);
            }
            if !self.marked[i].starts_with(path) || self.marked[i].same(path) {
                rest.push(self.marked[i].clone());
            }
            i += 1;
        }
        assert(self.marked@.take(i as int) =~= self.marked@);
        rest
    }

    fn set_marks(&mut self, marked: Vec<FilePath>)
        requires
            old(self).wf(),
            screen::distinct_paths(marked@),
        ensures
            final(self).wf(),
            final(self)@ == old(self)@.with_marks(marked@),
    {
        self.marked = marked;
    }

    /// Marks the selected node, or takes its mark away.
    pub fn toggle_mark_selected(&mut self)
        requires
            old(self).wf(),
        ensures
            final(self).wf(),
            final(self)@ == old(self)@.selected_marked(),
    {
        let node_id = match self.selected {
            Some(node_id) => node_id,
            None => {
                return ;
            },
        };
        let path = match self.tree.get(node_id) {
            Some(node) => node.path.clone(),
            None => {
                return ;
            },
        };
        if screen::holds_path(&self.marked, &path) {
            let rest = analysis::without_path(&self.marked, &path);
            proof {
                screen::lemma_filter_distinct(self.marked@, analysis::other_path(path@));
            }
            self.set_marks(rest);
            self.say("Item unmarked");
            return ;
        }
        if self.has_marked_ancestor(&path) || self.has_marked_tree_ancestor(node_id) {
            self.say("Item is already included by a marked parent");
            return ;
        }
        let mut marked = self.marks_not_below(&path, node_id);
        proof {
            screen::lemma_push_distinct(
                self.marked@,
                not_below(self@.tree, path@, node_id),
                path,
            );
        }
        marked.push(path);
        self.set_marks(marked);
        self.say("Item marked");
    }

    pub(crate) fn selected_row_path(&self) -> (path: Option<FilePath>)
        ensures
            path == self@.selected_path(),
    {
        match self.selected_analysis_row() {
            Some(row) => match &row.path {
                Some(path) => Some(path.clone()),
                None => None,
            },
            None => None,
        }
    }

    /// Marks the selected entry, or takes its mark away.
    pub fn toggle_mark_current(&mut self)
        requires
            old(self).wf(),
        ensures
            final(self).wf(),
            final(self)@ == old(self)@.current_marked(),
    {
        if self.active_view == ViewKind::Tree {
            self.toggle_mark_selected();
            return ;
        }
        let path = match self.selected_row_path() {
            Some(path) => path,
            None => {
                self.say("This summary row cannot be marked");
                return ;
            },
        };
        if !self.can_delete_path(&path) {
            self.say("The analysis root cannot be marked");
            return ;
        }
        if screen::holds_path(&self.marked, &path) {
            let rest = analysis::without_path(&self.marked, &path);
            proof {
                screen::lemma_filter_distinct(self.marked@, analysis::other_path(path@));
            }
            self.set_marks(rest);
            self.say("Item unmarked");
            return ;
        }
        if self.has_marked_ancestor(&path) {
            self.say("Item is already included by a marked parent");
            return ;
        }
        let mut marked = self.marks_not_inside(&path);
        proof {
            screen::lemma_push_distinct(self.marked@, not_inside(path@), path);
        }
        marked.push(path);
        self.set_marks(marked);
        self.say("Item marked");
    }

    pub fn current_delete_item(&self) -> (item: Option<DeleteItem>)
        ensures
            item == self@.current_item(),
    {
        if self.active_view == ViewKind::Tree {
            match self.selected {
                Some(node_id) => match self.tree.get(node_id) {
                    Some(node) => Some(
                        DeleteItem { node_id: Some(node_id), path: node.path.clone() },
                    ),
                    None => None,
                },
                None => None,
            }
        } else {
            match self.selected_row_path() {
                Some(path) => {
                    if self.can_delete_path(&path) {
                        Some(DeleteItem { node_id: None, path })
                    } else {
                        None
                    }
                },
                None => None,
            }
        }
    }

    pub(crate) fn set_mode(&mut self, mode: AppMode)
        requires
            old(self).wf(),
        ensures
            final(self).wf(),
            final(self)@ == old(self)@.with_mode(mode@),
    {
        self.mode = mode;
    }

    /// Asks whether the selected entry is to be deleted.
    pub fn confirm_current_delete(&mut self)
        requires
            old(self).wf(),
        ensures
            final(self).wf(),
            final(self)@ == old(self)@.current_delete_asked(),
    {
        match self.current_delete_item() {
            Some(item) => {
                let items: Vec<DeleteItem> = vec![item];
                assert(items@ =~= seq![item]);
                self.set_mode(AppMode::ConfirmDelete { items, multi: false });
            },
            None => {
                self.say("This row has no deletable path");
            },
        }
    }

    fn collect_marked(&self) -> (items: Vec<DeleteItem>)
        ensures
            items@ == self@.marked_items(),
    {
        let mut items: Vec<DeleteItem> = Vec::new();
        let mut i: usize = 0;
        while i < self.marked.len()
            invariant
                i <= self.marked@.len(),
                items@ == self@.marked_items().take(i as int),
            decreases self.marked@.len() - i,
        {
            let node_id = self.find_node(&self.marked[i]);
            items.push(DeleteItem { node_id, path: self.marked[i].clone() });
            i += 1;
            assert(items@ =~= self@.marked_items().take(i as int));
        }
        assert(items@ =~= self@.marked_items());
        items
    }

    /// Asks whether the marked entries are to be deleted.
    pub fn confirm_marked_delete(&mut self)
        requires
            old(self).wf(),
        ensures
            final(self).wf(),
            final(self)@ == old(self)@.marked_delete_asked(),
    {
        if self.marked.len() == 0 {
            self.say("No items marked");
            return ;
        }
        let items = self.collect_marked();
        let keys = keys_of_items(&items);
        let sorted = order::sort_by_keys(items, &keys);
        self.set_mode(AppMode::ConfirmDelete { items: sorted, multi: true });
    }
}

fn keys_of_items(items: &Vec<DeleteItem>) -> (keys: Vec<Vec<u64>>)
    ensures
        order::contents(keys@) == item_keys(items@),
        keys@.len() == items@.len(),
{
    let mut keys: Vec<Vec<u64>> = Vec::new();
    let mut i: usize = 0;
    while i < items.len()
        invariant
            i <= items@.len(),
            keys@.len() == i,
            order::contents(keys@) == item_keys(items@).take(i as int),
        decreases items@.len() - i,
    {
        let ghost before = keys@;
        keys.push(items[i].path.sort_key());
        i += 1;
        proof {
            assert(order::contents(keys@) =~= order::contents(before).push(
                item_keys(items@)[i - 1],
            ));
            assert(order::contents(keys@) =~= item_keys(items@).take(i as int));
        }
    }
    assert(order::contents(keys@) =~= item_keys(items@));
    keys
}

/// Whether no path of a list lies in another one.
pub open spec fn no_nesting(marked: Seq<FilePath>) -> bool {
    forall|a: FilePath, b: FilePath|
        #![trigger marked.contains(a), marked.contains(b)]
        marked.contains(a) && marked.contains(b) && path::path_starts_with(b@, a@)
            ==> path::same_path(a@, b@)
}

/// Whether all paths of a list lie below the root.
pub open spec fn all_deletable(state: AppModel, marked: Seq<FilePath>) -> bool {
    forall|a: FilePath| #[trigger] marked.contains(a) ==> state.can_delete(a@)
}

proof fn lemma_marked_above(marked: Seq<FilePath>, root: Seq<u8>, path: Seq<u8>, above: FilePath)
    requires
        marked.contains(above),
        path::path_starts_with(path, above@),
        !path::same_path(path, above@),
        path::path_starts_with(above@, root),
        !path::same_path(above@, root),
    ensures
        marked_above(marked, root, path),
    decreases path::components(path).len(),
{
    let p = path::components(path);
    let a = path::components(above@);
    let r = path::components(root);
    assert(a.len() < p.len()) by {
        if a.len() == p.len() {
            assert(a =~= p);
        }
    }
    assert(r.len() < a.len()) by {
        if r.len() == a.len() {
            assert(r =~= a);
        }
    }
    path::parent_drops_the_last_component(path);
    let parent = path::parent_of(path)->0;
    let q = path::components(parent);
    assert(q == p.drop_last());
    if a.len() == q.len() {
        assert(a =~= q);
        let i = choose|i: int| 0 <= i < marked.len() && marked[i] == above;
        assert(path::same_path(marked[i]@, parent));
    } else {
        assert(path::path_starts_with(parent, above@)) by {
            assert(q.subrange(0, a.len() as int) =~= p.subrange(0, a.len() as int));
        }
        assert(!path::same_path(parent, root));
        if !screen::has_path(marked, parent) {
            lemma_marked_above(marked, root, parent, above);
        }
    }
}

proof fn lemma_marks_apart(
    state: AppModel,
    keep: spec_fn(FilePath) -> bool,
    path: FilePath,
)
    requires
        no_nesting(state.marked),
        all_deletable(state, state.marked),
        state.can_delete(path@),
        !screen::has_path(state.marked, path@),
        !marked_above(state.marked, state.root@, path@),
        forall|m: FilePath|
            #![trigger keep(m)]
            keep(m) ==> !path::path_starts_with(m@, path@) || path::same_path(m@, path@),
    ensures
        no_nesting(state.marked.filter(keep).push(path)),
        all_deletable(state, state.marked.filter(keep).push(path)),
{
    let rest = state.marked.filter(keep);
    let all = rest.push(path);
    lists::lemma_push_contains(rest, path);
    assert forall|m: FilePath| rest.contains(m) implies state.marked.contains(m) && keep(m) by {
        state.marked.lemma_filter_contains_rev(keep, m);
        let i = choose|i: int| 0 <= i < rest.len() && rest[i] == m;
        state.marked.lemma_filter_pred(keep, i);
    }
    assert forall|a: FilePath, b: FilePath|
        #![trigger all.contains(a), all.contains(b)]
        all.contains(a) && all.contains(b) && path::path_starts_with(
            b@,
            a@,
        ) implies path::same_path(a@, b@) by {
        if rest.contains(a) && rest.contains(b) {
            assert(state.marked.contains(a) && state.marked.contains(b));
        } else if rest.contains(b) {
            // `b` was kept, so it does not lie in the path.
            assert(a == path);
            assert(keep(b));
        } else if rest.contains(a) {
            assert(b == path);
            assert(state.marked.contains(a));
            if !path::same_path(path@, a@) {
                lemma_marked_above(state.marked, state.root@, path@, a);
            }
        }
    }
    assert forall|a: FilePath| #[trigger] all.contains(a) implies state.can_delete(a@) by {
        if rest.contains(a) {
            assert(state.marked.contains(a));
        }
    }
}

proof fn lemma_fewer_marks(state: AppModel, keep: spec_fn(FilePath) -> bool)
    requires
        no_nesting(state.marked),
        all_deletable(state, state.marked),
    ensures
        no_nesting(state.marked.filter(keep)),
        all_deletable(state, state.marked.filter(keep)),
{
    let rest = state.marked.filter(keep);
    assert forall|m: FilePath| #[trigger] rest.contains(m) implies state.marked.contains(m) by {
        state.marked.lemma_filter_contains_rev(keep, m);
    }
}

/// Marking an entry below the root leaves no marked path inside another one, so
/// that nothing is deleted twice.
pub proof fn marks_stay_apart(state: AppModel)
    requires
        no_nesting(state.marked),
        all_deletable(state, state.marked),
        state.current_item() matches Some(item) ==> state.can_delete(item.path@),
    ensures
        no_nesting(state.current_marked().marked),
        all_deletable(state.current_marked(), state.current_marked().marked),
{
    if let Some(item) = state.current_item() {
        let path = item.path;
        if screen::has_path(state.marked, path@) {
            lemma_fewer_marks(state, analysis::other_path(path@));
        } else if !marked_above(state.marked, state.root@, path@) {
            if state.active_view == ViewKind::Tree {
                lemma_marks_apart(state, not_below(state.tree, path@, item.node_id->0), path);
            } else {
                lemma_marks_apart(state, not_inside(path@), path);
            }
        }
    }
}

/// The node of an entry that was deleted.
pub open spec fn item_node(tree: TreeModel, item: DeleteItem) -> Option<NodeId> {
    if item.node_id is Some {
        item.node_id
    } else {
        scan::node_at(tree, item.path@)
    }
}

/// A list with a name, once.
pub open spec fn with_id(list: Seq<NodeId>, id: NodeId) -> Seq<NodeId> {
    if list.contains(id) {
        list
    } else {
        list.push(id)
    }
}

/// A list with some names, each once.
pub open spec fn with_ids(list: Seq<NodeId>, more: Seq<NodeId>) -> Seq<NodeId>
    decreases more.len(),
{
    if more.len() == 0 {
        list
    } else {
        with_id(with_ids(list, more.drop_last()), more.last())
    }
}

/// The ancestors of a node below the root.
pub open spec fn inner_ancestors(tree: TreeModel, id: NodeId) -> Seq<NodeId> {
    tree::ancestor_ids(tree, id).filter(tree::other_than(tree.root))
}

/// The directories that have to be measured again when entries are deleted.
pub open spec fn affected(tree: TreeModel, items: Seq<DeleteItem>) -> Seq<NodeId>
    decreases items.len(),
{
    if items.len() == 0 {
        Seq::empty()
    } else {
        let rest = affected(tree, items.drop_last());
        match item_node(tree, items.last()) {
            Some(id) => with_ids(rest, inner_ancestors(tree, id)),
            None => rest,
        }
    }
}

/// What an index holds of a path: as a directory, or else as a file.
pub open spec fn indexed_usage(index: IndexModel, path: Seq<u8>) -> UsageStats {
    match analytics::directory_usage(index.directories, path) {
        Some(usage) => usage,
        None => match analytics::file_at(index.files, path) {
            Some(file) => file.usage,
            None => UsageStats::zero(),
        },
    }
}

/// The index without an entry: the directories above it take up less.
pub open spec fn index_without(index: IndexModel, path: Seq<u8>) -> IndexModel {
    (IndexModel {
        directories: analysis::offset_directories(
            index.directories,
            path,
            indexed_usage(index, path),
            UsageStats::zero(),
        ),
        ..index
    }).without_subtree(path)
}

/// The nodes of a tree.
pub open spec fn in_tree(tree: TreeModel) -> spec_fn(NodeId) -> bool {
    |id: NodeId| tree.nodes.contains_key(id)
}

pub open spec fn node_path_keys(tree: TreeModel, ids: Seq<NodeId>) -> Seq<Seq<u64>> {
    Seq::new(ids.len(), |i: int| path::path_key(tree.nodes[ids[i]].path@))
}

/// The nodes that are still in a tree, in the order of their paths.
pub open spec fn remaining(tree: TreeModel, ids: Seq<NodeId>) -> Seq<NodeId> {
    let left = ids.filter(in_tree(tree));
    order::sorted_by(left, node_path_keys(tree, left))
}

impl AppModel {
    pub open spec fn subtree_uncached(self, path: Seq<u8>) -> AppModel {
        AppModel { cache: self.cache.without_subtree(path), ..self }
    }

    /// The state with nothing in the cache for entries that were deleted.
    pub open spec fn items_uncached(self, items: Seq<DeleteItem>) -> AppModel
        decreases items.len(),
    {
        if items.len() == 0 {
            self
        } else {
            self.items_uncached(items.drop_last()).subtree_uncached(items.last().path@)
        }
    }

    pub open spec fn node_removed(self, item: DeleteItem) -> AppModel {
        match item_node(self.tree, item) {
            Some(id) => AppModel { tree: tree::without_subtree(self.tree, id), ..self },
            None => self,
        }
    }

    pub open spec fn unindexed(self, path: Seq<u8>) -> AppModel {
        self.with_index(
            match self.analysis_index {
                Some(index) => Some(index_without(index, path)),
                None => None,
            },
        )
    }

    /// The state without the marks in a directory.
    pub open spec fn subtree_unmarked(self, path: Seq<u8>) -> AppModel {
        self.with_marks(self.marked.filter(analysis::path_outside(path)))
    }

    /// The state without an entry that was deleted: it is gone from the tree,
    /// from the marks and from the index.
    pub open spec fn item_removed(self, item: DeleteItem) -> AppModel {
        self.node_removed(item).subtree_unmarked(item.path@).unindexed(item.path@)
    }

    pub open spec fn items_removed(self, items: Seq<DeleteItem>) -> AppModel
        decreases items.len(),
    {
        if items.len() == 0 {
            self
        } else {
            self.items_removed(items.drop_last()).item_removed(items.last())
        }
    }

    /// Whether the selected node is gone.
    pub open spec fn lost_selection(self) -> bool {
        self.selected matches Some(id) && !self.tree.nodes.contains_key(id)
    }

    /// The state back in its normal mode after a deletion.
    pub open spec fn deletion_noted(self, notice: Seq<char>) -> AppModel {
        AppModel {
            selected: if self.lost_selection() {
                None
            } else {
                self.selected
            },
            mode: ModeModel::Browse,
            notice: Some(notice),
            sort_dirty: true,
            ..self
        }
    }

    /// The state with directories measured again, up to the first one for
    /// which that is not possible.
    pub open spec fn rescanned(self, ids: Seq<NodeId>) -> (AppModel, Option<Seq<char>>)
        decreases ids.len(),
    {
        if ids.len() == 0 {
            (self, None)
        } else {
            let (state, error) = self.rescanned(ids.drop_last());
            if error is Some {
                (state, error)
            } else {
                (
                    state.size_queued(ids.last(), true),
                    state.measure_error(ids.last(), true),
                )
            }
        }
    }

    /// The state after a deletion, and what went wrong with it.
    pub open spec fn deletion_applied(self, moved: Seq<DeleteItem>, notice: Seq<char>) -> (
        AppModel,
        Option<Seq<char>>,
    ) {
        let place = match self.selected_row() {
            Some(index) => index,
            None => 0,
        };
        let gone = self.items_uncached(moved).items_removed(moved);
        let lost = gone.lost_selection();
        let noted = gone.deletion_noted(notice);
        let (asked, error) = noted.rescanned(
            remaining(noted.tree, affected(self.tree, moved)),
        );
        if error is Some {
            (asked, error)
        } else {
            let shown = asked.rebuilt().rows_rebuilt();
            if lost && shown.visible.len() > 0 {
                (shown.with_row(
                    if place < shown.visible.len() {
                        place
                    } else {
                        shown.visible.len() - 1
                    },
                ), None)
            } else {
                (shown, None)
            }
        }
    }
}

pub(crate) fn add_id(list: &mut Vec<NodeId>, id: NodeId)
    ensures
        final(list)@ == with_id(old(list)@, id),
{
    let mut i: usize = 0;
    while i < list.len()
        invariant
            i <= list@.len(),
            list@ == old(list)@,
            forall|j: int| 0 <= j < i ==> #[trigger] list@[j] != id,
        decreases list@.len() - i,
    {
        if list[i] == id {
            assert(list@[i as int] == id);
            return ;
        }
        i += 1;
    }
    list.push(id);
}

/// The usage that an index holds of a path.
fn usage_in_index(index: &AnalysisIndex, path: &FilePath) -> (usage: UsageStats)
    ensures
        usage == indexed_usage(index@, path@),
{
    match analytics::find_directory_usage(&index.directories, path) {
        Some(usage) => usage,
        None => match analytics::find_file(&index.files, path) {
            Some(place) => index.files[place].usage,
            None => UsageStats::default(),
        },
    }
}

fn take_out(index: &mut AnalysisIndex, path: &FilePath)
    ensures
        final(index)@ == index_without(old(index)@, path@),
{
    let removed = usage_in_index(index, path);
    let nothing = UsageStats::default();
    analysis::offset_usages(&mut index.directories, path, removed, nothing);
    index.remove_subtree(path);
}

impl App {
    fn node_of_item(&self, item: &DeleteItem) -> (id: Option<NodeId>)
        ensures
            id == item_node(self@.tree, *item),
    {
        match item.node_id {
            Some(id) => Some(id),
            None => self.find_node(&item.path),
        }
    }

    pub(crate) fn add_inner_ancestors(&self, list: &mut Vec<NodeId>, id: NodeId)
        requires
            self.wf(),
        ensures
            final(list)@ == with_ids(old(list)@, inner_ancestors(self@.tree, id)),
    {
        let ghost before = list@;
        let ghost keep = tree::other_than(self@.tree.root);
        let ids = self.tree.ancestors_of(id);
        let mut i: usize = 0;
        proof {
            reveal(Seq::filter);
            assert(ids@.take(0) =~= Seq::empty());
            assert(ids@.take(0).filter(keep) =~= Seq::empty());
        }
        while i < ids.len()
            invariant
                i <= ids@.len(),
                keep == tree::other_than(self@.tree.root),
                list@ == with_ids(before, ids@.take(i as int).filter(keep)),
            decreases ids@.len() - i,
        {
            proof {
                lists::lemma_filter_step(ids@, keep, i as int);
            }
            if ids[i] != self.tree.root_id {
                let ghost some = ids@.take(i as int).filter(keep);
                add_id(list, ids[i]);
                assert(some.push(ids@[i as int]).drop_last() =~= some);
            }
            i += 1;
        }
        assert(ids@.take(i as int) =~= ids@);
    }

    fn find_affected(&self, items: &Vec<DeleteItem>) -> (ids: Vec<NodeId>)
        requires
            self.wf(),
        ensures
            ids@ == affected(self@.tree, items@),
    {
        let mut ids: Vec<NodeId> = Vec::new();
        let mut i: usize = 0;
        assert(ids@ =~= affected(self@.tree, items@.take(0)));
        while i < items.len()
            invariant
                i <= items@.len(),
                self.wf(),
                ids@ == affected(self@.tree, items@.take(i as int)),
            decreases items@.len() - i,
        {
            assert(items@.take(i + 1).drop_last() =~= items@.take(i as int));
            if let Some(id) = self.node_of_item(&items[i]) {
                self.add_inner_ancestors(&mut ids, id);
            }
            i += 1;
        }
        assert(items@.take(i as int) =~= items@);
        ids
    }

    pub(crate) fn uncache_subtree(&mut self, path: &FilePath)
        requires
            old(self).wf(),
        ensures
            final(self).wf(),
            final(self)@ == old(self)@.subtree_uncached(path@),
    {
        self.cache.invalidate_subtree(path);
    }

    fn uncache_items(&mut self, items: &Vec<DeleteItem>)
        requires
            old(self).wf(),
        ensures
            final(self).wf(),
            final(self)@ == old(self)@.items_uncached(items@),
    {
        let ghost before = self@;
        let mut i: usize = 0;
        while i < items.len()
            invariant
                i <= items@.len(),
                self.wf(),
                self@ == before.items_uncached(items@.take(i as int)),
            decreases items@.len() - i,
        {
            assert(items@.take(i + 1).drop_last() =~= items@.take(i as int));
            self.uncache_subtree(&items[i].path);
            i += 1;
        }
        assert(items@.take(i as int) =~= items@);
    }

    fn remove_item(&mut self, item: &DeleteItem)
        requires
            old(self).wf(),
        ensures
            final(self).wf(),
            final(self)@ == old(self)@.item_removed(*item),
    {
        self.remove_node(item);
        self.unmark_subtree(&item.path);
        self.unindex(&item.path);
    }

    fn remove_node(&mut self, item: &DeleteItem)
        requires
            old(self).wf(),
        ensures
            final(self).wf(),
            final(self)@ == old(self)@.node_removed(*item),
    {
        let node = self.node_of_item(item);
        if let Some(id) = node {
            let _ = self.tree.remove_subtree(id);
        }
    }

    pub(crate) fn unmark_subtree(&mut self, path: &FilePath)
        requires
            old(self).wf(),
        ensures
            final(self).wf(),
            final(self)@ == old(self)@.subtree_unmarked(path@),
    {
        let marked = analysis::without_subtree(&self.marked, path);
        proof {
            screen::lemma_filter_distinct(self.marked@, analysis::path_outside(path@));
        }
        self.marked = marked;
    }

    fn unindex(&mut self, path: &FilePath)
        requires
            old(self).wf(),
        ensures
            final(self).wf(),
            final(self)@ == old(self)@.unindexed(path@),
    {
        let mut current: Option<AnalysisIndex> = None;
        core::mem::swap(&mut current, &mut self.analysis_index);
        if let Some(mut index) = current {
            take_out(&mut index, path);
            self.analysis_index = Some(index);
        }
    }

    fn remove_items(&mut self, items: &Vec<DeleteItem>)
        requires
            old(self).wf(),
        ensures
            final(self).wf(),
            final(self)@ == old(self)@.items_removed(items@),
    {
        let ghost before = self@;
        let mut i: usize = 0;
        while i < items.len()
            invariant
                i <= items@.len(),
                self.wf(),
                self@ == before.items_removed(items@.take(i as int)),
            decreases items@.len() - i,
        {
            assert(items@.take(i + 1).drop_last() =~= items@.take(i as int));
            self.remove_item(&items[i]);
            i += 1;
        }
        assert(items@.take(i as int) =~= items@);
    }

    fn selection_is_lost(&self) -> (result: bool)
        ensures
            result == self@.lost_selection(),
    {
        match self.selected {
            Some(id) => !self.tree.contains_key(id),
            None => false,
        }
    }

    fn note_deletion(&mut self, notice: &str)
        requires
            old(self).wf(),
        ensures
            final(self).wf(),
            final(self)@ == old(self)@.deletion_noted(notice@),
    {
        let selected: Option<NodeId> = if self.selection_is_lost() {
            None
        } else {
            self.selected
        };
        self.selected = selected;
        self.mode = AppMode::Browse;
        self.notice = Some(notice.to_owned());
        self.sort_dirty = true;
    }

    fn find_remaining(&self, ids: &Vec<NodeId>) -> (left: Vec<NodeId>)
        ensures
            left@ == remaining(self@.tree, ids@),
    {
        let ghost keep = in_tree(self@.tree);
        let mut left: Vec<NodeId> = Vec::new();
        let mut keys: Vec<Vec<u64>> = Vec::new();
        let mut i: usize = 0;
        proof {
            reveal(Seq::filter);
            assert(ids@.take(0) =~= Seq::empty());
            assert(left@ =~= ids@.take(0).filter(keep));
            assert(order::contents(keys@) =~= node_path_keys(self@.tree, left@));
        }
        while i < ids.len()
            invariant
                i <= ids@.len(),
                keep == in_tree(self@.tree),
                left@ == ids@.take(i as int).filter(keep),
                keys@.len() == left@.len(),
                order::contents(keys@) == node_path_keys(self@.tree, left@),
            decreases ids@.len() - i,
        {
            proof {
                lists::lemma_filter_step(ids@, keep, i as int);
            }
            if let Some(node) = self.tree.get(ids[i]) {
                let ghost before = keys@;
                let ghost some = left@;
                keys.push(node.path.sort_key());
                left.push(ids[i]);
                proof {
                    assert(order::contents(keys@) =~= order::contents(before).push(
                        path::path_key(self@.tree.nodes[ids@[i as int]].path@),
                    ));
                    assert(order::contents(keys@) =~= node_path_keys(self@.tree, left@));
                }
            }
            i += 1;
        }
        assert(ids@.take(i as int) =~= ids@);
        order::sort_by_keys(left, &keys)
    }

    fn rescan_all(&mut self, ids: &Vec<NodeId>) -> (error: Option<String>)
        requires
            old(self).wf(),
        ensures
            final(self).wf(),
            old(self)@.rescanned(ids@) == (final(self)@, tree::text_view(error)),
    {
        let ghost before = self@;
        let mut i: usize = 0;
        while i < ids.len()
            invariant
                i <= ids@.len(),
                self.wf(),
                before.rescanned(ids@.take(i as int)) == (self@, None::<Seq<char>>),
                before == old(self)@,
            decreases ids@.len() - i,
        {
            assert(ids@.take(i + 1).drop_last() =~= ids@.take(i as int));
            if let Err(message) = self.rescan_size(ids[i]) {
                proof {
                    lemma_first_failure(before, ids@, i + 1);
                }
                return Some(message);
            }
            i += 1;
        }
        assert(ids@.take(i as int) =~= ids@);
        None
    }
}

proof fn lemma_first_failure(state: AppModel, ids: Seq<NodeId>, count: int)
    requires
        0 <= count <= ids.len(),
        state.rescanned(ids.take(count)).1 is Some,
    ensures
        state.rescanned(ids) == state.rescanned(ids.take(count)),
    decreases ids.len(),
{
    if count == ids.len() {
        assert(ids.take(count) =~= ids);
    } else {
        let rest = ids.drop_last();
        assert(rest.take(count) =~= ids.take(count));
        lemma_first_failure(state, rest, count);
    }
}

impl App {
    /// Takes deleted entries out of the state.
    pub fn apply_deleted_nodes(&mut self, moved: &Vec<DeleteItem>, notice: &str) -> (result: Result<
        (),
        String,
    >)
        requires
            old(self).wf(),
        ensures
            final(self).wf(),
            old(self)@.deletion_applied(moved@, notice@) == (
                final(self)@,
                match result {
                    Ok(_) => None,
                    Err(message) => Some(message@),
                },
            ),
    {
        let place: usize = match self.selected_index() {
            Some(index) => index,
            None => 0,
        };
        let ids = self.find_affected(moved);
        self.uncache_items(moved);
        self.remove_items(moved);
        let lost: bool = self.selection_is_lost();
        self.note_deletion(notice);
        let left = self.find_remaining(&ids);
        if let Some(message) = self.rescan_all(&left) {
            return Err(message);
        }
        self.rebuild_visible();
        self.rebuild_analysis_rows();
        if lost && self.visible.len() > 0 {
            let last: usize = self.visible.len() - 1;
            self.select_index(
                if place < last {
                    place
                } else {
                    last
                },
            );
        }
        Ok(())
    }
}

/// The first refusal of some validations.
pub open spec fn first_refusal(verdicts: Seq<Result<Seq<u8>, delete::RefusalModel>>) -> Option<
    delete::RefusalModel,
>
    decreases verdicts.len(),
{
    if verdicts.len() == 0 {
        None
    } else {
        match first_refusal(verdicts.drop_last()) {
            Some(refusal) => Some(refusal),
            None => match verdicts.last() {
                Err(refusal) => Some(refusal),
                Ok(_) => None,
            },
        }
    }
}

proof fn lemma_first_refusal(verdicts: Seq<Result<Seq<u8>, delete::RefusalModel>>, count: int)
    requires
        0 <= count <= verdicts.len(),
        first_refusal(verdicts.take(count)) is Some,
    ensures
        first_refusal(verdicts) == first_refusal(verdicts.take(count)),
    decreases verdicts.len(),
{
    if count == verdicts.len() {
        assert(verdicts.take(count) =~= verdicts);
    } else {
        assert(verdicts.drop_last().take(count) =~= verdicts.take(count));
        lemma_first_refusal(verdicts.drop_last(), count);
    }
}

fn find_refusal(verdicts: &Vec<Result<FilePath, DeleteValidationError>>) -> (message: Option<String>)
    ensures
        match message {
            Some(message) => first_refusal(delete::verdict_views(verdicts@)) matches Some(refusal)
                && refusal.text() == message@,
            None => first_refusal(delete::verdict_views(verdicts@)) is None,
        },
{
    let ghost stated = delete::verdict_views(verdicts@);
    let mut i: usize = 0;
    while i < verdicts.len()
        invariant
            i <= verdicts@.len(),
            stated == delete::verdict_views(verdicts@),
            first_refusal(stated.take(i as int)) is None,
        decreases verdicts@.len() - i,
    {
        assert(stated.take(i + 1).drop_last() =~= stated.take(i as int));
        assert(stated.take(i + 1).last() == stated[i as int]);
        if let Err(refusal) = &verdicts[i] {
            proof {
                lemma_first_refusal(stated, i + 1);
            }
            return Some(refusal.message());
        }
        i += 1;
    }
    assert(stated.take(i as int) =~= stated);
    None
}

/// The usages that are known, by what they count in a size mode.
pub open spec fn known_total(sizes: Seq<u64>) -> u64
    decreases sizes.len(),
{
    if sizes.len() == 0 {
        0
    } else {
        tree::saturated(known_total(sizes.drop_last()) + sizes.last())
    }
}

/// Whether an entry is one of those that were asked for.
pub open spec fn was_asked(items: Seq<DeleteItem>, path: Seq<u8>) -> bool {
    exists|i: int| 0 <= i < items.len() && path::same_path((#[trigger] items[i]).path@, path)
}

/// Whether a result speaks only of entries that were asked for.
pub open spec fn is_expected(items: Seq<DeleteItem>, result: ResultModel) -> bool {
    &&& forall|i: int|
        0 <= i < result.moved.len() ==> was_asked(items, (#[trigger] result.moved[i]).path@)
    &&& forall|i: int|
        0 <= i < result.failures.len() ==> was_asked(items, (#[trigger] result.failures[i]).path@)
}

impl AppModel {
    /// The state after the entries that are to be deleted have been validated:
    /// one refusal is enough to move nothing.
    pub open spec fn delete_started(
        self,
        items: Seq<DeleteItem>,
        multi: bool,
        verdicts: Seq<Result<Seq<u8>, delete::RefusalModel>>,
    ) -> AppModel {
        match first_refusal(verdicts) {
            Some(refusal) => self.failed(refusal.text()),
            None => if items.len() == 0 {
                self.with_mode(ModeModel::Browse)
            } else if self.stopped.trash {
                self.failed(app::trash_stopped())
            } else {
                self.asked(
                    EffectModel::Delete { generation: self.generation, root: self.root, items },
                ).with_mode(ModeModel::Deleting { items, multi }).noticed(
                    "Moving "@ + text::decimal(items.len()) + " item(s) to Trash…"@,
                )
            },
        }
    }

    /// What an entry takes up, as far as that is known: by its node, or else by
    /// the index, as a file or as a directory.
    pub open spec fn item_usage(self, item: DeleteItem) -> Option<UsageStats> {
        let of_node = match item.node_id {
            Some(id) => if self.tree.nodes.contains_key(id) {
                self.tree.nodes[id].usage
            } else {
                None
            },
            None => None,
        };
        if of_node is Some {
            of_node
        } else {
            match self.analysis_index {
                Some(index) => match analytics::file_at(index.files, item.path@) {
                    Some(file) => Some(file.usage),
                    None => analytics::directory_usage(index.directories, item.path@),
                },
                None => None,
            }
        }
    }

    /// The sizes of entries that are known.
    pub open spec fn known_sizes(self, items: Seq<DeleteItem>) -> Seq<u64>
        decreases items.len(),
    {
        if items.len() == 0 {
            Seq::empty()
        } else {
            let rest = self.known_sizes(items.drop_last());
            match self.item_usage(items.last()) {
                Some(usage) => rest.push(usage.amount(self.size_mode)),
                None => rest,
            }
        }
    }

    /// How much a deletion freed, in words.
    pub open spec fn freed_text(self, moved: Seq<DeleteItem>) -> Seq<char> {
        let sizes = self.known_sizes(moved);
        let total = crate::format::size_text(known_total(sizes));
        if sizes.len() == moved.len() {
            total + " freed"@
        } else if sizes.len() == 0 {
            "size unknown"@
        } else {
            "at least "@ + total + " freed"@
        }
    }

    /// What a deletion did, in words.
    pub open spec fn deletion_text(self, multi: bool, result: ResultModel) -> Seq<char> {
        let freed = self.freed_text(result.moved);
        if result.failures.len() == 0 && !multi && result.moved.len() == 1 {
            "Moved \""@ + rows::shown_name(result.moved[0].path@) + "\" to Trash — "@ + freed
        } else if result.failures.len() == 0 {
            "Moved "@ + text::decimal(result.moved.len()) + " items to Trash — "@ + freed
        } else {
            "Moved "@ + text::decimal(result.moved.len()) + " items; "@ + text::decimal(
                result.failures.len(),
            ) + " failed — "@ + text::lossy_text(result.failures[0].path@) + ": "@
                + result.failures[0].message
        }
    }

    pub open spec fn quitting(self) -> AppModel {
        AppModel { should_quit: true, ..self }
    }

    pub open spec fn wait_over(self) -> AppModel {
        AppModel { quit_after_delete: false, ..self }
    }

    /// The state with a deletion that the shown error belongs to, if it went
    /// wrong.
    pub open spec fn deletion_shown(self, moved: Seq<DeleteItem>, notice: Seq<char>) -> AppModel {
        let (state, error) = self.deletion_applied(moved, notice);
        match error {
            Some(message) => state.failed(message),
            None => state,
        }
    }

    /// The state after a deletion has come to its end. A result that nobody
    /// waits for is ignored.
    pub open spec fn deletion_reported(self, result: ResultModel) -> AppModel {
        match self.mode {
            ModeModel::Deleting { items, multi } => if result.generation != self.generation {
                self
            } else if !is_expected(items, result) {
                self.failed("Trash worker returned an unexpected item"@)
            } else {
                let notice = self.deletion_text(multi, result);
                let told = if self.quit_after_delete {
                    self.noticed(notice).quitting()
                } else if result.moved.len() > 0 {
                    self.deletion_shown(result.moved, notice)
                } else if result.failures.len() > 0 {
                    self.failed(notice)
                } else {
                    self
                };
                told.wait_over()
            },
            _ => self,
        }
    }
}

/// A result that belongs to another generation, or that nobody waits for,
/// changes nothing.
pub proof fn stale_deletions_change_nothing(state: AppModel, result: ResultModel)
    requires
        result.generation != state.generation || !(state.mode is Deleting),
    ensures
        state.deletion_reported(result) == state,
{
}

/// Nothing is asked to be moved to the Trash unless all entries are valid.
pub proof fn nothing_is_moved_unless_all_is_valid(
    state: AppModel,
    items: Seq<DeleteItem>,
    multi: bool,
    verdicts: Seq<Result<Seq<u8>, delete::RefusalModel>>,
)
    requires
        !delete::all_valid(verdicts),
    ensures
        state.delete_started(items, multi, verdicts).effects == state.effects,
        state.delete_started(items, multi, verdicts).mode is ErrorDialog,
{
    let at = choose|i: int| 0 <= i < verdicts.len() && !(#[trigger] verdicts[i] is Ok);
    lemma_some_refusal(verdicts, at);
}

proof fn lemma_some_refusal(verdicts: Seq<Result<Seq<u8>, delete::RefusalModel>>, at: int)
    requires
        0 <= at < verdicts.len(),
        verdicts[at] is Err,
    ensures
        first_refusal(verdicts) is Some,
    decreases verdicts.len(),
{
    if at < verdicts.len() - 1 {
        lemma_some_refusal(verdicts.drop_last(), at);
    }
}

fn asked_for(items: &Vec<DeleteItem>, path: &FilePath) -> (result: bool)
    ensures
        result == was_asked(items@, path@),
{
    let mut i: usize = 0;
    while i < items.len()
        invariant
            i <= items@.len(),
            forall|j: int| 0 <= j < i ==> !path::same_path((#[trigger] items@[j]).path@, path@),
        decreases items@.len() - i,
    {
        if items[i].path.same(path) {
            return true;
        }
        i += 1;
    }
    false
}

fn expected(items: &Vec<DeleteItem>, result: &DeleteResult) -> (expected: bool)
    ensures
        expected == is_expected(items@, result@),
{
    let mut i: usize = 0;
    while i < result.moved.len()
        invariant
            i <= result.moved@.len(),
            forall|j: int|
                0 <= j < i ==> was_asked(items@, (#[trigger] result@.moved[j]).path@),
        decreases result.moved@.len() - i,
    {
        if !asked_for(items, &result.moved[i].path) {
            assert(!was_asked(items@, result@.moved[i as int].path@));
            return false;
        }
        i += 1;
    }
    let mut k: usize = 0;
    while k < result.failures.len()
        invariant
            k <= result.failures@.len(),
            forall|j: int|
                0 <= j < k ==> was_asked(items@, (#[trigger] result@.failures[j]).path@),
        decreases result.failures@.len() - k,
    {
        assert(result@.failures[k as int].path == result.failures@[k as int].path);
        if !asked_for(items, &result.failures[k].path) {
            return false;
        }
        k += 1;
    }
    true
}

pub(crate) fn copy_items(items: &Vec<DeleteItem>) -> (copy: Vec<DeleteItem>)
    ensures
        copy@ == items@,
{
    let mut copy: Vec<DeleteItem> = Vec::new();
    let mut i: usize = 0;
    while i < items.len()
        invariant
            i <= items@.len(),
            copy@ == items@.take(i as int),
        decreases items@.len() - i,
    {
        copy.push(items[i].clone());
        i += 1;
        assert(copy@ =~= items@.take(i as int));
    }
    assert(copy@ =~= items@);
    copy
}

impl App {
    fn request_delete(&mut self, items: &Vec<DeleteItem>)
        requires
            old(self).wf(),
        ensures
            final(self).wf(),
            final(self)@ == old(self)@.asked(
                EffectModel::Delete {
                    generation: old(self)@.generation,
                    root: old(self)@.root,
                    items: items@,
                },
            ),
    {
        let request = DeleteRequest {
            generation: self.generation,
            root: self.root.clone(),
            items: copy_items(items),
        };
        self.ask(Effect::Delete(request));
    }

    /// Begins to move entries to the Trash, given what validation says of each.
    pub fn start_delete(
        &mut self,
        items: Vec<DeleteItem>,
        multi: bool,
        verdicts: &Vec<Result<FilePath, DeleteValidationError>>,
    )
        requires
            old(self).wf(),
            items@.len() == verdicts@.len(),
        ensures
            final(self).wf(),
            final(self)@ == old(self)@.delete_started(
                items@,
                multi,
                delete::verdict_views(verdicts@),
            ),
    {
        if let Some(message) = find_refusal(verdicts) {
            self.show_error(message);
            return ;
        }
        if items.len() == 0 {
            self.set_mode(AppMode::Browse);
            return ;
        }
        if self.stopped.trash {
            self.show_error("Trash worker stopped unexpectedly".to_owned());
            return ;
        }
        let mut message = "Moving ".to_owned();
        text::push_count(&mut message, items.len());
        message.append(" item(s) to Trash…");
        self.request_delete(&items);
        self.set_mode(AppMode::Deleting { items, multi });
        self.say(message.as_str());
    }

    /// What an entry takes up, as far as that is known.
    pub fn usage_of_item(&self, item: &DeleteItem) -> (usage: Option<UsageStats>)
        ensures
            usage == self@.item_usage(*item),
    {
        if let Some(id) = item.node_id {
            if let Some(node) = self.tree.get(id) {
                if let Some(usage) = node.usage {
                    return Some(usage);
                }
            }
        }
        match &self.analysis_index {
            Some(index) => match analytics::find_file(&index.files, &item.path) {
                Some(place) => Some(index.files[place].usage),
                None => analytics::find_directory_usage(&index.directories, &item.path),
            },
            None => None,
        }
    }

    /// The number of entries whose size is known, and what they add up to.
    fn known_size(&self, items: &Vec<DeleteItem>) -> (known: (usize, u64))
        ensures
            known.0 == self@.known_sizes(items@).len(),
            known.1 == known_total(self@.known_sizes(items@)),
    {
        let mut count: usize = 0;
        let mut total: u64 = 0;
        let mut i: usize = 0;
        assert(self@.known_sizes(items@.take(0)) =~= Seq::empty());
        while i < items.len()
            invariant
                i <= items@.len(),
                count <= i,
                count == self@.known_sizes(items@.take(i as int)).len(),
                total == known_total(self@.known_sizes(items@.take(i as int))),
            decreases items@.len() - i,
        {
            assert(items@.take(i + 1).drop_last() =~= items@.take(i as int));
            let ghost sizes = self@.known_sizes(items@.take(i as int));
            if let Some(usage) = self.usage_of_item(&items[i]) {
                let size: u64 = usage.size(self.size_mode);
                assert(sizes.push(size).drop_last() =~= sizes);
                count += 1;
                total = total.saturating_add(size);
            }
            i += 1;
        }
        assert(items@.take(i as int) =~= items@);
        (count, total)
    }

    fn freed(&self, moved: &Vec<DeleteItem>) -> (result: String)
        ensures
            result@ == self@.freed_text(moved@),
    {
        let (count, total) = self.known_size(moved);
        let size = crate::format::format_size(total);
        if count == moved.len() {
            let mut result = size;
            result.append(" freed");
            result
        } else if count == 0 {
            "size unknown".to_owned()
        } else {
            let mut result = "at least ".to_owned();
            result.append(size.as_str());
            result.append(" freed");
            result
        }
    }

    fn describe_deletion(&self, multi: bool, result: &DeleteResult) -> (told: String)
        ensures
            told@ == self@.deletion_text(multi, result@),
    {
        let freed = self.freed(&result.moved);
        if result.failures.len() == 0 && !multi && result.moved.len() == 1 {
            let mut told = "Moved \"".to_owned();
            told.append(rows::name_of(&result.moved[0].path).as_str());
            told.append("\" to Trash — ");
            told.append(freed.as_str());
            told
        } else if result.failures.len() == 0 {
            let mut told = "Moved ".to_owned();
            text::push_count(&mut told, result.moved.len());
            told.append(" items to Trash — ");
            told.append(freed.as_str());
            told
        } else {
            let mut told = "Moved ".to_owned();
            text::push_count(&mut told, result.moved.len());
            told.append(" items; ");
            text::push_count(&mut told, result.failures.len());
            told.append(" failed — ");
            told.append(result.failures[0].path.display().as_str());
            told.append(": ");
            told.append(result.failures[0].message.as_str());
            told
        }
    }

    fn quit(&mut self)
        requires
            old(self).wf(),
        ensures
            final(self).wf(),
            final(self)@ == old(self)@.quitting(),
    {
        self.should_quit = true;
    }

    fn end_wait(&mut self)
        requires
            old(self).wf(),
        ensures
            final(self).wf(),
            final(self)@ == old(self)@.wait_over(),
    {
        self.quit_after_delete = false;
    }

    fn show_deletion(&mut self, moved: &Vec<DeleteItem>, notice: &str)
        requires
            old(self).wf(),
        ensures
            final(self).wf(),
            final(self)@ == old(self)@.deletion_shown(moved@, notice@),
    {
        if let Err(message) = self.apply_deleted_nodes(moved, notice) {
            self.show_error(message);
        }
    }

    /// Takes in what came of a deletion.
    pub fn handle_delete_result(&mut self, result: DeleteResult)
        requires
            old(self).wf(),
        ensures
            final(self).wf(),
            final(self)@ == old(self)@.deletion_reported(result@),
    {
        if result.generation != self.generation {
            return ;
        }
        let (wanted, multi) = match &self.mode {
            AppMode::Deleting { items, multi } => (expected(items, &result), *multi),
            _ => {
                return ;
            },
        };
        if !wanted {
            self.show_error("Trash worker returned an unexpected item".to_owned());
            return ;
        }
        let notice = self.describe_deletion(multi, &result);
        if self.quit_after_delete {
            self.say(notice.as_str());
            self.quit();
        } else if result.moved.len() > 0 {
            self.show_deletion(&result.moved, notice.as_str());
        } else if result.failures.len() > 0 {
            self.show_error(notice);
        }
        self.end_wait();
    }
}

/// One more size adds to the total, which stays at the largest number beyond it.
pub proof fn known_sizes_add_up(sizes: Seq<u64>, size: u64)
    ensures
        known_total(Seq::empty()) == 0,
        known_total(sizes) + size <= u64::MAX ==> known_total(sizes.push(size)) == known_total(
            sizes,
        ) + size,
        known_total(sizes) + size > u64::MAX ==> known_total(sizes.push(size)) == u64::MAX,
{
    assert(sizes.push(size).drop_last() =~= sizes);
}

/// One more item of known usage adds its size in the way to measure; one of
/// unknown usage adds nothing.
pub proof fn known_items_have_their_size(state: AppModel, items: Seq<DeleteItem>, item: DeleteItem)
    ensures
        ({
            let before = state.known_sizes(items);
            let after = state.known_sizes(items.push(item));
            &&& state.known_sizes(Seq::empty()).len() == 0
            &&& state.item_usage(item) is None ==> after == before
            &&& state.item_usage(item) is Some && state.size_mode == tree::SizeMode::Logical ==> after
                == before.push(state.item_usage(item)->0.logical)
            &&& state.item_usage(item) is Some && state.size_mode == tree::SizeMode::Physical ==> after
                == before.push(state.item_usage(item)->0.physical)
        }),
{
    assert(items.push(item).drop_last() =~= items);
}

/// The usage of an item is that of its node where it is known, and else that of
/// the file or directory of its path in the index.
pub proof fn items_take_up_what_their_node_does(state: AppModel, item: DeleteItem)
    ensures
        ({
            let at_node = item.node_id is Some && state.tree.nodes.contains_key(item.node_id->0)
                && state.tree.nodes[item.node_id->0].usage is Some;
            &&& at_node ==> state.item_usage(item) == state.tree.nodes[item.node_id->0].usage
            &&& !at_node && state.analysis_index is None ==> state.item_usage(item) is None
            &&& !at_node && state.analysis_index is Some && analytics::file_at(
                state.analysis_index->0.files,
                item.path@,
            ) is Some ==> state.item_usage(item) == Some(
                analytics::file_at(state.analysis_index->0.files, item.path@)->0.usage,
            )
            &&& !at_node && state.analysis_index is Some && analytics::file_at(
                state.analysis_index->0.files,
                item.path@,
            ) is None ==> state.item_usage(item) == analytics::directory_usage(
                state.analysis_index->0.directories,
                item.path@,
            )
        }),
{
}

/// What was freed is told as the sum of the sizes, as a lower bound where some
/// are not known, and as unknown where none is.
pub proof fn freed_space_is_told_as_far_as_known(state: AppModel, moved: Seq<DeleteItem>)
    ensures
        ({
            let sizes = state.known_sizes(moved);
            let total = crate::format::size_text(known_total(sizes));
            &&& sizes.len() == moved.len() ==> state.freed_text(moved) == total + " freed"@
            &&& 0 < sizes.len() < moved.len() ==> state.freed_text(moved) == "at least "@ + total
                + " freed"@
            &&& sizes.len() == 0 && moved.len() > 0 ==> state.freed_text(moved) == "size unknown"@
        }),
{
}

/// Taking a path out of an index takes its usage off the directories above it
/// and drops what lies below it; all other directories keep theirs.
pub proof fn deleted_paths_are_taken_off(index: IndexModel, path: Seq<u8>, i: int)
    requires
        0 <= i < index.directories.len(),
    ensures
        ({
            let directory = index.directories[i];
            let gone = indexed_usage(index, path);
            let rest = index_without(index, path).directories;
            let above = path::path_starts_with(path, directory.path@) && !path::same_path(
                directory.path@,
                path,
            );
            &&& !path::path_starts_with(directory.path@, path) && !above ==> rest.contains(
                directory,
            )
            &&& !path::path_starts_with(directory.path@, path) && above ==> exists|k: int|
                0 <= k < rest.len() && (#[trigger] rest[k]).path == directory.path
                    && rest[k].usage.logical == (if directory.usage.logical >= gone.logical {
                    directory.usage.logical - gone.logical
                } else {
                    0int
                }) && rest[k].usage.physical == (if directory.usage.physical >= gone.physical {
                    directory.usage.physical - gone.physical
                } else {
                    0int
                }) && rest[k].usage.files == (if directory.usage.files >= gone.files {
                    directory.usage.files - gone.files
                } else {
                    0int
                })
            &&& forall|k: int|
                0 <= k < rest.len() ==> !path::path_starts_with((#[trigger] rest[k]).path@, path)
        }),
{
    let offset = analysis::offset_directories(
        index.directories,
        path,
        indexed_usage(index, path),
        UsageStats::zero(),
    );
    let keep = analytics::directory_outside(path);
    let rest = index_without(index, path).directories;
    assert(rest == offset.filter(keep));
    let directory = index.directories[i];
    if !path::path_starts_with(directory.path@, path) {
        assert(keep(offset[i]));
        offset.lemma_filter_contains(keep, i);
        let k = choose|k: int| 0 <= k < rest.len() && rest[k] == offset[i];
        assert(rest[k].path == directory.path);
    }
    assert forall|k: int| 0 <= k < rest.len() implies !path::path_starts_with(
        (#[trigger] rest[k]).path@,
        path,
    ) by {
        offset.lemma_filter_pred(keep, k);
    }
}

/// The usage of a path in an index is that of the directory there, or else of the
/// file there, or nothing.
pub proof fn indexed_paths_take_up_what_is_recorded(index: IndexModel, path: Seq<u8>)
    ensures
        ({
            let directory = analytics::directory_usage(index.directories, path);
            let file = analytics::file_at(index.files, path);
            &&& directory is Some ==> indexed_usage(index, path) == directory->0
            &&& directory is None && file is Some ==> indexed_usage(index, path) == file->0.usage
            &&& directory is None && file is None ==> indexed_usage(index, path) == (UsageStats {
                logical: 0,
                physical: 0,
                files: 0,
            })
        }),
{
}

/// The first refusal is what is shown.
pub proof fn the_first_refusal_is_shown(
    verdicts: Seq<Result<Seq<u8>, delete::RefusalModel>>,
    i: int,
)
    requires
        0 <= i < verdicts.len(),
        verdicts[i] is Err,
        forall|k: int| 0 <= k < i ==> (#[trigger] verdicts[k]) is Ok,
    ensures
        first_refusal(verdicts) == Some(verdicts[i]->Err_0),
    decreases verdicts.len(),
{
    let front = verdicts.drop_last();
    if i < front.len() {
        assert(front[i] == verdicts[i]);
        assert forall|k: int| 0 <= k < i implies (#[trigger] front[k]) is Ok by {
            assert(verdicts[k] is Ok);
        }
        the_first_refusal_is_shown(front, i);
    } else {
        lemma_no_refusal(front);
    }
}

proof fn lemma_no_refusal(verdicts: Seq<Result<Seq<u8>, delete::RefusalModel>>)
    requires
        forall|k: int| 0 <= k < verdicts.len() ==> (#[trigger] verdicts[k]) is Ok,
    ensures
        first_refusal(verdicts) is None,
    decreases verdicts.len(),
{
    if verdicts.len() > 0 {
        let front = verdicts.drop_last();
        assert forall|k: int| 0 <= k < front.len() implies (#[trigger] front[k]) is Ok by {
            assert(verdicts[k] is Ok);
        }
        lemma_no_refusal(front);
        assert(verdicts[verdicts.len() - 1] is Ok);
    }
}

/// Marking a marked entry unmarks it and no other.
pub proof fn a_marked_entry_is_unmarked(state: AppModel, id: NodeId, other: FilePath)
    requires
        state.selected == Some(id),
        state.tree.nodes.contains_key(id),
        screen::has_path(state.marked, state.tree.nodes[id].path@),
    ensures
        ({
            let after = state.selected_marked();
            after.marked.contains(other) <==> state.marked.contains(other) && !path::same_path(
                other@,
                state.tree.nodes[id].path@,
            )
        }),
{
    let keep = analysis::other_path(state.tree.nodes[id].path@);
    let kept = state.marked.filter(keep);
    if kept.contains(other) {
        state.marked.lemma_filter_contains_rev(keep, other);
        let k = choose|k: int| 0 <= k < kept.len() && kept[k] == other;
        state.marked.lemma_filter_pred(keep, k);
    }
    if state.marked.contains(other) && keep(other) {
        let k = choose|k: int| 0 <= k < state.marked.len() && state.marked[k] == other;
        state.marked.lemma_filter_contains(keep, k);
    }
}

/// Marking an entry that is not marked and lies in no marked directory marks it
/// and unmarks what lies below it; all other marks stay.
pub proof fn an_unmarked_entry_is_marked(state: AppModel, id: NodeId, other: FilePath)
    requires
        state.selected == Some(id),
        state.tree.nodes.contains_key(id),
        !screen::has_path(state.marked, state.tree.nodes[id].path@),
        !marked_above(state.marked, state.root@, state.tree.nodes[id].path@),
        !any_marked(state.tree, state.marked, tree::ancestor_ids(state.tree, id)),
    ensures
        ({
            let after = state.selected_marked();
            let path = state.tree.nodes[id].path;
            &&& after.marked.contains(path)
            &&& after.marked.contains(other) && other != path ==> state.marked.contains(other)
            &&& state.marked.contains(other) && !lies_below(state.tree, other@, path@, id)
                ==> after.marked.contains(other)
            &&& state.marked.contains(other) && path::path_starts_with(other@, path@) && other
                != path ==> !after.marked.contains(other)
        }),
{
    let path = state.tree.nodes[id].path;
    let keep = not_below(state.tree, path@, id);
    let kept = state.marked.filter(keep);
    let after = state.selected_marked().marked;
    assert(after == kept.push(path));
    assert(after[kept.len() as int] == path);
    if after.contains(other) && other != path {
        let k = choose|k: int| 0 <= k < after.len() && after[k] == other;
        assert(kept[k] == other);
        state.marked.lemma_filter_contains_rev(keep, other);
        state.marked.lemma_filter_pred(keep, k);
        if path::path_starts_with(other@, path@) {
            assert(path::same_path(other@, path@));
            let m = choose|m: int| 0 <= m < state.marked.len() && state.marked[m] == other;
            assert(path::same_path(state.marked[m]@, path@));
        }
    }
    if state.marked.contains(other) && keep(other) {
        let k = choose|k: int| 0 <= k < state.marked.len() && state.marked[k] == other;
        state.marked.lemma_filter_contains(keep, k);
        let m = choose|m: int| 0 <= m < kept.len() && kept[m] == other;
        assert(after[m] == other);
    }
}

pub proof fn lemma_with_ids(list: Seq<NodeId>, more: Seq<NodeId>, id: NodeId)
    ensures
        with_ids(list, more).contains(id) <==> list.contains(id) || more.contains(id),
    decreases more.len(),
{
    if more.len() > 0 {
        let front = more.drop_last();
        let before = with_ids(list, front);
        lemma_with_ids(list, front, id);
        lemma_with_ids(list, front, more.last());
        assert(more.contains(id) <==> front.contains(id) || id == more.last()) by {
            if more.contains(id) {
                let k = choose|k: int| 0 <= k < more.len() && more[k] == id;
                if k < front.len() {
                    assert(front[k] == id);
                }
            }
            if front.contains(id) {
                let k = choose|k: int| 0 <= k < front.len() && front[k] == id;
                assert(more[k] == id);
            }
            assert(more[more.len() - 1] == more.last());
        }
        if !before.contains(more.last()) {
            let after = before.push(more.last());
            if after.contains(id) {
                let k = choose|k: int| 0 <= k < after.len() && after[k] == id;
                if k < before.len() {
                    assert(before[k] == id);
                }
            }
            if before.contains(id) {
                let k = choose|k: int| 0 <= k < before.len() && before[k] == id;
                assert(after[k] == id);
            }
            assert(after[before.len() as int] == more.last());
        }
    } else {
        assert(!more.contains(id));
    }
}

/// A deletion affects the directories above the deleted entries, the root
/// excepted, and no others.
pub proof fn deletions_affect_the_directories_above(
    tree: TreeModel,
    items: Seq<DeleteItem>,
    id: NodeId,
)
    ensures
        affected(tree, items).contains(id) <==> id != tree.root && exists|i: int|
            0 <= i < items.len() && item_node(tree, #[trigger] items[i]) is Some
                && tree::ancestor_ids(tree, item_node(tree, items[i])->0).contains(id),
    decreases items.len(),
{
    if items.len() > 0 {
        let front = items.drop_last();
        let last = items.last();
        deletions_affect_the_directories_above(tree, front, id);
        if item_node(tree, last) is Some {
            let above = tree::ancestor_ids(tree, item_node(tree, last)->0);
            let keep = tree::other_than(tree.root);
            lemma_with_ids(affected(tree, front), inner_ancestors(tree, item_node(tree, last)->0), id);
            if above.filter(keep).contains(id) {
                above.lemma_filter_contains_rev(keep, id);
                let k = choose|k: int| 0 <= k < above.filter(keep).len() && above.filter(keep)[k]
                    == id;
                above.lemma_filter_pred(keep, k);
            }
            if above.contains(id) && keep(id) {
                let k = choose|k: int| 0 <= k < above.len() && above[k] == id;
                above.lemma_filter_contains(keep, k);
            }
        }
        assert(items[items.len() - 1] == last);
        if exists|i: int|
            0 <= i < front.len() && item_node(tree, #[trigger] front[i]) is Some
                && tree::ancestor_ids(tree, item_node(tree, front[i])->0).contains(id) {
            let i = choose|i: int|
                0 <= i < front.len() && item_node(tree, #[trigger] front[i]) is Some
                    && tree::ancestor_ids(tree, item_node(tree, front[i])->0).contains(id);
            assert(items[i] == front[i]);
        }
        if exists|i: int|
            0 <= i < items.len() && item_node(tree, #[trigger] items[i]) is Some
                && tree::ancestor_ids(tree, item_node(tree, items[i])->0).contains(id) {
            let i = choose|i: int|
                0 <= i < items.len() && item_node(tree, #[trigger] items[i]) is Some
                    && tree::ancestor_ids(tree, item_node(tree, items[i])->0).contains(id);
            if i < front.len() {
                assert(front[i] == items[i]);
            }
        }
    }
}

/// What was moved is told by its name where it is one, and else by its number;
/// where some moves failed, the first failure is told.
pub proof fn deletions_are_told(state: AppModel, multi: bool, result: ResultModel)
    ensures
        ({
            let told = state.deletion_text(multi, result);
            let moved = text::decimal(result.moved.len());
            let freed = state.freed_text(result.moved);
            &&& result.failures.len() == 0 && !multi && result.moved.len() == 1 ==> told
                == "Moved \""@ + rows::shown_name(result.moved[0].path@) + "\" to Trash — "@
                + freed
            &&& result.failures.len() == 0 && (multi || result.moved.len() != 1) ==> told
                == "Moved "@ + moved + " items to Trash — "@ + freed
            &&& result.failures.len() > 0 ==> told == "Moved "@ + moved + " items; "@
                + text::decimal(result.failures.len()) + " failed — "@ + text::lossy_text(
                result.failures[0].path@,
            ) + ": "@ + result.failures[0].message
        }),
{
}

/// The entry to be deleted is the selected one of the view: in the tree a node,
/// elsewhere the path of the row if it lies below the root.
pub proof fn the_selected_entry_is_asked_about(state: AppModel)
    ensures
        state.active_view == ViewKind::Tree && state.selected is Some
            && state.tree.nodes.contains_key(state.selected->0) ==> state.current_item() == Some(
            DeleteItem {
                node_id: state.selected,
                path: state.tree.nodes[state.selected->0].path,
            },
        ),
        state.active_view != ViewKind::Tree && state.analysis_selected < state.analysis_rows.len()
            && state.analysis_rows[state.analysis_selected as int].path is Some && state.can_delete(
            state.analysis_rows[state.analysis_selected as int].path->0@,
        ) ==> state.current_item() == Some(
            DeleteItem {
                node_id: None,
                path: state.analysis_rows[state.analysis_selected as int].path->0,
            },
        ),
        state.current_item() is Some ==> state.current_delete_asked().mode == (
        ModeModel::ConfirmDelete { items: seq![state.current_item()->0], multi: false }),
        state.current_item() is None ==> state.current_delete_asked().mode == state.mode,
{
}

/// All marked entries are asked about at once, in the order of their paths.
pub proof fn all_marked_entries_are_asked_about(state: AppModel)
    requires
        0 < state.marked.len() <= usize::MAX,
    ensures
        state.marked_delete_asked().mode matches ModeModel::ConfirmDelete { items, multi } && multi
            && items.len() == state.marked.len() && forall|path: FilePath|
            state.marked.contains(path) ==> exists|i: int|
                0 <= i < items.len() && (#[trigger] items[i]).path == path,
{
    let all = state.marked_items();
    let items = order::sorted_by(all, item_keys(all));
    order::sorting_keeps_the_items(all, item_keys(all));
    assert forall|path: FilePath| state.marked.contains(path) implies exists|i: int|
        0 <= i < items.len() && (#[trigger] items[i]).path == path by {
        let k = choose|k: int| 0 <= k < state.marked.len() && state.marked[k] == path;
        assert(all.contains(all[k]));
        assert(items.contains(all[k]));
        let i = choose|i: int| 0 <= i < items.len() && items[i] == all[k];
        assert(items[i].path == path);
    }
}

/// A deleted entry goes from the tree and from the index with all below it, and
/// nothing there stays marked; all other marks stay.
pub proof fn deleted_entries_go_everywhere(state: AppModel, item: DeleteItem, path: FilePath)
    ensures
        ({
            let after = state.item_removed(item);
            &&& after.marked.contains(path) <==> state.marked.contains(path)
                && !path::path_starts_with(path@, item.path@)
            &&& state.analysis_index is Some ==> after.analysis_index == Some(
                index_without(state.analysis_index->0, item.path@),
            )
            &&& item.node_id is Some ==> after.tree == tree::without_subtree(
                state.tree,
                item.node_id->0,
            )
            &&& item.node_id is None && scan::node_at(state.tree, item.path@) is None ==> after.tree
                == state.tree
            &&& after.cache == state.cache && after.generation == state.generation
        }),
{
    let keep = analysis::path_outside(item.path@);
    let kept = state.marked.filter(keep);
    if kept.contains(path) {
        state.marked.lemma_filter_contains_rev(keep, path);
        let k = choose|k: int| 0 <= k < kept.len() && kept[k] == path;
        state.marked.lemma_filter_pred(keep, k);
    }
    if state.marked.contains(path) && keep(path) {
        let k = choose|k: int| 0 <= k < state.marked.len() && state.marked[k] == path;
        state.marked.lemma_filter_contains(keep, k);
    }
}

/// A report on a deletion is taken only while one is under way, and only if all
/// its paths were asked about; then the waiting is over.
pub proof fn only_expected_deletions_are_taken(
    state: AppModel,
    items: Seq<DeleteItem>,
    multi: bool,
    result: ResultModel,
)
    requires
        state.mode == (ModeModel::Deleting { items, multi }),
        result.generation == state.generation,
    ensures
        !is_expected(items, result) ==> state.deletion_reported(result) == state.failed(
            "Trash worker returned an unexpected item"@,
        ),
        is_expected(items, result) && state.quit_after_delete ==> state.deletion_reported(
            result,
        ).should_quit && !state.deletion_reported(result).quit_after_delete,
        is_expected(items, result) && !state.quit_after_delete && result.moved.len() == 0
            && result.failures.len() > 0 ==> state.deletion_reported(result).mode
            == ModeModel::ErrorDialog(state.deletion_text(multi, result)),
        forall|i: int|
            is_expected(items, result) && 0 <= i < result.moved.len() ==> exists|k: int|
                0 <= k < items.len() && path::same_path(
                    (#[trigger] items[k]).path@,
                    (#[trigger] result.moved[i]).path@,
                ),
{
    if is_expected(items, result) {
        assert forall|i: int| 0 <= i < result.moved.len() implies exists|k: int|
            0 <= k < items.len() && path::same_path(
                (#[trigger] items[k]).path@,
                (#[trigger] result.moved[i]).path@,
            ) by {
            assert(was_asked(items, result.moved[i].path@));
        }
    }
}

} // verus!
