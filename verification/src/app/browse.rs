//! Opening and closing directories, and the order of the rows.
use vstd::prelude::*;
use vstd::string::StringExecFns;

use crate::app::{App, AppModel, ViewKind};
use crate::path;
use crate::path::FilePath;
use crate::tree;
use crate::tree::{NodeId, NodeKind, NodeModel, ScanState, SortSpec};

verus! {

impl AppModel {
    pub open spec fn collapsed(self, id: NodeId) -> AppModel {
        self.with_node(id, NodeModel { expanded: false, ..self.tree.nodes[id] })
    }

    pub open spec fn with_selected(self, id: NodeId) -> AppModel {
        AppModel { selected: Some(id), ..self }
    }

    /// The state with a directory open. Its entries and its size are asked for
    /// where they are not known.
    pub open spec fn opened(self, id: NodeId) -> AppModel {
        let node = self.tree.nodes[id];
        let reading = self.expanded(id).read(id);
        if node.scan_state == ScanState::NotScanned || node.scan_state == ScanState::Error {
            reading.measured(id, false)
        } else {
            reading
        }
    }

    /// The state with the selected directory open. Mount points stay closed.
    pub open spec fn selection_opened(self) -> AppModel {
        match self.selected {
            None => self,
            Some(id) => if !self.tree.nodes.contains_key(id) || self.tree.nodes[id].kind
                != NodeKind::Directory {
                self.rebuilt().rows_rebuilt()
            } else if self.tree.nodes[id].mountpoint {
                self.noticed("Mount point skipped; use --cross-filesystems to scan it"@)
            } else {
                self.opened(id).rebuilt().rows_rebuilt()
            },
        }
    }

    /// Whether a node is a directory that is open.
    pub open spec fn is_open(self, id: NodeId) -> bool {
        &&& self.tree.nodes.contains_key(id)
        &&& self.tree.nodes[id].kind == NodeKind::Directory
        &&& self.tree.nodes[id].expanded
    }

    /// The state with the selected directory closed. Where it is closed
    /// already, the directory above it is selected.
    pub open spec fn selection_closed(self) -> AppModel {
        match self.selected {
            None => self,
            Some(id) => if self.is_open(id) {
                self.collapsed(id).rebuilt()
            } else if self.tree.nodes.contains_key(id) && self.tree.nodes[id].parent is Some
                && self.tree.nodes[id].parent != Some(self.tree.root) {
                self.with_selected(self.tree.nodes[id].parent->0).scrolled()
            } else {
                self
            },
        }
    }

    /// The state with the selected directory closed if it is open, and opened
    /// if it is closed.
    pub open spec fn selection_toggled(self) -> AppModel {
        match self.selected {
            None => self,
            Some(id) => if self.is_open(id) {
                self.selection_closed()
            } else {
                self.selection_opened()
            },
        }
    }

    pub open spec fn with_sort(self, sort: SortSpec) -> AppModel {
        AppModel { sort, ..self }
    }

    /// The state with all rows in order.
    pub open spec fn sort_applied(self) -> AppModel {
        self.all_sorted().rebuilt().rows_rebuilt().noticed(
            "Sorted by "@ + self.sort.key.label_text() + " "@ + self.sort.direction.symbol_text(),
        )
    }

    /// The state with the rows in the order of the next key, in the direction
    /// that is natural for it.
    pub open spec fn sort_cycled(self) -> AppModel {
        let key = self.sort.key.following();
        self.with_sort(SortSpec { key, direction: key.natural_direction() }).sort_applied()
    }

    /// The state with the rows the other way round.
    pub open spec fn sort_reversed(self) -> AppModel {
        self.with_sort(
            SortSpec { direction: self.sort.direction.opposite(), ..self.sort },
        ).sort_applied()
    }

    /// The state with the path of the selected analysis row shown in the tree.
    pub open spec fn revealed(self) -> AppModel {
        match self.selected_path() {
            None => self.noticed("This summary row has no path to reveal"@),
            Some(path) => if !path::path_starts_with(path@, self.root@) {
                self.noticed("The selected path is no longer under the current root"@)
            } else {
                self.reselecting(Some(path)).view_set(ViewKind::Tree).pending_applied()
            },
        }
    }
}

impl App {
    fn collapse(&mut self, node_id: NodeId)
        requires
            old(self).wf(),
            old(self)@.tree.nodes.contains_key(node_id),
        ensures
            final(self).wf(),
            final(self)@ == old(self)@.collapsed(node_id),
    {
        let ghost before = self@;
        proof {
            tree::lemma_with_same_links(
                before.tree,
                node_id,
                NodeModel { expanded: false, ..before.tree.nodes[node_id] },
            );
        }
        let node = self.tree.node_mut(node_id);
        node.expanded = false;
    }

    pub(crate) fn select_node(&mut self, node_id: NodeId)
        requires
            old(self).wf(),
        ensures
            final(self).wf(),
            final(self)@ == old(self)@.with_selected(node_id),
    {
        self.selected = Some(node_id);
    }

    fn open_node(&mut self, node_id: NodeId)
        requires
            old(self).wf(),
            old(self)@.tree.nodes.contains_key(node_id),
        ensures
            final(self).wf(),
            final(self)@ == old(self)@.opened(node_id),
    {
        let unknown: bool = match self.tree.get(node_id) {
            Some(node) => node.scan_state == ScanState::NotScanned || node.scan_state
                == ScanState::Error,
            None => false,
        };
        self.expand(node_id);
        self.load(node_id);
        if unknown {
            self.measure(node_id);
        }
    }

    /// Opens the selected directory.
    pub fn expand_selected(&mut self)
        requires
            old(self).wf(),
        ensures
            final(self).wf(),
            final(self)@ == old(self)@.selection_opened(),
    {
        let node_id: NodeId = match self.selected {
            Some(id) => id,
            None => {
                return ;
            },
        };
        if let Some(node) = self.tree.get(node_id) {
            if node.kind == NodeKind::Directory {
                if node.mountpoint {
                    self.say("Mount point skipped; use --cross-filesystems to scan it");
                    return ;
                }
                self.open_node(node_id);
            }
        }
        self.rebuild_visible();
        self.rebuild_analysis_rows();
    }

    fn shows_entries_of(&self, node_id: NodeId) -> (result: bool)
        ensures
            result == self@.is_open(node_id),
    {
        match self.tree.get(node_id) {
            Some(node) => node.kind == NodeKind::Directory && node.expanded,
            None => false,
        }
    }

    /// Closes the selected directory, or selects the one above it.
    pub fn collapse_selected(&mut self)
        requires
            old(self).wf(),
        ensures
            final(self).wf(),
            final(self)@ == old(self)@.selection_closed(),
    {
        let node_id: NodeId = match self.selected {
            Some(id) => id,
            None => {
                return ;
            },
        };
        if self.shows_entries_of(node_id) {
            self.collapse(node_id);
            self.rebuild_visible();
            return ;
        }
        let parent: Option<NodeId> = match self.tree.get(node_id) {
            Some(node) => node.parent,
            None => None,
        };
        if let Some(parent) = parent {
            if parent != self.tree.root_id {
                self.select_node(parent);
                self.ensure_selection_visible();
            }
        }
    }

    /// Opens or closes the selected directory.
    pub fn toggle_selected(&mut self)
        requires
            old(self).wf(),
        ensures
            final(self).wf(),
            final(self)@ == old(self)@.selection_toggled(),
    {
        let node_id: NodeId = match self.selected {
            Some(id) => id,
            None => {
                return ;
            },
        };
        if self.shows_entries_of(node_id) {
            self.collapse_selected();
        } else {
            self.expand_selected();
        }
    }

    fn set_sort(&mut self, sort: SortSpec)
        requires
            old(self).wf(),
        ensures
            final(self).wf(),
            final(self)@ == old(self)@.with_sort(sort),
    {
        self.sort = sort;
    }

    fn apply_sort_notice(&mut self)
        requires
            old(self).wf(),
        ensures
            final(self).wf(),
            final(self)@ == old(self)@.sort_applied(),
    {
        let mut told = "Sorted by ".to_owned();
        told.append(self.sort.key.label());
        told.append(" ");
        told.append(self.sort.direction.symbol());
        self.sort_tree();
        self.rebuild_visible();
        self.rebuild_analysis_rows();
        self.say(told.as_str());
    }

    /// Sorts by the next key.
    pub fn cycle_sort_key(&mut self)
        requires
            old(self).wf(),
        ensures
            final(self).wf(),
            final(self)@ == old(self)@.sort_cycled(),
    {
        let key = self.sort.key.next();
        self.set_sort(SortSpec { key, direction: key.default_direction() });
        self.apply_sort_notice();
    }

    /// Turns the order of the rows round.
    pub fn reverse_sort(&mut self)
        requires
            old(self).wf(),
        ensures
            final(self).wf(),
            final(self)@ == old(self)@.sort_reversed(),
    {
        let sort = SortSpec { key: self.sort.key, direction: self.sort.direction.reversed() };
        self.set_sort(sort);
        self.apply_sort_notice();
    }

    /// Shows the path of the selected analysis row in the tree.
    pub fn reveal_analysis_selection(&mut self)
        requires
            old(self).wf(),
        ensures
            final(self).wf(),
            final(self)@ == old(self)@.revealed(),
    {
        let path: FilePath = match self.selected_row_path() {
            Some(path) => path,
            None => {
                self.say("This summary row has no path to reveal");
                return ;
            },
        };
        if !path.starts_with(&self.root) {
            self.say("The selected path is no longer under the current root");
            return ;
        }
        self.reselect(Some(path));
        self.set_view(ViewKind::Tree);
        self.apply_pending_selection();
    }
}

/// Opening a directory shows its entries, which are read where they are not known
/// yet. A mount point stays closed, and other entries cannot be opened.
pub proof fn opening_reads_what_is_not_known(state: AppModel, id: NodeId)
    requires
        state.selected == Some(id),
        state.tree.nodes.contains_key(id),
        !state.stopped.scan,
        state.tree.nodes[id].scan_revision < u64::MAX,
    ensures
        ({
            let node = state.tree.nodes[id];
            let directory = node.kind == NodeKind::Directory;
            &&& directory && node.mountpoint ==> state.selection_opened().tree == state.tree
                && state.selection_opened().effects == state.effects
            &&& !directory ==> state.selection_opened() == state.rebuilt().rows_rebuilt()
            &&& directory && !node.mountpoint ==> state.opened(id).tree.nodes[id].expanded
                && state.selection_opened() == state.opened(id).rebuilt().rows_rebuilt()
            &&& directory && !node.mountpoint && node.children_loaded && node.scan_state
                == ScanState::Complete ==> state.opened(id).effects == state.effects
            &&& directory && !node.mountpoint && !node.children_loaded && !node.children_loading
                ==> state.opened(id).tree.nodes[id].children_loading
        }),
{
}

/// Closing closes an open directory and keeps the selection on it; from any other
/// entry it goes to the directory that holds it, but not to the root.
pub proof fn closing_goes_up(state: AppModel, id: NodeId)
    requires
        state.selected == Some(id),
        state.tree.nodes.contains_key(id),
    ensures
        ({
            let node = state.tree.nodes[id];
            let open = node.kind == NodeKind::Directory && node.expanded;
            let inner = node.parent is Some && node.parent != Some(state.tree.root);
            &&& open ==> state.selection_closed() == state.collapsed(id).rebuilt()
                && !state.collapsed(id).tree.nodes[id].expanded && state.collapsed(id).selected
                == Some(id)
            &&& !open && inner ==> state.selection_closed().selected == node.parent
                && state.selection_closed().tree == state.tree
            &&& !open && !inner ==> state.selection_closed() == state
        }),
{
}

/// Enter closes what is open and opens what is closed.
pub proof fn enter_opens_and_closes(state: AppModel, id: NodeId)
    requires
        state.selected == Some(id),
        state.tree.nodes.contains_key(id),
    ensures
        state.tree.nodes[id].kind == NodeKind::Directory && state.tree.nodes[id].expanded
            ==> state.selection_toggled() == state.selection_closed(),
        state.tree.nodes[id].kind != NodeKind::Directory || !state.tree.nodes[id].expanded
            ==> state.selection_toggled() == state.selection_opened(),
{
}

/// The next order begins in its own direction; turning round keeps the order.
pub proof fn orders_change_one_by_one(state: AppModel)
    ensures
        state.sort.key == tree::SortKey::Size ==> state.sort_cycled() == state.with_sort(
            SortSpec { key: tree::SortKey::Name, direction: tree::SortDirection::Ascending },
        ).sort_applied(),
        state.sort.key == tree::SortKey::Name ==> state.sort_cycled() == state.with_sort(
            SortSpec { key: tree::SortKey::Files, direction: tree::SortDirection::Descending },
        ).sort_applied(),
        state.sort.key == tree::SortKey::Files ==> state.sort_cycled() == state.with_sort(
            SortSpec { key: tree::SortKey::Kind, direction: tree::SortDirection::Ascending },
        ).sort_applied(),
        state.sort.key == tree::SortKey::Kind ==> state.sort_cycled() == state.with_sort(
            SortSpec { key: tree::SortKey::Size, direction: tree::SortDirection::Descending },
        ).sort_applied(),
        state.sort.direction == tree::SortDirection::Ascending ==> state.sort_reversed()
            == state.with_sort(
            SortSpec { key: state.sort.key, direction: tree::SortDirection::Descending },
        ).sort_applied(),
        state.sort.direction == tree::SortDirection::Descending ==> state.sort_reversed()
            == state.with_sort(
            SortSpec { key: state.sort.key, direction: tree::SortDirection::Ascending },
        ).sort_applied(),
{
}

/// Only a path below the root is looked for in the tree.
pub proof fn paths_below_the_root_are_revealed(state: AppModel, path: FilePath)
    requires
        state.selected_path() == Some(path),
    ensures
        path::path_starts_with(path@, state.root@) ==> state.revealed() == state.reselecting(
            Some(path),
        ).view_set(ViewKind::Tree).pending_applied(),
        !path::path_starts_with(path@, state.root@) ==> state.revealed() == state.noticed(
            "The selected path is no longer under the current root"@,
        ),
{
}

} // verus!
