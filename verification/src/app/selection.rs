//! What holds of the selection: it stays in sight, and it stays where it was.
use vstd::prelude::*;

use crate::app::scan;
use crate::app::screen;
use crate::app::{AppModel, EffectModel};
use crate::filter;
use crate::lists;
use crate::path::FilePath;
use crate::tree;
use crate::tree::opening;
use crate::tree::sorting;
use crate::tree::{NodeId, NodeKind, VisibleNode};

verus! {

/// The row of the selection is on the screen.
pub proof fn the_selection_is_on_the_screen(state: AppModel)
    requires
        state.page_size >= 1,
        state.visible.len() <= usize::MAX,
    ensures
        state.scrolled().selected_row() matches Some(row) ==> state.scrolled().scroll_offset <= row
            < state.scrolled().scroll_offset + state.page_size,
{
    match state.selected_row() {
        Some(row) => {
            lists::lemma_first_item(state.visible, screen::shows(state.selected->0));
            screen::the_window_shows_its_row(
                state.scroll_offset,
                row,
                state.page_size,
                state.visible.len(),
            );
        },
        None => {},
    }
}

/// Bringing the tree view up to date keeps the selection where its row is still
/// there, and leaves something selected wherever there is a row.
pub proof fn rebuilding_keeps_the_selection(state: AppModel)
    ensures
        screen::place_in(state.tree_rows(), state.selected) is Some ==> state.rebuilt().selected
            == state.selected,
        state.tree_rows().len() > 0 ==> state.rebuilt().selected_row() is Some,
{
    if state.tree_rows().len() > 0 {
        lists::lemma_first_index(
            state.tree_rows(),
            screen::shows(state.tree_rows()[0].node_id),
            0,
        );
    }
}

proof fn lemma_place_shown(rows: Seq<VisibleNode>, id: NodeId)
    ensures
        screen::place_in(rows, Some(id)) is Some <==> sorting::shown(rows, id),
{
    lists::lemma_first_item(rows, screen::shows(id));
    if screen::place_in(rows, Some(id)) is Some {
        let at = lists::first_index(rows, screen::shows(id));
        assert(rows[at].node_id == id);
    } else if sorting::shown(rows, id) {
        let i = choose|i: int| 0 <= i < rows.len() && (#[trigger] rows[i]).node_id == id;
        assert(!screen::shows(id)(rows[i]));
    }
}

/// Putting the rows in order keeps the selection, whatever they are sorted by
/// and with or without a filter.
pub proof fn sorting_keeps_the_selection(state: AppModel)
    requires
        state.tree.nodes.contains_key(state.tree.root),
        forall|id: NodeId| #[trigger]
            state.tree.nodes.contains_key(id) ==> state.tree.nodes[id].children.len()
                <= usize::MAX,
        screen::place_in(state.tree_rows(), state.selected) is Some,
    ensures
        state.sort_applied().selected == state.selected,
{
    let id = state.selected->0;
    let sorted = state.all_sorted();
    lemma_place_shown(state.tree_rows(), id);
    lemma_place_shown(sorted.tree_rows(), id);
    match state.filter_expression {
        Some(filter) => {
            sorting::sorting_keeps_the_admitted_rows(
                state.tree,
                state.sort,
                state.size_mode,
                filter::matching(filter, state.size_mode, state.clock.seconds),
                id,
            );
        },
        None => match state.filter_query {
            Some(query) => {
                sorting::sorting_keeps_the_admitted_rows(
                    state.tree,
                    state.sort,
                    state.size_mode,
                    filter::named(query),
                    id,
                );
            },
            None => {
                sorting::sorting_keeps_the_rows(state.tree, state.sort, state.size_mode, id);
            },
        },
    }
    rebuilding_keeps_the_selection(sorted);
}

proof fn lemma_way_opened(state: AppModel, id: NodeId)
    requires
        tree::is_tree(state.tree),
        state.tree.nodes.contains_key(id),
        id != state.tree.root,
        forall|above: NodeId| #[trigger]
            tree::ancestor_ids(state.tree, id).contains(above) ==> state.tree.nodes[above].kind
                == NodeKind::Directory,
        state.filter_expression is None,
        state.filter_query is None,
    ensures
        screen::place_in(state.opened_to(id).tree_rows(), Some(id)) is Some,
{
    opening::the_way_to_a_node_shows_it(state.tree, id);
    lemma_place_shown(state.opened_to(id).tree_rows(), id);
}

/// Without a filter, a node that a search has found is selected and shown.
pub proof fn a_match_is_selected(state: AppModel, id: NodeId, index: int, count: nat)
    requires
        tree::is_tree(state.tree),
        state.tree.nodes.contains_key(id),
        id != state.tree.root,
        forall|above: NodeId| #[trigger]
            tree::ancestor_ids(state.tree, id).contains(above) ==> state.tree.nodes[above].kind
                == NodeKind::Directory,
        state.filter_expression is None,
        state.filter_query is None,
    ensures
        state.opened_to(id).rebuilt().match_shown(id, index, count).selected == Some(id),
        state.opened_to(id).rebuilt().match_shown(id, index, count).selected_row() is Some,
{
    lemma_way_opened(state, id);
}

/// Without a filter, a path that was to be selected is selected and shown as
/// soon as its node is there.
pub proof fn a_revealed_path_is_selected(state: AppModel, path: FilePath, id: NodeId)
    requires
        tree::is_tree(state.tree),
        state.pending_select_path == Some(path),
        scan::node_at(state.tree, path@) == Some(id),
        state.tree.nodes.contains_key(id),
        id != state.tree.root,
        forall|above: NodeId| #[trigger]
            tree::ancestor_ids(state.tree, id).contains(above) ==> state.tree.nodes[above].kind
                == NodeKind::Directory,
        state.filter_expression is None,
        state.filter_query is None,
    ensures
        state.pending_applied().selected == Some(id),
        state.pending_applied().selected_row() is Some,
        state.pending_applied().pending_select_path is None,
{
    lemma_way_opened(state, id);
    let chosen = AppModel { selected: Some(id), pending_select_path: None, ..state };
    assert(chosen.opened_to(id).tree_rows() == state.opened_to(id).tree_rows());
    rebuilding_keeps_the_selection(chosen.opened_to(id));
}

/// Another root begins with nothing marked, nothing counted and no work under
/// way, and remembers what is to be selected in it.
pub proof fn another_root_begins_afresh(
    state: AppModel,
    root: FilePath,
    id: NodeId,
    select: Option<FilePath>,
    notice: Option<Seq<char>>,
    warning: Option<Seq<char>>,
    device: u64,
)
    requires
        state.generation < u64::MAX,
    ensures
        ({
            let after = state.root_opened(root, id, select, notice, warning, Ok(device), Ok(()));
            &&& after.root == root
            &&& after.generation == state.generation + 1
            &&& after.marked.len() == 0
            &&& after.errors == 0
            &&& after.cache_hits == 0
            &&& after.pending_select_path == select
            &&& after.tree.nodes.dom() == set![id]
        }),
{
    reveal(AppModel::root_switched);
    let fresh = state.generation_advanced().with_root(root, id, device, select, notice);
    assert(fresh.children_queued(id).tree.nodes.dom() =~= set![id]);
}

/// On the way to the parent of the root the old root is remembered, to be
/// selected there.
pub proof fn the_old_root_is_selected_in_its_parent(state: AppModel, parent: FilePath)
    ensures
        state.parent_found(Ok(parent)).effects.last() == (EffectModel::OpenRoot {
            root: parent,
            select: Some(state.root),
            notice: Some("Opened parent directory"@),
            warning: None,
        }),
{
}

} // verus!
