//! What holds whatever is pressed and reported: nothing is deleted unasked, and
//! work that was given up has no effect.
use vstd::prelude::*;

use crate::analytics::AnalysisEvent;
use crate::app::analysis;
use crate::app::keys::{KeyCode, KeyEvent, MouseEvent};
use crate::app::marks;
use crate::app::scan;
use crate::app::search;
use crate::app::{AppModel, EffectModel, ModeModel, ViewKind};
use crate::cache;
use crate::delete::DeleteItem;
use crate::lists;
use crate::path;
use crate::scanner::DiscoveredEntry;
use crate::tree;
use crate::tree::removal;
use crate::tree::{FileIdentity, NodeId, NodeKind, TreeModel};
use crate::worker::WorkerEvent;

verus! {

/// Whether something that is to be done outside has to do with deleting.
pub open spec fn deletes(effect: EffectModel) -> bool {
    effect is ValidateDelete || effect is Delete
}

/// Whether of all that came to be done outside nothing deletes.
pub open spec fn deletes_nothing(before: AppModel, after: AppModel) -> bool {
    &&& before.effects.len() <= after.effects.len()
    &&& forall|i: int| 0 <= i < before.effects.len() ==> after.effects[i] == before.effects[i]
    &&& forall|i: int|
        before.effects.len() <= i < after.effects.len() ==> !deletes(#[trigger] after.effects[i])
}

/// Whether a key says yes.
pub open spec fn is_yes(code: KeyCode) -> bool {
    code == KeyCode::Char('y')
}

proof fn lemma_queued(state: AppModel, id: NodeId, force: bool)
    ensures
        deletes_nothing(state, state.children_queued(id)),
        deletes_nothing(state, state.read(id)),
        deletes_nothing(state, state.measured(id, force)),
{
}

proof fn lemma_ensured(state: AppModel)
    ensures
        deletes_nothing(state, state.duplicates_ensured()),
        deletes_nothing(state, state.analysis_ensured()),
{
}

proof fn lemma_rows_rebuilt(state: AppModel)
    ensures
        state.rows_rebuilt().analysis_scrolled().effects == state.effects,
{
}

#[verifier::spinoff_prover]
proof fn lemma_view_set(state: AppModel, view: ViewKind)
    ensures
        deletes_nothing(state, state.view_set(view)),
{
    if view != ViewKind::Tree {
        let ready = state.with_view(view).analysis_ensured();
        lemma_ensured(state.with_view(view));
        lemma_rows_rebuilt(ready);
        lemma_rows_rebuilt(ready.rows_cleared());
        assert(state.view_set(view).effects == ready.effects);
    }
}

proof fn lemma_opened(state: AppModel)
    ensures
        deletes_nothing(state, state.selection_opened()),
        deletes_nothing(state, state.selection_closed()),
        deletes_nothing(state, state.selection_toggled()),
{
    match state.selected {
        Some(id) => {
            let reading = state.expanded(id).read(id);
            lemma_queued(state.expanded(id), id, false);
            lemma_queued(reading, id, false);
            assert(deletes_nothing(state, state.opened(id)));
        },
        None => {},
    }
}

proof fn lemma_revealed(state: AppModel)
    ensures
        deletes_nothing(state, state.revealed()),
{
    match state.selected_path() {
        Some(path) => {
            let shown = state.reselecting(Some(path)).view_set(ViewKind::Tree);
            match scan::deepest(shown.tree, path@) {
                Some(id) => lemma_queued(shown.expanded(id), id, false),
                None => {},
            }
        },
        None => {},
    }
}

proof fn lemma_action(state: AppModel, code: KeyCode)
    ensures
        deletes_nothing(state, state.action_key(code)),
{
    reveal(AppModel::action_key);
}

proof fn lemma_prompt(state: AppModel, key: KeyEvent)
    ensures
        deletes_nothing(state, state.prompt_key(key)),
{
    reveal(AppModel::prompt_key);
    match state.mode {
        ModeModel::Input { kind, value, previous_filter } => {
            let done = state.with_mode(ModeModel::Browse);
            match search::query_of(value) {
                Some(path) => lemma_ensured(
                    done.noticed(
                        "A complete analysis is required; building it now, then press e again"@,
                    ),
                ),
                None => {},
            }
        },
        _ => {},
    }
}

proof fn lemma_motion(state: AppModel, code: KeyCode)
    ensures
        state.motion_key(code).effects == state.effects,
{
    reveal(AppModel::motion_key);
}

proof fn lemma_display(state: AppModel, code: KeyCode)
    ensures
        state.display_key(code).effects == state.effects,
{
    reveal(AppModel::display_key);
}

proof fn lemma_search(state: AppModel, code: KeyCode)
    ensures
        state.search_key(code).effects == state.effects,
{
    reveal(AppModel::search_key);
}

proof fn lemma_opening(state: AppModel, code: KeyCode)
    ensures
        deletes_nothing(state, state.opening_key(code)),
{
    reveal(AppModel::opening_key);
    lemma_opened(state);
    lemma_revealed(state);
}

proof fn lemma_view(state: AppModel, code: KeyCode)
    ensures
        deletes_nothing(state, state.view_key(code)),
{
    reveal(AppModel::view_key);
    match code {
        KeyCode::Tab => lemma_view_set(state, state.active_view.neighbour(false)),
        KeyCode::BackTab => lemma_view_set(state, state.active_view.neighbour(true)),
        KeyCode::Char('1') => lemma_view_set(state, ViewKind::Tree),
        KeyCode::Char('2') => lemma_view_set(state, ViewKind::Largest),
        KeyCode::Char('3') => lemma_view_set(state, ViewKind::Types),
        KeyCode::Char('4') => lemma_view_set(state, ViewKind::Duplicates),
        KeyCode::Char('5') => lemma_view_set(state, ViewKind::Changes),
        _ => {},
    }
}

proof fn lemma_browse(state: AppModel, key: KeyEvent)
    ensures
        deletes_nothing(state, state.browse_key(key)),
{
    lemma_motion(state, key.code);
    lemma_display(state, key.code);
    lemma_search(state, key.code);
    lemma_opening(state, key.code);
    lemma_view(state, key.code);
    lemma_action(state, key.code);
}

/// No key leads to a deletion but a yes to the question whether to delete.
pub proof fn only_a_yes_deletes(state: AppModel, key: KeyEvent)
    requires
        !(state.mode is ConfirmDelete && is_yes(key.code)),
    ensures
        deletes_nothing(state, state.key_pressed(key)),
{
    match state.mode {
        ModeModel::Browse => lemma_browse(state, key),
        ModeModel::Input { .. } => lemma_prompt(state, key),
        _ => {},
    }
}

/// Whether a key says no.
pub open spec fn is_no(code: KeyCode) -> bool {
    code == KeyCode::Char('n') || code == KeyCode::Esc
}

/// A yes to the question whether to delete asks for one thing: that the entries
/// be validated.
pub proof fn a_yes_asks_for_validation(state: AppModel, key: KeyEvent)
    requires
        state.mode is ConfirmDelete,
        is_yes(key.code),
    ensures
        state.key_pressed(key) == (AppModel {
            effects: state.effects.push(EffectModel::ValidateDelete),
            ..state
        }),
{
}

/// A no to the question whether to delete changes nothing but what is shown.
pub proof fn a_no_keeps_everything(state: AppModel, key: KeyEvent)
    requires
        state.mode is ConfirmDelete,
        is_no(key.code),
    ensures
        state.key_pressed(key) == (AppModel {
            mode: ModeModel::Browse,
            notice: Some("Delete cancelled"@),
            ..state
        }),
{
}

/// Any other key leaves the question whether to delete as it is, an uppercase
/// letter too.
pub proof fn other_keys_leave_the_question(state: AppModel, key: KeyEvent)
    requires
        state.mode is ConfirmDelete,
        !is_yes(key.code),
        !is_no(key.code),
    ensures
        state.key_pressed(key) == state,
{
}

/// Nothing that is done with the mouse leads to a deletion.
pub proof fn the_mouse_deletes_nothing(state: AppModel, mouse: MouseEvent)
    ensures
        deletes_nothing(state, state.mouse_used(mouse)),
{
}

proof fn lemma_all_measured(state: AppModel, ids: Seq<NodeId>, force: bool)
    ensures
        deletes_nothing(state, state.all_measured(ids, force)),
    decreases ids.len(),
{
    if ids.len() > 0 {
        lemma_all_measured(state, ids.drop_last(), force);
        lemma_queued(state.all_measured(ids.drop_last(), force), ids.last(), force);
    }
}

proof fn lemma_entries_added(
    state: AppModel,
    parent: NodeId,
    entries: Seq<DiscoveredEntry>,
    ids: Seq<NodeId>,
)
    ensures
        state.entries_added(parent, entries, ids).effects == state.effects,
    decreases entries.len(),
{
    if entries.len() > 0 {
        lemma_entries_added(state, parent, entries.drop_last(), ids.drop_last());
    }
}

proof fn lemma_pending_applied(state: AppModel)
    ensures
        deletes_nothing(state, state.pending_applied()),
{
    match state.pending_select_path {
        Some(path) => match scan::deepest(state.tree, path@) {
            Some(id) => lemma_queued(state.expanded(id), id, false),
            None => {},
        },
        None => {},
    }
}

proof fn lemma_children_loaded(
    state: AppModel,
    id: NodeId,
    entries: Seq<DiscoveredEntry>,
    count: usize,
    message: Option<Seq<char>>,
    ids: Seq<NodeId>,
)
    ensures
        deletes_nothing(state, state.children_loaded(id, entries, count, message, ids)),
{
    let read = state.job_done().warned(count, message).read_noted(id, count, message);
    let added = read.entries_added(id, entries, ids).children_sorted(id);
    lemma_entries_added(read, id, entries, ids);
    lemma_all_measured(added, read.unmeasured(entries, ids), false);
    let measured = added.all_measured(read.unmeasured(entries, ids), false).rebuilt();
    lemma_pending_applied(measured);
}

#[verifier::spinoff_prover]
proof fn lemma_analysis_reported(state: AppModel, report: AnalysisEvent)
    ensures
        deletes_nothing(state, state.analysis_reported(report)),
{
}

/// Nothing that a worker reports leads to a deletion.
pub proof fn no_report_deletes(
    before: AppModel,
    event: WorkerEvent,
    after: AppModel,
    report: AnalysisEvent,
)
    requires
        scan::answers(before, event, after),
    ensures
        deletes_nothing(before, after),
        deletes_nothing(before, before.analysis_reported(report)),
{
    lemma_analysis_reported(before, report);
    lemma_answers(before, event, after);
}

#[verifier::spinoff_prover]
proof fn lemma_answers(before: AppModel, event: WorkerEvent, after: AppModel)
    requires
        scan::answers(before, event, after),
    ensures
        deletes_nothing(before, after),
{
    if event.made_in() == before.generation {
        match event {
            WorkerEvent::ChildrenLoaded { node_id, outcome, .. } => {
                let count = outcome.warnings.error_count;
                let message = tree::text_view(outcome.warnings.first_message);
                if before.tree.nodes.contains_key(node_id) {
                    let ids = choose|ids: Seq<NodeId>|
                        {
                            &&& ids.len() == outcome.entries@.len()
                            &&& scan::fresh_ids(before.tree, ids)
                            &&& after == #[trigger] before.children_loaded(
                                node_id,
                                outcome.entries@,
                                count,
                                message,
                                ids,
                            )
                        };
                    lemma_children_loaded(
                        before,
                        node_id,
                        outcome.entries@,
                        count,
                        message,
                        ids,
                    );
                }
            },
            _ => {},
        }
    }
}

/// Whatever was under way when a scan was cancelled has no effect any more.
pub proof fn cancelled_work_has_no_effect(
    state: AppModel,
    event: WorkerEvent,
    report: AnalysisEvent,
    after: AppModel,
)
    requires
        state.pending_jobs > 0 || state.is_analyzing(),
        state.generation < u64::MAX,
        event.made_in() == state.generation,
        report.made_in() == state.generation,
        scan::answers(state.scan_cancelled(), event, after),
    ensures
        after == state.scan_cancelled(),
        state.scan_cancelled().analysis_reported(report) == state.scan_cancelled(),
{
    let advanced = state.generation_advanced().jobs_stopped(
        true,
    ).sort_forgotten().analysis_stopped();
    assert(advanced.generation == state.generation + 1);
    assert(state.scan_cancelled().generation == advanced.generation);
    scan::stale_reports_change_nothing(state.scan_cancelled(), event, after);
    analysis::stale_analysis_changes_nothing(state.scan_cancelled(), report);
}

/// A fresh scan of the root finds nothing in the cache.
pub proof fn a_refresh_forgets_the_cache(
    state: AppModel,
    warning: Option<Seq<char>>,
    path: Seq<u8>,
    identity: FileIdentity,
    one_file_system: bool,
    now: u64,
)
    requires
        path::path_starts_with(path, state.root@),
    ensures
        state.refresh_wanted(warning).cache.found(path, identity, one_file_system, now) is None,
{
    cache::forgotten_usage_is_not_found(
        state.cache,
        state.root@,
        path,
        identity,
        one_file_system,
        now,
    );
}

/// Nothing is ever asked for below a mount point.
pub proof fn mount_points_are_not_read(state: AppModel, id: NodeId, force: bool)
    requires
        state.tree.nodes.contains_key(id),
        state.tree.nodes[id].mountpoint,
    ensures
        state.read(id) == state,
        state.children_queued(id) == state,
        state.measured(id, force) == state,
        state.selected == Some(id) && state.tree.nodes[id].kind == NodeKind::Directory
            ==> state.selection_opened().tree == state.tree && state.selection_opened().effects
            == state.effects,
{
}

/// What was moved to the Trash is no longer in the cache.
pub proof fn deleted_entries_are_not_cached(
    state: AppModel,
    items: Seq<DeleteItem>,
    i: int,
    path: Seq<u8>,
    identity: FileIdentity,
    one_file_system: bool,
    now: u64,
)
    requires
        cache::distinct_records(state.cache.records),
        0 <= i < items.len(),
        path::path_starts_with(path, items[i].path@),
    ensures
        state.items_uncached(items).cache.found(path, identity, one_file_system, now) is None,
    decreases items.len(),
{
    let before = state.items_uncached(items.drop_last());
    if path::path_starts_with(path, items.last().path@) {
        cache::forgotten_usage_is_not_found(
            before.cache,
            items.last().path@,
            path,
            identity,
            one_file_system,
            now,
        );
    } else {
        deleted_entries_are_not_cached(
            state,
            items.drop_last(),
            i,
            path,
            identity,
            one_file_system,
            now,
        );
        lemma_distinct_after(state, items.drop_last());
        cache::forgetting_spares_the_rest(
            before.cache,
            items.last().path@,
            path,
            identity,
            one_file_system,
            now,
        );
    }
}

proof fn lemma_distinct_after(state: AppModel, items: Seq<DeleteItem>)
    requires
        cache::distinct_records(state.cache.records),
    ensures
        cache::distinct_records(state.items_uncached(items).cache.records),
    decreases items.len(),
{
    if items.len() > 0 {
        let before = state.items_uncached(items.drop_last());
        lemma_distinct_after(state, items.drop_last());
        cache::lemma_forgetting_keeps_distinct(before.cache, items.last().path@);
    }
}

/// Moving entries to the Trash leaves what is cached of all others.
pub proof fn deleting_spares_the_cache_elsewhere(
    state: AppModel,
    items: Seq<DeleteItem>,
    path: Seq<u8>,
    identity: FileIdentity,
    one_file_system: bool,
    now: u64,
)
    requires
        cache::distinct_records(state.cache.records),
        forall|i: int|
            0 <= i < items.len() ==> !path::path_starts_with(path, (#[trigger] items[i]).path@),
    ensures
        state.items_uncached(items).cache.found(path, identity, one_file_system, now)
            == state.cache.found(path, identity, one_file_system, now),
    decreases items.len(),
{
    if items.len() > 0 {
        let less = items.drop_last();
        assert forall|i: int| 0 <= i < less.len() implies !path::path_starts_with(
            path,
            (#[trigger] less[i]).path@,
        ) by {
            assert(less[i] == items[i]);
        }
        deleting_spares_the_cache_elsewhere(state, less, path, identity, one_file_system, now);
        lemma_distinct_after(state, less);
        assert(items[items.len() - 1] == items.last());
        cache::forgetting_spares_the_rest(
            state.items_uncached(less).cache,
            items.last().path@,
            path,
            identity,
            one_file_system,
            now,
        );
    }
}

/// Whether a node is that of an entry.
pub open spec fn is_node_of(tree: TreeModel, item: DeleteItem, id: NodeId) -> bool {
    &&& tree.nodes.contains_key(id)
    &&& item.node_id == Some(id) || path::same_path(tree.nodes[id].path@, item.path@)
}

/// Whether a node is that of one of some entries, or lies below one.
pub open spec fn belongs_to_one_of(tree: TreeModel, items: Seq<DeleteItem>, id: NodeId) -> bool {
    exists|i: int, top: NodeId|
        0 <= i < items.len() && #[trigger] is_node_of(tree, items[i], top) && (id == top
            || tree::ancestor_ids(tree, id).contains(top))
}

/// Whether a tree is what is left of another one, with the same paths.
spec fn is_left_of(tree: TreeModel, rest: TreeModel) -> bool {
    &&& removal::is_rest(tree, rest)
    &&& forall|id: NodeId| #[trigger]
        rest.nodes.contains_key(id) ==> rest.nodes[id].path == tree.nodes[id].path
}

proof fn lemma_node_removed(state: AppModel, item: DeleteItem, id: NodeId)
    requires
        tree::is_tree(state.tree),
        state.tree.nodes.contains_key(id),
        !belongs_to_one_of(state.tree, seq![item], id),
    ensures
        is_left_of(state.tree, state.node_removed(item).tree),
        state.node_removed(item).tree.nodes.contains_key(id),
{
    let items = seq![item];
    match marks::item_node(state.tree, item) {
        Some(top) => {
            if top != state.tree.root && state.tree.nodes.contains_key(top) {
                let after = tree::without_subtree(state.tree, top);
                lists::lemma_first_item(
                    tree::slot_order(state.tree.nodes.dom()),
                    scan::at_path(state.tree, item.path@),
                );
                assert(is_node_of(state.tree, items[0], top));
                tree::lemma_without_subtree(state.tree, top);
                removal::lemma_parent_stays(state.tree, top);
                removal::removing_takes_what_lies_below(state.tree, top, id);
                assert forall|other: NodeId| #[trigger]
                    after.nodes.contains_key(other) implies state.tree.nodes.contains_key(other)
                    && after.nodes[other].parent == state.tree.nodes[other].parent
                    && after.nodes[other].path == state.tree.nodes[other].path by {
                    removal::removing_takes_what_lies_below(state.tree, top, other);
                }
            }
        },
        None => {},
    }
}

proof fn lemma_items_removed(state: AppModel, items: Seq<DeleteItem>, id: NodeId)
    requires
        tree::is_tree(state.tree),
        state.tree.nodes.contains_key(id),
        !belongs_to_one_of(state.tree, items, id),
    ensures
        is_left_of(state.tree, state.items_removed(items).tree),
        state.items_removed(items).tree.nodes.contains_key(id),
    decreases items.len(),
{
    if items.len() > 0 {
        let less = items.drop_last();
        let item = items.last();
        let before = state.items_removed(less);
        assert(!belongs_to_one_of(state.tree, less, id)) by {
            if belongs_to_one_of(state.tree, less, id) {
                let (i, top) = choose|i: int, top: NodeId|
                    0 <= i < less.len() && #[trigger] is_node_of(state.tree, less[i], top) && (id
                        == top || tree::ancestor_ids(state.tree, id).contains(top));
                assert(is_node_of(state.tree, items[i], top));
            }
        }
        lemma_items_removed(state, less, id);
        removal::lemma_same_ancestors(state.tree, before.tree, id);
        assert(!belongs_to_one_of(before.tree, seq![item], id)) by {
            if belongs_to_one_of(before.tree, seq![item], id) {
                let (i, top) = choose|i: int, top: NodeId|
                    0 <= i < 1 && #[trigger] is_node_of(before.tree, seq![item][i], top) && (id
                        == top || tree::ancestor_ids(before.tree, id).contains(top));
                assert(is_node_of(state.tree, items[items.len() - 1], top));
            }
        }
        lemma_node_removed(before, item, id);
    }
}

/// Moving entries to the Trash takes only their nodes out of the tree, with what
/// lies below them.
pub proof fn deleting_spares_other_nodes(
    state: AppModel,
    moved: Seq<DeleteItem>,
    notice: Seq<char>,
    id: NodeId,
)
    requires
        tree::is_tree(state.tree),
        state.tree.nodes.contains_key(id),
        !belongs_to_one_of(state.tree, moved, id),
    ensures
        state.deletion_applied(moved, notice).0.tree.nodes.contains_key(id),
{
    let uncached = state.items_uncached(moved);
    lemma_uncached_keeps_tree(state, moved);
    lemma_items_removed(uncached, moved, id);
    let noted = uncached.items_removed(moved).deletion_noted(notice);
    lemma_rescanned(
        noted,
        marks::remaining(noted.tree, marks::affected(state.tree, moved)),
        id,
    );
}

proof fn lemma_uncached_keeps_tree(state: AppModel, items: Seq<DeleteItem>)
    ensures
        state.items_uncached(items).tree == state.tree,
    decreases items.len(),
{
    if items.len() > 0 {
        lemma_uncached_keeps_tree(state, items.drop_last());
    }
}

proof fn lemma_rescanned(state: AppModel, ids: Seq<NodeId>, id: NodeId)
    requires
        state.tree.nodes.contains_key(id),
    ensures
        state.rescanned(ids).0.tree.nodes.contains_key(id),
    decreases ids.len(),
{
    if ids.len() > 0 {
        lemma_rescanned(state, ids.drop_last(), id);
    }
}

} // verus!
