//! What sorting the tree keeps, and in which order it leaves the entries.
use vstd::prelude::*;

use crate::order;
use crate::path;
use crate::text;
use crate::tree;
use crate::tree::{
    NodeId, NodeKind, NodeModel, ScanState, SizeMode, SortDirection, SortKey, SortSpec, TreeModel,
    VisibleNode,
};

verus! {

/// Whether some row shows a node.
pub open spec fn shown(rows: Seq<VisibleNode>, id: NodeId) -> bool {
    exists|i: int| 0 <= i < rows.len() && (#[trigger] rows[i]).node_id == id
}

/// Whether two sets of nodes differ at most in the order of the children.
pub open spec fn same_but_order(
    left: Map<NodeId, NodeModel>,
    right: Map<NodeId, NodeModel>,
) -> bool {
    &&& left.dom() == right.dom()
    &&& forall|id: NodeId| #[trigger]
        left.contains_key(id) ==> same_node_but_order(left[id], right[id])
}

pub open spec fn same_node_but_order(left: NodeModel, right: NodeModel) -> bool {
    &&& right == (NodeModel { children: right.children, ..left })
    &&& forall|child: NodeId| #[trigger]
        left.children.contains(child) <==> right.children.contains(child)
}

pub proof fn lemma_shown_in_either(first: Seq<VisibleNode>, second: Seq<VisibleNode>, id: NodeId)
    ensures
        shown(first + second, id) <==> shown(first, id) || shown(second, id),
{
    let both = first + second;
    if shown(both, id) {
        let i = choose|i: int| 0 <= i < both.len() && (#[trigger] both[i]).node_id == id;
        if i < first.len() {
            assert(first[i].node_id == id);
        } else {
            assert(second[i - first.len()].node_id == id);
        }
    }
    if shown(first, id) {
        let i = choose|i: int| 0 <= i < first.len() && (#[trigger] first[i]).node_id == id;
        assert(both[i].node_id == id);
    }
    if shown(second, id) {
        let i = choose|i: int| 0 <= i < second.len() && (#[trigger] second[i]).node_id == id;
        assert(both[first.len() + i].node_id == id);
    }
}

/// Whether one of some nodes shows a node among its rows.
pub open spec fn one_shows(
    nodes: Map<NodeId, NodeModel>,
    ids: Seq<NodeId>,
    level: nat,
    fuel: nat,
    id: NodeId,
) -> bool {
    exists|child: NodeId| #[trigger]
        ids.contains(child) && shown(tree::node_rows(nodes, child, level, fuel), id)
}

proof fn lemma_last_or_rest(ids: Seq<NodeId>)
    requires
        ids.len() > 0,
    ensures
        forall|child: NodeId| #[trigger]
            ids.contains(child) <==> ids.drop_last().contains(child) || child == ids.last(),
{
    let rest = ids.drop_last();
    assert forall|child: NodeId| #[trigger] ids.contains(child) <==> rest.contains(child) || child
        == ids.last() by {
        if ids.contains(child) {
            let i = choose|i: int| 0 <= i < ids.len() && ids[i] == child;
            if i < rest.len() {
                assert(rest[i] == child);
            }
        }
        if rest.contains(child) {
            let i = choose|i: int| 0 <= i < rest.len() && rest[i] == child;
            assert(ids[i] == child);
        }
        assert(ids[ids.len() - 1] == ids.last());
    }
}

pub proof fn lemma_one_shows(
    nodes: Map<NodeId, NodeModel>,
    ids: Seq<NodeId>,
    level: nat,
    fuel: nat,
    id: NodeId,
)
    requires
        fuel > 0,
    ensures
        shown(tree::rows_from(nodes, ids, level, fuel), id) <==> one_shows(
            nodes,
            ids,
            level,
            fuel,
            id,
        ),
    decreases ids.len(),
{
    if ids.len() > 0 {
        let rest = ids.drop_last();
        lemma_one_shows(nodes, rest, level, fuel, id);
        lemma_shown_in_either(
            tree::rows_from(nodes, rest, level, fuel),
            tree::node_rows(nodes, ids.last(), level, fuel),
            id,
        );
        lemma_last_or_rest(ids);
        if one_shows(nodes, rest, level, fuel, id) {
            let child = choose|child: NodeId| #[trigger]
                rest.contains(child) && shown(tree::node_rows(nodes, child, level, fuel), id);
            assert(ids.contains(child));
        }
        if shown(tree::node_rows(nodes, ids.last(), level, fuel), id) {
            assert(ids.contains(ids.last()));
        }
    }
}

proof fn lemma_same_node_rows(
    left: Map<NodeId, NodeModel>,
    right: Map<NodeId, NodeModel>,
    at: NodeId,
    level: nat,
    fuel: nat,
    id: NodeId,
)
    requires
        same_but_order(left, right),
    ensures
        shown(tree::node_rows(left, at, level, fuel), id) <==> shown(
            tree::node_rows(right, at, level, fuel),
            id,
        ),
    decreases fuel, 0nat,
{
    if fuel > 0 && left.contains_key(at) {
        assert(right.contains_key(at));
        assert(same_node_but_order(left[at], right[at]));
        let row = seq![VisibleNode { node_id: at, depth: level as usize, matched: false }];
        let next = (fuel - 1) as nat;
        lemma_same_rows(left, right, left[at].children, right[at].children, level + 1, next, id);
        lemma_shown_in_either(
            row,
            tree::rows_from(left, left[at].children, level + 1, next),
            id,
        );
        lemma_shown_in_either(
            row,
            tree::rows_from(right, right[at].children, level + 1, next),
            id,
        );
    }
}

proof fn lemma_same_rows(
    left: Map<NodeId, NodeModel>,
    right: Map<NodeId, NodeModel>,
    first: Seq<NodeId>,
    second: Seq<NodeId>,
    level: nat,
    fuel: nat,
    id: NodeId,
)
    requires
        same_but_order(left, right),
        forall|child: NodeId| #[trigger] first.contains(child) <==> second.contains(child),
    ensures
        shown(tree::rows_from(left, first, level, fuel), id) <==> shown(
            tree::rows_from(right, second, level, fuel),
            id,
        ),
    decreases fuel, 1nat,
{
    if fuel > 0 {
        lemma_one_shows(left, first, level, fuel, id);
        lemma_one_shows(right, second, level, fuel, id);
        if one_shows(left, first, level, fuel, id) {
            let child = choose|child: NodeId| #[trigger]
                first.contains(child) && shown(tree::node_rows(left, child, level, fuel), id);
            lemma_same_node_rows(left, right, child, level, fuel, id);
            assert(second.contains(child));
        }
        if one_shows(right, second, level, fuel, id) {
            let child = choose|child: NodeId| #[trigger]
                second.contains(child) && shown(tree::node_rows(right, child, level, fuel), id);
            lemma_same_node_rows(left, right, child, level, fuel, id);
            assert(first.contains(child));
        }
    }
}

/// Whether one of some nodes shows a node among its rows under a filter.
spec fn one_admits(
    nodes: Map<NodeId, NodeModel>,
    ids: Seq<NodeId>,
    level: nat,
    admits: spec_fn(NodeModel) -> bool,
    fuel: nat,
    id: NodeId,
) -> bool {
    exists|child: NodeId| #[trigger]
        ids.contains(child) && shown(tree::admitted_rows(nodes, child, level, admits, fuel), id)
}

proof fn lemma_one_admits(
    nodes: Map<NodeId, NodeModel>,
    ids: Seq<NodeId>,
    level: nat,
    admits: spec_fn(NodeModel) -> bool,
    fuel: nat,
    id: NodeId,
)
    requires
        fuel > 0,
    ensures
        shown(tree::admitted_from(nodes, ids, level, admits, fuel), id) <==> one_admits(
            nodes,
            ids,
            level,
            admits,
            fuel,
            id,
        ),
    decreases ids.len(),
{
    if ids.len() > 0 {
        let rest = ids.drop_last();
        lemma_one_admits(nodes, rest, level, admits, fuel, id);
        lemma_shown_in_either(
            tree::admitted_from(nodes, rest, level, admits, fuel),
            tree::admitted_rows(nodes, ids.last(), level, admits, fuel),
            id,
        );
        lemma_last_or_rest(ids);
        if one_admits(nodes, rest, level, admits, fuel, id) {
            let child = choose|child: NodeId| #[trigger]
                rest.contains(child) && shown(
                    tree::admitted_rows(nodes, child, level, admits, fuel),
                    id,
                );
            assert(ids.contains(child));
        }
        if shown(tree::admitted_rows(nodes, ids.last(), level, admits, fuel), id) {
            assert(ids.contains(ids.last()));
        }
    }
}

/// The filter judges nodes alike, whatever the order of their children.
spec fn judged_alike(
    left: Map<NodeId, NodeModel>,
    right: Map<NodeId, NodeModel>,
    admits: spec_fn(NodeModel) -> bool,
) -> bool {
    forall|id: NodeId| left.contains_key(id) ==> #[trigger] admits(left[id]) == admits(right[id])
}

proof fn lemma_same_admitted_node(
    left: Map<NodeId, NodeModel>,
    right: Map<NodeId, NodeModel>,
    at: NodeId,
    level: nat,
    admits: spec_fn(NodeModel) -> bool,
    fuel: nat,
)
    requires
        same_but_order(left, right),
        judged_alike(left, right, admits),
    ensures
        forall|id: NodeId|
            shown(#[trigger] tree::admitted_rows(left, at, level, admits, fuel), id) <==> #[trigger]
            shown(tree::admitted_rows(right, at, level, admits, fuel), id),
    decreases fuel, 0nat,
{
    if fuel > 0 && left.contains_key(at) {
        assert(right.contains_key(at));
        assert(same_node_but_order(left[at], right[at]));
        assert(admits(left[at]) == admits(right[at]));
        let next = (fuel - 1) as nat;
        let first = tree::admitted_from(left, left[at].children, level + 1, admits, next);
        let second = tree::admitted_from(right, right[at].children, level + 1, admits, next);
        let row = seq![
            VisibleNode { node_id: at, depth: level as usize, matched: admits(left[at]) },
        ];
        lemma_same_admitted(
            left,
            right,
            left[at].children,
            right[at].children,
            level + 1,
            admits,
            next,
        );
        if first.len() > 0 {
            assert(shown(first, first[0].node_id));
        }
        if second.len() > 0 {
            assert(shown(second, second[0].node_id));
            assert(shown(first, second[0].node_id));
        }
        assert forall|id: NodeId|
            shown(#[trigger] tree::admitted_rows(left, at, level, admits, fuel), id)
                <==> #[trigger] shown(tree::admitted_rows(right, at, level, admits, fuel), id) by {
            lemma_shown_in_either(row, first, id);
            lemma_shown_in_either(row, second, id);
            assert(shown(first, id) <==> shown(second, id));
        }
    }
}

proof fn lemma_same_admitted(
    left: Map<NodeId, NodeModel>,
    right: Map<NodeId, NodeModel>,
    first: Seq<NodeId>,
    second: Seq<NodeId>,
    level: nat,
    admits: spec_fn(NodeModel) -> bool,
    fuel: nat,
)
    requires
        same_but_order(left, right),
        judged_alike(left, right, admits),
        forall|child: NodeId| #[trigger] first.contains(child) <==> second.contains(child),
    ensures
        forall|id: NodeId| #[trigger]
            shown(tree::admitted_from(left, first, level, admits, fuel), id) <==> shown(
                tree::admitted_from(right, second, level, admits, fuel),
                id,
            ),
    decreases fuel, 1nat,
{
    if fuel > 0 {
        assert forall|id: NodeId| #[trigger]
            shown(tree::admitted_from(left, first, level, admits, fuel), id) <==> shown(
                tree::admitted_from(right, second, level, admits, fuel),
                id,
            ) by {
            lemma_one_admits(left, first, level, admits, fuel, id);
            lemma_one_admits(right, second, level, admits, fuel, id);
            if one_admits(left, first, level, admits, fuel, id) {
                let child = choose|child: NodeId| #[trigger]
                    first.contains(child) && shown(
                        tree::admitted_rows(left, child, level, admits, fuel),
                        id,
                    );
                lemma_same_admitted_node(left, right, child, level, admits, fuel);
                assert(second.contains(child));
                assert(shown(tree::admitted_rows(right, child, level, admits, fuel), id));
            }
            if one_admits(right, second, level, admits, fuel, id) {
                let child = choose|child: NodeId| #[trigger]
                    second.contains(child) && shown(
                        tree::admitted_rows(right, child, level, admits, fuel),
                        id,
                    );
                lemma_same_admitted_node(left, right, child, level, admits, fuel);
                assert(first.contains(child));
                assert(shown(tree::admitted_rows(left, child, level, admits, fuel), id));
            }
        }
    }
}

/// Sorting changes nothing but the order of the children.
proof fn lemma_sorted(tree: TreeModel, sort: SortSpec, mode: SizeMode)
    requires
        forall|id: NodeId| #[trigger]
            tree.nodes.contains_key(id) ==> tree.nodes[id].children.len() <= usize::MAX,
    ensures
        same_but_order(tree.nodes, tree::sorted_tree(tree, sort, mode).nodes),
{
    let after = tree::sorted_tree(tree, sort, mode).nodes;
    assert(after.dom() =~= tree.nodes.dom());
    assert forall|id: NodeId| #[trigger]
        tree.nodes.contains_key(id) implies same_node_but_order(tree.nodes[id], after[id]) by {
        order::sorting_keeps_the_items(
            tree.nodes[id].children,
            tree::child_keys(tree.nodes, tree.nodes[id].children, sort, mode),
        );
    }
}

/// Sorting shows the same nodes as before.
pub proof fn sorting_keeps_the_rows(tree: TreeModel, sort: SortSpec, mode: SizeMode, id: NodeId)
    requires
        tree.nodes.contains_key(tree.root),
        forall|id: NodeId| #[trigger]
            tree.nodes.contains_key(id) ==> tree.nodes[id].children.len() <= usize::MAX,
    ensures
        shown(tree::visible_rows(tree::sorted_tree(tree, sort, mode)), id) <==> shown(
            tree::visible_rows(tree),
            id,
        ),
{
    let after = tree::sorted_tree(tree, sort, mode);
    lemma_sorted(tree, sort, mode);
    lemma_same_rows(
        tree.nodes,
        after.nodes,
        tree.nodes[tree.root].children,
        after.nodes[tree.root].children,
        0,
        tree.nodes.dom().len() + 1,
        id,
    );
}

/// Sorting shows the same nodes as before under a filter too.
pub proof fn sorting_keeps_the_admitted_rows(
    tree: TreeModel,
    sort: SortSpec,
    mode: SizeMode,
    admits: spec_fn(NodeModel) -> bool,
    id: NodeId,
)
    requires
        tree.nodes.contains_key(tree.root),
        forall|id: NodeId| #[trigger]
            tree.nodes.contains_key(id) ==> tree.nodes[id].children.len() <= usize::MAX,
        forall|left: NodeModel, right: NodeModel| #[trigger]
            same_node_but_order(left, right) ==> admits(left) == admits(right),
    ensures
        shown(tree::admitted_view(tree::sorted_tree(tree, sort, mode), admits), id) <==> shown(
            tree::admitted_view(tree, admits),
            id,
        ),
{
    let after = tree::sorted_tree(tree, sort, mode);
    lemma_sorted(tree, sort, mode);
    lemma_same_admitted(
        tree.nodes,
        after.nodes,
        tree.nodes[tree.root].children,
        after.nodes[tree.root].children,
        0,
        admits,
        tree.nodes.dom().len() + 1,
    );
    assert(shown(tree::admitted_view(tree, admits), id) == shown(
        tree::admitted_view(after, admits),
        id,
    ));
}

/// Sorted by size, entries that are still being measured come first, then those
/// of known size, and last those that could not be measured.
pub proof fn pending_entries_come_first(
    left: NodeModel,
    right: NodeModel,
    direction: SortDirection,
    mode: SizeMode,
    files: bool,
)
    requires
        left.sort_category() < right.sort_category(),
    ensures
        ({
            let key = if files {
                SortKey::Files
            } else {
                SortKey::Size
            };
            let sort = SortSpec { key, direction };
            &&& order::key_le(left.sort_key(sort, mode), right.sort_key(sort, mode))
            &&& !order::key_le(right.sort_key(sort, mode), left.sort_key(sort, mode))
        }),
{
}

/// Sorted by size, the larger of two measured entries comes first, or last
/// where the order is ascending.
pub proof fn larger_entries_come_first(left: NodeModel, right: NodeModel, mode: SizeMode)
    requires
        left.sort_category() == 1,
        right.sort_category() == 1,
        left.usage->0.amount(mode) > right.usage->0.amount(mode),
    ensures
        !order::key_le(
            right.sort_key(
                SortSpec { key: SortKey::Size, direction: SortDirection::Descending },
                mode,
            ),
            left.sort_key(
                SortSpec { key: SortKey::Size, direction: SortDirection::Descending },
                mode,
            ),
        ),
        !order::key_le(
            left.sort_key(
                SortSpec { key: SortKey::Size, direction: SortDirection::Ascending },
                mode,
            ),
            right.sort_key(
                SortSpec { key: SortKey::Size, direction: SortDirection::Ascending },
                mode,
            ),
        ),
{
    let down = SortSpec { key: SortKey::Size, direction: SortDirection::Descending };
    let up = SortSpec { key: SortKey::Size, direction: SortDirection::Ascending };
    lemma_second_decides(right.sort_key(down, mode), left.sort_key(down, mode));
    lemma_second_decides(left.sort_key(up, mode), right.sort_key(up, mode));
}

proof fn lemma_second_decides(left: Seq<u64>, right: Seq<u64>)
    requires
        left.len() >= 2,
        right.len() >= 2,
        left[0] == right[0],
        left[1] > right[1],
    ensures
        !order::key_le(left, right),
{
    assert(left.drop_first()[0] == left[1]);
    assert(right.drop_first()[0] == right[1]);
    assert(!order::key_le(left.drop_first(), right.drop_first()));
}

/// Sorted by size or by files, entries still to be measured come first, then
/// those of known usage, and last those that failed.
pub proof fn unmeasured_entries_come_first(
    left: NodeModel,
    right: NodeModel,
    sort: SortSpec,
    mode: SizeMode,
)
    requires
        sort.key == SortKey::Size || sort.key == SortKey::Files,
    ensures
        ({
            let waits = |node: NodeModel|
                node.scan_state != ScanState::Complete && node.scan_state != ScanState::Error;
            let before = order::precedes(left.sort_key(sort, mode), right.sort_key(sort, mode));
            &&& waits(left) && !waits(right) ==> before
            &&& !waits(left) && left.usage is Some && !waits(right) && right.usage is None ==> before
        }),
{
    let first = left.sort_key(sort, mode);
    let second = right.sort_key(sort, mode);
    if first[0] != second[0] {
        order::the_smaller_number_comes_first(first, second, 0);
    }
}

/// Sorted by size, the larger of two measured entries comes first going down and
/// last going up; the size is the one that the way to measure asks for. Sorted by
/// files, the same holds of the number of files.
pub proof fn measured_entries_come_by_amount(left: NodeModel, right: NodeModel, mode: SizeMode)
    requires
        left.scan_state == ScanState::Complete || left.scan_state == ScanState::Error,
        right.scan_state == ScanState::Complete || right.scan_state == ScanState::Error,
        left.usage is Some,
        right.usage is Some,
    ensures
        ({
            let down = SortDirection::Descending;
            let up = SortDirection::Ascending;
            let key = |node: NodeModel, key: SortKey, direction: SortDirection|
                node.sort_key(SortSpec { key, direction }, mode);
            let amount = |node: NodeModel|
                if mode == SizeMode::Logical {
                    node.usage->0.logical
                } else {
                    node.usage->0.physical
                };
            &&& amount(left) > amount(right) ==> order::precedes(
                key(left, SortKey::Size, down),
                key(right, SortKey::Size, down),
            )
            &&& amount(left) < amount(right) ==> order::precedes(
                key(left, SortKey::Size, up),
                key(right, SortKey::Size, up),
            )
            &&& left.usage->0.files > right.usage->0.files ==> order::precedes(
                key(left, SortKey::Files, down),
                key(right, SortKey::Files, down),
            )
            &&& left.usage->0.files < right.usage->0.files ==> order::precedes(
                key(left, SortKey::Files, up),
                key(right, SortKey::Files, up),
            )
        }),
{
    lemma_amounts_decide(
        left,
        right,
        SortSpec { key: SortKey::Size, direction: SortDirection::Descending },
        mode,
    );
    lemma_amounts_decide(
        left,
        right,
        SortSpec { key: SortKey::Size, direction: SortDirection::Ascending },
        mode,
    );
    lemma_amounts_decide(
        left,
        right,
        SortSpec { key: SortKey::Files, direction: SortDirection::Descending },
        mode,
    );
    lemma_amounts_decide(
        left,
        right,
        SortSpec { key: SortKey::Files, direction: SortDirection::Ascending },
        mode,
    );
}

proof fn lemma_amounts_decide(left: NodeModel, right: NodeModel, sort: SortSpec, mode: SizeMode)
    requires
        !left.is_pending(),
        !right.is_pending(),
        left.usage is Some,
        right.usage is Some,
        sort.key == SortKey::Size || sort.key == SortKey::Files,
    ensures
        left.sort_key(sort, mode)[1] < right.sort_key(sort, mode)[1] ==> order::precedes(
            left.sort_key(sort, mode),
            right.sort_key(sort, mode),
        ),
{
    let first = left.sort_key(sort, mode);
    let second = right.sort_key(sort, mode);
    if first[1] < second[1] {
        assert(order::part_at(first, second, 1));
        order::the_smaller_number_comes_first(first, second, 1);
    }
}

/// Measured entries of one size, entries of one kind and entries still to be
/// measured come by name: first by its small letters, then by its bytes.
pub proof fn equal_entries_come_by_name(
    left: NodeModel,
    right: NodeModel,
    sort: SortSpec,
    mode: SizeMode,
)
    requires
        ({
            let waits = |node: NodeModel|
                node.scan_state != ScanState::Complete && node.scan_state != ScanState::Error;
            ||| sort.key == SortKey::Kind && left.kind == right.kind
            ||| sort.key == SortKey::Name && sort.direction == SortDirection::Ascending
            ||| (sort.key == SortKey::Size || sort.key == SortKey::Files) && waits(left) && waits(
                right,
            )
            ||| sort.key == SortKey::Size && !waits(left) && !waits(right) && left.usage
                == right.usage
            ||| sort.key == SortKey::Files && !waits(left) && !waits(right) && left.usage
                == right.usage
        }),
    ensures
        order::key_le(left.sort_key(sort, mode), right.sort_key(sort, mode)) == order::key_le(
            text::text_key(text::lowercase(text::lossy_text(left.name))) + path::bytes_key(
                left.name,
            ),
            text::text_key(text::lowercase(text::lossy_text(right.name))) + path::bytes_key(
                right.name,
            ),
        ),
{
    let first = left.sort_key(sort, mode);
    let second = right.sort_key(sort, mode);
    if sort.key == SortKey::Name {
        assert(first =~= tree::name_key(left.name));
        assert(second =~= tree::name_key(right.name));
    } else {
        let width: int = if sort.key == SortKey::Kind {
            1
        } else {
            2
        };
        let start = first.take(width);
        assert(first =~= start + tree::name_key(left.name));
        assert(second =~= start + tree::name_key(right.name));
        order::a_common_start_does_not_matter(
            start,
            tree::name_key(left.name),
            tree::name_key(right.name),
        );
    }
}

/// Sorted by name downwards, what first tells two names apart counts the other
/// way round.
pub proof fn names_go_down_the_other_way(
    left: NodeModel,
    right: NodeModel,
    mode: SizeMode,
    place: int,
)
    requires
        order::part_at(tree::name_key(left.name), tree::name_key(right.name), place),
        tree::name_key(left.name)[place] > tree::name_key(right.name)[place],
    ensures
        ({
            let sort = SortSpec { key: SortKey::Name, direction: SortDirection::Descending };
            order::precedes(left.sort_key(sort, mode), right.sort_key(sort, mode))
        }),
{
    let sort = SortSpec { key: SortKey::Name, direction: SortDirection::Descending };
    let first = left.sort_key(sort, mode);
    let second = right.sort_key(sort, mode);
    assert(order::part_at(first, second, place));
    order::the_smaller_number_comes_first(first, second, place);
}

/// Sorted by kind, files come before directories, those before links, and other
/// entries last; downwards the other way round.
pub proof fn entries_come_by_kind(
    left: NodeModel,
    right: NodeModel,
    direction: SortDirection,
    mode: SizeMode,
)
    requires
        (left.kind == NodeKind::File && right.kind != NodeKind::File) || (left.kind
            == NodeKind::Directory && (right.kind == NodeKind::Symlink || right.kind
            == NodeKind::Other)) || (left.kind == NodeKind::Symlink && right.kind
            == NodeKind::Other),
    ensures
        ({
            let sort = SortSpec { key: SortKey::Kind, direction };
            &&& direction == SortDirection::Ascending ==> order::precedes(
                left.sort_key(sort, mode),
                right.sort_key(sort, mode),
            )
            &&& direction == SortDirection::Descending ==> order::precedes(
                right.sort_key(sort, mode),
                left.sort_key(sort, mode),
            )
        }),
{
    let sort = SortSpec { key: SortKey::Kind, direction };
    let first = left.sort_key(sort, mode);
    let second = right.sort_key(sort, mode);
    assert(order::part_at(first, second, 0));
    order::the_smaller_number_comes_first(first, second, 0);
}

/// The children of a sorted node are those it had, each before the next by its
/// key.
pub proof fn sorted_children_are_in_order(
    nodes: Map<NodeId, NodeModel>,
    id: NodeId,
    sort: SortSpec,
    mode: SizeMode,
    i: int,
    j: int,
)
    requires
        nodes[id].children.len() <= usize::MAX,
        0 <= i < j < nodes[id].children.len(),
    ensures
        ({
            let after = tree::sorted_node(nodes, id, sort, mode);
            &&& after.children.len() == nodes[id].children.len()
            &&& forall|child: NodeId| #[trigger]
                after.children.contains(child) <==> nodes[id].children.contains(child)
            &&& order::key_le(
                nodes[after.children[i]].sort_key(sort, mode),
                nodes[after.children[j]].sort_key(sort, mode),
            )
        }),
{
    let children = nodes[id].children;
    let keys = tree::child_keys(nodes, children, sort, mode);
    order::sorting_keeps_the_items(children, keys);
    order::sorting_orders_the_items(children, keys, i, j);
    order::stable_order_exists(keys);
}

} // verus!
