//! Which nodes of a tree are shown: those whose ancestors are all open, and under
//! a filter those that lead to what it admits.
use vstd::prelude::*;

use crate::tree;
use crate::tree::removal;
use crate::tree::sorting;
use crate::tree::{NodeId, NodeKind, NodeModel, TreeModel, VisibleNode};

verus! {

/// Whether all ancestors of a node below the root are directories that are
/// open.
pub open spec fn is_open_to(tree: TreeModel, id: NodeId) -> bool {
    forall|above: NodeId| #[trigger]
        tree::ancestor_ids(tree, id).contains(above) && above != tree.root
            ==> tree.nodes[above].kind == NodeKind::Directory && tree.nodes[above].expanded
}

proof fn lemma_shown_from(
    tree: TreeModel,
    depth: Map<NodeId, nat>,
    top: NodeId,
    id: NodeId,
    level: nat,
    fuel: nat,
)
    requires
        tree::linked(tree, depth),
        tree.nodes.contains_key(top),
        tree.nodes.contains_key(id),
        top != tree.root,
        top == id || tree::ancestor_ids(tree, id).contains(top),
        is_open_to(tree, id),
        fuel + depth[top] > depth[id],
    ensures
        sorting::shown(tree::node_rows(tree.nodes, top, level, fuel), id),
    decreases depth[id] - depth[top], 1nat,
{
    let row = VisibleNode { node_id: top, depth: level as usize, matched: false };
    let rows = tree::node_rows(tree.nodes, top, level, fuel);
    if top == id {
        assert(rows[0].node_id == id);
    } else {
        removal::lemma_higher(tree, depth, id, top);
        let next = (fuel - 1) as nat;
        let children = tree.nodes[top].children;
        let below = tree::rows_from(tree.nodes, children, level + 1, next);
        lemma_shown_below(tree, depth, top, id, level + 1, next);
        sorting::lemma_shown_in_either(seq![row], below, id);
    }
}

proof fn lemma_shown_below(
    tree: TreeModel,
    depth: Map<NodeId, nat>,
    top: NodeId,
    id: NodeId,
    level: nat,
    fuel: nat,
)
    requires
        tree::linked(tree, depth),
        tree.nodes.contains_key(top),
        tree.nodes.contains_key(id),
        tree::ancestor_ids(tree, id).contains(top),
        is_open_to(tree, id),
        fuel + depth[top] + 1 > depth[id],
    ensures
        sorting::shown(tree::rows_from(tree.nodes, tree.nodes[top].children, level, fuel), id),
    decreases depth[id] - depth[top], 0nat,
{
    let children = tree.nodes[top].children;
    removal::lemma_higher(tree, depth, id, top);
    removal::lemma_in_a_child(tree, depth, top, id);
    let i = choose|i: int|
        0 <= i < children.len() && (#[trigger] children[i] == id || tree::ancestor_ids(
            tree,
            id,
        ).contains(children[i]));
    let child = children[i];
    assert(tree.nodes[tree.nodes[top].children[i]].parent == Some(top));
    assert(tree::hangs(tree, depth, child));
    if child != id {
        removal::lemma_higher(tree, depth, id, child);
    }
    lemma_shown_from(tree, depth, child, id, level, fuel);
    assert(children.contains(child));
    sorting::lemma_one_shows(tree.nodes, children, level, fuel, id);
}

proof fn lemma_root_above(tree: TreeModel, depth: Map<NodeId, nat>, id: NodeId)
    requires
        tree::linked(tree, depth),
        tree.nodes.contains_key(id),
        id != tree.root,
    ensures
        tree::ancestor_ids(tree, id).contains(tree.root),
    decreases depth[id],
{
    removal::lemma_ancestors(tree, depth, id);
    let parent = tree.nodes[id].parent->0;
    if parent != tree.root {
        lemma_root_above(tree, depth, parent);
    }
}

/// A node is shown when all directories above it are open.
pub proof fn open_ancestors_show_a_node(tree: TreeModel, id: NodeId)
    requires
        tree::is_tree(tree),
        tree.nodes.contains_key(id),
        id != tree.root,
        is_open_to(tree, id),
    ensures
        sorting::shown(tree::visible_rows(tree), id),
{
    let depth = choose|depth: Map<NodeId, nat>| tree::linked(tree, depth);
    tree::lemma_depth(tree, depth, id);
    lemma_root_above(tree, depth, id);
    lemma_shown_below(tree, depth, tree.root, id, 0, tree.nodes.dom().len() + 1);
}

/// Opening the way to a node shows it.
pub proof fn the_way_to_a_node_shows_it(tree: TreeModel, id: NodeId)
    requires
        tree::is_tree(tree),
        tree.nodes.contains_key(id),
        id != tree.root,
        forall|above: NodeId| #[trigger]
            tree::ancestor_ids(tree, id).contains(above) ==> tree.nodes[above].kind
                == NodeKind::Directory,
    ensures
        sorting::shown(tree::visible_rows(tree::opened_to(tree, id)), id),
{
    let after = tree::opened_to(tree, id);
    let depth = choose|depth: Map<NodeId, nat>| tree::linked(tree, depth);
    assert(after.nodes.dom() =~= tree.nodes.dom());
    tree::lemma_same_links(tree, after);
    removal::lemma_same_ancestors(tree, after, id);
    assert forall|above: NodeId| #[trigger]
        tree::ancestor_ids(after, id).contains(above) && above
            != after.root implies after.nodes[above].kind == NodeKind::Directory
        && after.nodes[above].expanded by {
        removal::lemma_higher(tree, depth, id, above);
    }
    open_ancestors_show_a_node(after, id);
}

proof fn lemma_ancestor_of_ancestor(
    tree: TreeModel,
    depth: Map<NodeId, nat>,
    id: NodeId,
    middle: NodeId,
    top: NodeId,
)
    requires
        tree::linked(tree, depth),
        tree.nodes.contains_key(id),
        tree::ancestor_ids(tree, id).contains(middle),
        tree::ancestor_ids(tree, middle).contains(top),
    ensures
        tree::ancestor_ids(tree, id).contains(top),
    decreases depth[id],
{
    removal::lemma_higher(tree, depth, id, middle);
    removal::lemma_higher(tree, depth, middle, top);
    assert(id != tree.root);
    removal::lemma_ancestors(tree, depth, id);
    let parent = tree.nodes[id].parent->0;
    if middle != parent {
        lemma_ancestor_of_ancestor(tree, depth, parent, middle, top);
    }
}

proof fn lemma_one_at_each_level(
    tree: TreeModel,
    depth: Map<NodeId, nat>,
    id: NodeId,
    one: NodeId,
    other: NodeId,
)
    requires
        tree::linked(tree, depth),
        tree.nodes.contains_key(id),
        tree::ancestor_ids(tree, id).contains(one),
        tree::ancestor_ids(tree, id).contains(other),
        depth[one] == depth[other],
    ensures
        one == other,
    decreases depth[id],
{
    removal::lemma_higher(tree, depth, id, one);
    assert(id != tree.root);
    removal::lemma_ancestors(tree, depth, id);
    let parent = tree.nodes[id].parent->0;
    if one != parent {
        removal::lemma_higher(tree, depth, parent, one);
    }
    if other != parent {
        removal::lemma_higher(tree, depth, parent, other);
    }
    if one != parent && other != parent {
        lemma_one_at_each_level(tree, depth, parent, one, other);
    }
}

proof fn lemma_ancestor_count(tree: TreeModel, depth: Map<NodeId, nat>, id: NodeId, fuel: nat)
    requires
        tree::linked(tree, depth),
        tree.nodes.contains_key(id),
        fuel > depth[id],
    ensures
        tree::ancestors(tree.nodes, id, fuel).len() == depth[id],
    decreases fuel,
{
    if id != tree.root {
        assert(tree::hangs(tree, depth, id));
        lemma_ancestor_count(tree, depth, tree.nodes[id].parent->0, (fuel - 1) as nat);
    }
}

spec fn is_below(tree: TreeModel, id: NodeId, top: NodeId) -> bool {
    id == top || tree::ancestor_ids(tree, id).contains(top)
}

spec fn is_open(tree: TreeModel, id: NodeId) -> bool {
    tree.nodes[id].kind == NodeKind::Directory && tree.nodes[id].expanded
}

spec fn fits(
    tree: TreeModel,
    depth: Map<NodeId, nat>,
    top: NodeId,
    level: nat,
    row: VisibleNode,
) -> bool {
    let id = row.node_id;
    &&& tree.nodes.contains_key(id)
    &&& is_below(tree, id, top)
    &&& row.depth == level + depth[id] - depth[top]
    &&& !row.matched
    &&& forall|above: NodeId| #[trigger]
        tree::ancestor_ids(tree, id).contains(above) && depth[above] >= depth[top] ==> is_open(
            tree,
            above,
        )
}

proof fn lemma_rows_fit(
    tree: TreeModel,
    depth: Map<NodeId, nat>,
    top: NodeId,
    level: nat,
    fuel: nat,
    k: int,
)
    requires
        tree::linked(tree, depth),
        tree.nodes.contains_key(top),
        level + tree.nodes.dom().len() <= usize::MAX + depth[top],
        0 <= k < tree::node_rows(tree.nodes, top, level, fuel).len(),
    ensures
        fits(tree, depth, top, level, tree::node_rows(tree.nodes, top, level, fuel)[k]),
    decreases fuel, 1nat, 0nat,
{
    let rows = tree::node_rows(tree.nodes, top, level, fuel);
    let children = tree.nodes[top].children;
    tree::lemma_depth(tree, depth, top);
    if k == 0 {
        assert(rows[0].node_id == top);
        assert forall|above: NodeId| #[trigger]
            tree::ancestor_ids(tree, top).contains(above) && depth[above]
                >= depth[top] implies is_open(tree, above) by {
            removal::lemma_higher(tree, depth, top, above);
        }
    } else {
        let below = tree::rows_from(tree.nodes, children, level + 1, (fuel - 1) as nat);
        assert(rows[k] == below[k - 1]);
        assert(children.take(children.len() as int) =~= children);
        lemma_child_rows_fit(
            tree,
            depth,
            top,
            children.len() as int,
            level + 1,
            (fuel - 1) as nat,
            k - 1,
        );
        let row = rows[k];
        let child = choose|child: NodeId| #[trigger]
            children.contains(child) && fits(tree, depth, child, level + 1, row);
        let i = choose|i: int| 0 <= i < children.len() && children[i] == child;
        assert(tree.nodes[tree.nodes[top].children[i]].parent == Some(top));
        assert(child != tree.root);
        removal::lemma_ancestors(tree, depth, child);
        assert(tree::ancestor_ids(tree, child).contains(top));
        let id = row.node_id;
        if id != child {
            lemma_ancestor_of_ancestor(tree, depth, id, child, top);
        }
        assert forall|above: NodeId| #[trigger]
            tree::ancestor_ids(tree, id).contains(above) && depth[above]
                >= depth[top] implies is_open(tree, above) by {
            if depth[above] == depth[top] {
                lemma_one_at_each_level(tree, depth, id, above, top);
            }
        }
    }
}

proof fn lemma_child_rows_fit(
    tree: TreeModel,
    depth: Map<NodeId, nat>,
    top: NodeId,
    count: int,
    level: nat,
    fuel: nat,
    k: int,
)
    requires
        tree::linked(tree, depth),
        tree.nodes.contains_key(top),
        level + tree.nodes.dom().len() <= usize::MAX + depth[top] + 1,
        0 <= count <= tree.nodes[top].children.len(),
        0 <= k < tree::rows_from(
            tree.nodes,
            tree.nodes[top].children.take(count),
            level,
            fuel,
        ).len(),
    ensures
        exists|child: NodeId| #[trigger]
            tree.nodes[top].children.contains(child) && fits(
                tree,
                depth,
                child,
                level,
                tree::rows_from(tree.nodes, tree.nodes[top].children.take(count), level, fuel)[k],
            ),
    decreases fuel, 2nat, count,
{
    let children = tree.nodes[top].children;
    let ids = children.take(count);
    assert(ids.len() > 0);
    let rest = tree::rows_from(tree.nodes, ids.drop_last(), level, fuel);
    assert(ids.drop_last() =~= children.take(count - 1));
    if k < rest.len() {
        lemma_child_rows_fit(tree, depth, top, count - 1, level, fuel, k);
    } else {
        let child = children[count - 1];
        assert(ids.last() == child);
        assert(tree.nodes[tree.nodes[top].children[count - 1]].parent == Some(top));
        assert(child != tree.root);
        assert(tree::hangs(tree, depth, child));
        lemma_rows_fit(tree, depth, child, level, fuel, k - rest.len());
        assert(children.contains(child));
    }
}

/// A row shows a node of the tree, not the root, at the depth of its ancestors
/// below the root, and all of these are open.
pub proof fn rows_stand_below_open_directories(tree: TreeModel, k: int)
    requires
        tree::is_tree(tree),
        tree.nodes.dom().len() <= usize::MAX,
        0 <= k < tree::visible_rows(tree).len(),
    ensures
        ({
            let row = tree::visible_rows(tree)[k];
            &&& tree.nodes.contains_key(row.node_id)
            &&& row.node_id != tree.root
            &&& row.depth == tree::ancestor_ids(tree, row.node_id).len() - 1
            &&& !row.matched
            &&& is_open_to(tree, row.node_id)
        }),
{
    let depth = choose|depth: Map<NodeId, nat>| tree::linked(tree, depth);
    let children = tree.nodes[tree.root].children;
    let fuel = tree.nodes.dom().len() + 1;
    let row = tree::visible_rows(tree)[k];
    let id = row.node_id;
    assert(children.take(children.len() as int) =~= children);
    lemma_child_rows_fit(tree, depth, tree.root, children.len() as int, 0, fuel, k);
    let child = choose|child: NodeId| #[trigger]
        children.contains(child) && fits(tree, depth, child, 0, row);
    let i = choose|i: int| 0 <= i < children.len() && children[i] == child;
    assert(tree.nodes[tree.nodes[tree.root].children[i]].parent == Some(tree.root));
    assert(child != tree.root);
    assert(tree::hangs(tree, depth, child));
    if id == tree.root {
        removal::lemma_higher(tree, depth, id, child);
    }
    tree::lemma_depth(tree, depth, id);
    lemma_ancestor_count(tree, depth, id, fuel);
    assert forall|above: NodeId| #[trigger]
        tree::ancestor_ids(tree, id).contains(above) && above
            != tree.root implies tree.nodes[above].kind == NodeKind::Directory
        && tree.nodes[above].expanded by {
        removal::lemma_higher(tree, depth, id, above);
        assert(tree::hangs(tree, depth, above));
        assert(is_open(tree, above));
    }
}

/// Whether a node or one below it is admitted.
pub open spec fn holds_admitted(
    tree: TreeModel,
    admits: spec_fn(NodeModel) -> bool,
    id: NodeId,
) -> bool {
    exists|found: NodeId| #[trigger]
        tree.nodes.contains_key(found) && admits(tree.nodes[found]) && (found == id
            || tree::ancestor_ids(tree, found).contains(id))
}

spec fn fits_admitted(
    tree: TreeModel,
    depth: Map<NodeId, nat>,
    admits: spec_fn(NodeModel) -> bool,
    top: NodeId,
    level: nat,
    row: VisibleNode,
) -> bool {
    let id = row.node_id;
    &&& tree.nodes.contains_key(id)
    &&& is_below(tree, id, top)
    &&& row.depth == level + depth[id] - depth[top]
    &&& row.matched == admits(tree.nodes[id])
    &&& holds_admitted(tree, admits, id)
}

proof fn lemma_admitted_rows_fit(
    tree: TreeModel,
    depth: Map<NodeId, nat>,
    admits: spec_fn(NodeModel) -> bool,
    top: NodeId,
    level: nat,
    fuel: nat,
    k: int,
)
    requires
        tree::linked(tree, depth),
        tree.nodes.contains_key(top),
        level + tree.nodes.dom().len() <= usize::MAX + depth[top],
        0 <= k < tree::admitted_rows(tree.nodes, top, level, admits, fuel).len(),
    ensures
        fits_admitted(
            tree,
            depth,
            admits,
            top,
            level,
            tree::admitted_rows(tree.nodes, top, level, admits, fuel)[k],
        ),
    decreases fuel, 1nat, 0nat,
{
    let rows = tree::admitted_rows(tree.nodes, top, level, admits, fuel);
    let children = tree.nodes[top].children;
    let below = tree::admitted_from(
        tree.nodes,
        children,
        level + 1,
        admits,
        (fuel - 1) as nat,
    );
    tree::lemma_depth(tree, depth, top);
    let at = if k == 0 {
        0
    } else {
        k - 1
    };
    if k == 0 && admits(tree.nodes[top]) {
        assert(rows[0].node_id == top);
        assert(tree.nodes.contains_key(top));
    } else {
        assert(children.take(children.len() as int) =~= children);
        lemma_child_admitted_rows_fit(
            tree,
            depth,
            admits,
            top,
            children.len() as int,
            level + 1,
            (fuel - 1) as nat,
            at,
        );
        let row = below[at];
        let child = choose|child: NodeId| #[trigger]
            children.contains(child) && fits_admitted(tree, depth, admits, child, level + 1, row);
        let i = choose|i: int| 0 <= i < children.len() && children[i] == child;
        assert(tree.nodes[tree.nodes[top].children[i]].parent == Some(top));
        assert(child != tree.root);
        removal::lemma_ancestors(tree, depth, child);
        assert(tree::ancestor_ids(tree, child).contains(top));
        let id = row.node_id;
        if id != child {
            lemma_ancestor_of_ancestor(tree, depth, id, child, top);
        }
        if k == 0 {
            let found = choose|found: NodeId| #[trigger]
                tree.nodes.contains_key(found) && admits(tree.nodes[found]) && (found == id
                    || tree::ancestor_ids(tree, found).contains(id));
            if found != id {
                lemma_ancestor_of_ancestor(tree, depth, found, id, top);
            }
            assert(holds_admitted(tree, admits, top));
        } else {
            assert(rows[k] == row);
        }
    }
}

proof fn lemma_child_admitted_rows_fit(
    tree: TreeModel,
    depth: Map<NodeId, nat>,
    admits: spec_fn(NodeModel) -> bool,
    top: NodeId,
    count: int,
    level: nat,
    fuel: nat,
    k: int,
)
    requires
        tree::linked(tree, depth),
        tree.nodes.contains_key(top),
        level + tree.nodes.dom().len() <= usize::MAX + depth[top] + 1,
        0 <= count <= tree.nodes[top].children.len(),
        0 <= k < tree::admitted_from(
            tree.nodes,
            tree.nodes[top].children.take(count),
            level,
            admits,
            fuel,
        ).len(),
    ensures
        exists|child: NodeId| #[trigger]
            tree.nodes[top].children.contains(child) && fits_admitted(
                tree,
                depth,
                admits,
                child,
                level,
                tree::admitted_from(
                    tree.nodes,
                    tree.nodes[top].children.take(count),
                    level,
                    admits,
                    fuel,
                )[k],
            ),
    decreases fuel, 2nat, count,
{
    let children = tree.nodes[top].children;
    let ids = children.take(count);
    assert(ids.len() > 0);
    let rest = tree::admitted_from(tree.nodes, ids.drop_last(), level, admits, fuel);
    assert(ids.drop_last() =~= children.take(count - 1));
    if k < rest.len() {
        lemma_child_admitted_rows_fit(tree, depth, admits, top, count - 1, level, fuel, k);
    } else {
        let child = children[count - 1];
        assert(ids.last() == child);
        assert(tree.nodes[tree.nodes[top].children[count - 1]].parent == Some(top));
        assert(child != tree.root);
        assert(tree::hangs(tree, depth, child));
        lemma_admitted_rows_fit(tree, depth, admits, child, level, fuel, k - rest.len());
        assert(children.contains(child));
    }
}

/// Under a filter a row shows a node that is admitted, or that has an admitted
/// one below it, at the depth of its ancestors below the root. It is marked as
/// found if it is admitted itself.
pub proof fn filtered_rows_lead_to_what_is_admitted(
    tree: TreeModel,
    admits: spec_fn(NodeModel) -> bool,
    k: int,
)
    requires
        tree::is_tree(tree),
        tree.nodes.dom().len() <= usize::MAX,
        0 <= k < tree::admitted_view(tree, admits).len(),
    ensures
        ({
            let row = tree::admitted_view(tree, admits)[k];
            &&& tree.nodes.contains_key(row.node_id)
            &&& row.node_id != tree.root
            &&& row.depth == tree::ancestor_ids(tree, row.node_id).len() - 1
            &&& row.matched == admits(tree.nodes[row.node_id])
            &&& holds_admitted(tree, admits, row.node_id)
        }),
{
    let depth = choose|depth: Map<NodeId, nat>| tree::linked(tree, depth);
    let children = tree.nodes[tree.root].children;
    let fuel = tree.nodes.dom().len() + 1;
    let row = tree::admitted_view(tree, admits)[k];
    let id = row.node_id;
    assert(children.take(children.len() as int) =~= children);
    lemma_child_admitted_rows_fit(
        tree,
        depth,
        admits,
        tree.root,
        children.len() as int,
        0,
        fuel,
        k,
    );
    let child = choose|child: NodeId| #[trigger]
        children.contains(child) && fits_admitted(tree, depth, admits, child, 0, row);
    let i = choose|i: int| 0 <= i < children.len() && children[i] == child;
    assert(tree.nodes[tree.nodes[tree.root].children[i]].parent == Some(tree.root));
    assert(child != tree.root);
    assert(tree::hangs(tree, depth, child));
    if id == tree.root {
        removal::lemma_higher(tree, depth, id, child);
    }
    tree::lemma_depth(tree, depth, id);
    lemma_ancestor_count(tree, depth, id, fuel);
}

proof fn lemma_admitted_shown(
    tree: TreeModel,
    depth: Map<NodeId, nat>,
    admits: spec_fn(NodeModel) -> bool,
    top: NodeId,
    id: NodeId,
    level: nat,
    fuel: nat,
)
    requires
        tree::linked(tree, depth),
        tree.nodes.contains_key(top),
        tree.nodes.contains_key(id),
        is_below(tree, id, top),
        holds_admitted(tree, admits, id),
        fuel + depth[top] > tree.nodes.dom().len(),
    ensures
        sorting::shown(tree::admitted_rows(tree.nodes, top, level, admits, fuel), id),
    decreases tree.nodes.dom().len() - depth[top], 1nat,
{
    let rows = tree::admitted_rows(tree.nodes, top, level, admits, fuel);
    let row = VisibleNode {
        node_id: top,
        depth: level as usize,
        matched: admits(tree.nodes[top]),
    };
    let below = tree::admitted_from(
        tree.nodes,
        tree.nodes[top].children,
        level + 1,
        admits,
        (fuel - 1) as nat,
    );
    tree::lemma_depth(tree, depth, top);
    let found = choose|found: NodeId| #[trigger]
        tree.nodes.contains_key(found) && admits(tree.nodes[found]) && (found == id
            || tree::ancestor_ids(tree, found).contains(id));
    if id == top {
        if found != top {
            assert(holds_admitted(tree, admits, found));
            lemma_admitted_below(tree, depth, admits, top, found, level + 1, (fuel - 1) as nat);
            assert(below.len() > 0);
        }
        assert(rows[0].node_id == id);
    } else {
        lemma_admitted_below(tree, depth, admits, top, id, level + 1, (fuel - 1) as nat);
        assert(below.len() > 0);
        sorting::lemma_shown_in_either(seq![row], below, id);
    }
}

proof fn lemma_admitted_below(
    tree: TreeModel,
    depth: Map<NodeId, nat>,
    admits: spec_fn(NodeModel) -> bool,
    top: NodeId,
    id: NodeId,
    level: nat,
    fuel: nat,
)
    requires
        tree::linked(tree, depth),
        tree.nodes.contains_key(top),
        tree.nodes.contains_key(id),
        tree::ancestor_ids(tree, id).contains(top),
        holds_admitted(tree, admits, id),
        fuel + depth[top] + 1 > tree.nodes.dom().len(),
    ensures
        sorting::shown(
            tree::admitted_from(tree.nodes, tree.nodes[top].children, level, admits, fuel),
            id,
        ),
    decreases tree.nodes.dom().len() - depth[top], 0nat,
{
    let children = tree.nodes[top].children;
    removal::lemma_higher(tree, depth, id, top);
    removal::lemma_in_a_child(tree, depth, top, id);
    let i = choose|i: int|
        0 <= i < children.len() && (#[trigger] children[i] == id || tree::ancestor_ids(
            tree,
            id,
        ).contains(children[i]));
    let child = children[i];
    assert(tree.nodes[tree.nodes[top].children[i]].parent == Some(top));
    assert(child != tree.root);
    assert(tree::hangs(tree, depth, child));
    tree::lemma_depth(tree, depth, child);
    lemma_admitted_shown(tree, depth, admits, child, id, level, fuel);
    lemma_admitted_among(tree.nodes, children, admits, level, fuel, i, id);
}

proof fn lemma_admitted_among(
    nodes: Map<NodeId, NodeModel>,
    ids: Seq<NodeId>,
    admits: spec_fn(NodeModel) -> bool,
    level: nat,
    fuel: nat,
    i: int,
    id: NodeId,
)
    requires
        0 <= i < ids.len(),
        sorting::shown(tree::admitted_rows(nodes, ids[i], level, admits, fuel), id),
    ensures
        sorting::shown(tree::admitted_from(nodes, ids, level, admits, fuel), id),
    decreases ids.len(),
{
    let rest = ids.drop_last();
    if fuel > 0 {
        sorting::lemma_shown_in_either(
            tree::admitted_from(nodes, rest, level, admits, fuel),
            tree::admitted_rows(nodes, ids.last(), level, admits, fuel),
            id,
        );
        if i < ids.len() - 1 {
            assert(rest[i] == ids[i]);
            lemma_admitted_among(nodes, rest, admits, level, fuel, i, id);
        }
    }
}

/// Under a filter every admitted node is shown, and with it all nodes on the way
/// to it, be they open or not.
pub proof fn admitted_nodes_are_shown(
    tree: TreeModel,
    admits: spec_fn(NodeModel) -> bool,
    id: NodeId,
)
    requires
        tree::is_tree(tree),
        tree.nodes.contains_key(id),
        id != tree.root,
        holds_admitted(tree, admits, id),
    ensures
        sorting::shown(tree::admitted_view(tree, admits), id),
{
    let depth = choose|depth: Map<NodeId, nat>| tree::linked(tree, depth);
    lemma_root_above(tree, depth, id);
    lemma_admitted_below(tree, depth, admits, tree.root, id, 0, tree.nodes.dom().len() + 1);
}

} // verus!
