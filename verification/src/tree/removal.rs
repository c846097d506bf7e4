//! What goes when a part of the tree is taken away, and what stays.
use vstd::prelude::*;

use crate::tree;
use crate::tree::{NodeId, TreeModel};

verus! {

/// Enough fuel lists all ancestors, and more fuel changes nothing.
proof fn lemma_enough_fuel(
    tree: TreeModel,
    depth: Map<NodeId, nat>,
    other: TreeModel,
    id: NodeId,
    fuel: nat,
    more: nat,
)
    requires
        tree::linked(tree, depth),
        tree.nodes.contains_key(id),
        fuel > depth[id],
        more > depth[id],
        forall|k: NodeId|
            tree.nodes.contains_key(k) && (k == id || tree::ancestors(
                tree.nodes,
                id,
                fuel,
            ).contains(k)) ==> #[trigger] other.nodes.contains_key(k) && other.nodes[k].parent
                == tree.nodes[k].parent,
    ensures
        tree::ancestors(tree.nodes, id, fuel) == tree::ancestors(other.nodes, id, more),
    decreases depth[id],
{
    assert(other.nodes.contains_key(id));
    if id != tree.root {
        assert(tree::hangs(tree, depth, id));
        let parent = tree.nodes[id].parent->0;
        let above = tree::ancestors(tree.nodes, parent, (fuel - 1) as nat);
        let all = tree::ancestors(tree.nodes, id, fuel);
        assert(all == seq![parent] + above);
        assert(all[0] == parent);
        assert forall|k: NodeId| above.contains(k) implies all.contains(k) by {
            let i = choose|i: int| 0 <= i < above.len() && above[i] == k;
            assert(all[i + 1] == k);
        }
        lemma_enough_fuel(tree, depth, other, parent, (fuel - 1) as nat, (more - 1) as nat);
    }
}

/// The ancestors of a node are its parent and the ancestors of that.
pub proof fn lemma_ancestors(tree: TreeModel, depth: Map<NodeId, nat>, id: NodeId)
    requires
        tree::linked(tree, depth),
        tree.nodes.contains_key(id),
        id != tree.root,
    ensures
        tree::hangs(tree, depth, id),
        forall|k: NodeId| #[trigger]
            tree::ancestor_ids(tree, id).contains(k) <==> k == tree.nodes[id].parent->0
                || tree::ancestor_ids(tree, tree.nodes[id].parent->0).contains(k),
{
    assert(tree::hangs(tree, depth, id));
    let parent = tree.nodes[id].parent->0;
    let fuel = tree.nodes.dom().len() + 1;
    tree::lemma_depth(tree, depth, id);
    tree::lemma_depth(tree, depth, parent);
    lemma_enough_fuel(tree, depth, tree, parent, fuel, (fuel - 1) as nat);
    let above = tree::ancestor_ids(tree, parent);
    let all = tree::ancestor_ids(tree, id);
    assert(all == seq![parent] + above);
    assert forall|k: NodeId| #[trigger] all.contains(k) <==> k == parent || above.contains(k) by {
        if all.contains(k) {
            let i = choose|i: int| 0 <= i < all.len() && all[i] == k;
            if i > 0 {
                assert(above[i - 1] == k);
            }
        }
        if above.contains(k) {
            let i = choose|i: int| 0 <= i < above.len() && above[i] == k;
            assert(all[i + 1] == k);
        }
        assert(all[0] == parent);
    }
}

/// The root has no ancestors.
proof fn lemma_root_ancestors(tree: TreeModel, depth: Map<NodeId, nat>)
    requires
        tree::linked(tree, depth),
    ensures
        tree::ancestor_ids(tree, tree.root).len() == 0,
{
}

/// A subtree is its top with all nodes that have it as an ancestor.
proof fn lemma_below(tree: TreeModel, depth: Map<NodeId, nat>, top: NodeId, id: NodeId)
    requires
        tree::linked(tree, depth),
        tree.nodes.contains_key(top),
        tree.nodes.contains_key(id),
    ensures
        tree::subtree_ids(tree, top).contains(id) <==> id == top || tree::ancestor_ids(
            tree,
            id,
        ).contains(top),
    decreases depth[id],
{
    let fuel = tree.nodes.dom().len() + 1;
    tree::lemma_subtree(tree, depth, top, fuel, id);
    if id == tree.root {
        lemma_root_ancestors(tree, depth);
    } else if id != top {
        lemma_ancestors(tree, depth, id);
        let parent = tree.nodes[id].parent->0;
        lemma_below(tree, depth, top, parent);
        tree::lemma_subtree(tree, depth, top, fuel, parent);
        if tree::subtree_ids(tree, top).contains(parent) {
            let i = choose|i: int|
                0 <= i < tree.nodes[parent].children.len() && tree.nodes[parent].children[i] == id;
            assert(tree::subtree_ids(tree, top).contains(tree.nodes[parent].children[i]));
        }
    }
}

/// Removing a node takes away the node and all nodes below it, and no others;
/// of these only its parent changes.
pub proof fn removing_takes_what_lies_below(tree: TreeModel, id: NodeId, other: NodeId)
    requires
        tree::is_tree(tree),
        tree.nodes.contains_key(id),
        id != tree.root,
        tree.nodes.contains_key(other),
    ensures
        tree::without_subtree(tree, id).nodes.contains_key(other) <==> other != id
            && !tree::ancestor_ids(tree, other).contains(id),
        tree::without_subtree(tree, id).nodes.contains_key(other) && tree.nodes[id].parent != Some(
            other,
        ) ==> tree::without_subtree(tree, id).nodes[other] == tree.nodes[other],
{
    let depth = choose|depth: Map<NodeId, nat>| tree::linked(tree, depth);
    assert(tree::hangs(tree, depth, id));
    lemma_below(tree, depth, id, other);
}

/// Ancestors stand higher up.
pub proof fn lemma_higher(tree: TreeModel, depth: Map<NodeId, nat>, id: NodeId, above: NodeId)
    requires
        tree::linked(tree, depth),
        tree.nodes.contains_key(id),
        tree::ancestor_ids(tree, id).contains(above),
    ensures
        tree.nodes.contains_key(above),
        depth[above] < depth[id],
    decreases depth[id],
{
    if id == tree.root {
        lemma_root_ancestors(tree, depth);
    } else {
        lemma_ancestors(tree, depth, id);
        let parent = tree.nodes[id].parent->0;
        if above != parent {
            lemma_higher(tree, depth, parent, above);
        }
    }
}

/// Whether a tree is what is left of another one: some of its nodes, under the
/// same parents.
pub open spec fn is_rest(tree: TreeModel, rest: TreeModel) -> bool {
    &&& tree::is_tree(rest)
    &&& rest.root == tree.root
    &&& forall|k: NodeId| #[trigger]
        rest.nodes.contains_key(k) ==> tree.nodes.contains_key(k) && rest.nodes[k].parent
            == tree.nodes[k].parent
}

/// What is left has the ancestors that it had.
pub proof fn lemma_same_ancestors(tree: TreeModel, rest: TreeModel, id: NodeId)
    requires
        tree::is_tree(tree),
        is_rest(tree, rest),
        rest.nodes.contains_key(id),
    ensures
        tree::ancestor_ids(rest, id) == tree::ancestor_ids(tree, id),
{
    let depth = choose|depth: Map<NodeId, nat>| tree::linked(rest, depth);
    assert(exists|depth: Map<NodeId, nat>| tree::linked(tree, depth));
    tree::lemma_depth(rest, depth, id);
    assert(rest.nodes.dom().subset_of(tree.nodes.dom()));
    vstd::set_lib::lemma_len_subset(rest.nodes.dom(), tree.nodes.dom());
    lemma_enough_fuel(
        rest,
        depth,
        tree,
        id,
        rest.nodes.dom().len() + 1,
        tree.nodes.dom().len() + 1,
    );
}

/// Whether a node is one of some nodes, or lies below one.
pub open spec fn in_one_of(tree: TreeModel, ids: Seq<NodeId>, id: NodeId) -> bool {
    exists|i: int|
        0 <= i < ids.len() && (#[trigger] ids[i] == id || tree::ancestor_ids(tree, id).contains(
            ids[i],
        ))
}

/// Taking away some children of a node takes away what lies below them.
proof fn lemma_without_children(
    tree: TreeModel,
    depth: Map<NodeId, nat>,
    parent: NodeId,
    ids: Seq<NodeId>,
)
    requires
        tree::linked(tree, depth),
        tree.nodes.contains_key(parent),
        ids.no_duplicates(),
        forall|i: int|
            0 <= i < ids.len() ==> tree.nodes.contains_key(#[trigger] ids[i])
                && tree.nodes[ids[i]].parent == Some(parent),
    ensures
        is_rest(tree, tree::without_subtrees(tree, ids)),
        forall|k: NodeId|
            tree.nodes.contains_key(k) ==> (#[trigger] tree::without_subtrees(
                tree,
                ids,
            ).nodes.contains_key(k) <==> !in_one_of(tree, ids, k)),
        forall|k: NodeId| #[trigger]
            tree::without_subtrees(tree, ids).nodes.contains_key(k) && k != parent
                ==> tree::without_subtrees(tree, ids).nodes[k] == tree.nodes[k],
    decreases ids.len(),
{
    if ids.len() > 0 {
        let less = ids.drop_last();
        let id = ids.last();
        let before = tree::without_subtrees(tree, less);
        let after = tree::without_subtrees(tree, ids);
        assert forall|i: int| 0 <= i < less.len() implies tree.nodes.contains_key(
            #[trigger] less[i],
        ) && tree.nodes[less[i]].parent == Some(parent) by {
            assert(ids[i] == less[i]);
        }
        lemma_without_children(tree, depth, parent, less);
        assert(ids[ids.len() - 1] == id);
        assert(id != tree.root);
        assert(tree::hangs(tree, depth, id));
        assert(!in_one_of(tree, less, id)) by {
            if in_one_of(tree, less, id) {
                let i = choose|i: int|
                    0 <= i < less.len() && (#[trigger] less[i] == id || tree::ancestor_ids(
                        tree,
                        id,
                    ).contains(less[i]));
                assert(ids[i] == less[i]);
                if less[i] != id {
                    lemma_higher(tree, depth, id, less[i]);
                    assert(tree::hangs(tree, depth, less[i]));
                }
            }
        }
        assert(before.nodes.contains_key(id));
        tree::lemma_without_subtree(before, id);
        assert(after == tree::without_subtree(before, id));
        assert forall|k: NodeId| #[trigger] after.nodes.contains_key(k) implies {
            &&& tree.nodes.contains_key(k)
            &&& after.nodes[k].parent == tree.nodes[k].parent
            &&& k != parent ==> after.nodes[k] == tree.nodes[k]
        } by {
            assert(before.nodes.contains_key(k) || k == before.nodes[id].parent->0);
            lemma_parent_stays(before, id);
            removing_takes_what_lies_below(before, id, k);
        }
        assert forall|k: NodeId| tree.nodes.contains_key(k) implies (
        #[trigger] after.nodes.contains_key(k) <==> !in_one_of(tree, ids, k)) by {
            if before.nodes.contains_key(k) {
                lemma_same_ancestors(tree, before, k);
                removing_takes_what_lies_below(before, id, k);
            } else {
                lemma_parent_stays(before, id);
            }
            lemma_one_more(tree, ids, k);
        }
    }
}

/// The parent of a node is in the tree.
pub proof fn lemma_parent_stays(tree: TreeModel, id: NodeId)
    requires
        tree::is_tree(tree),
        tree.nodes.contains_key(id),
        id != tree.root,
    ensures
        tree.nodes[id].parent is Some,
        tree.nodes.contains_key(tree.nodes[id].parent->0),
{
    let depth = choose|depth: Map<NodeId, nat>| tree::linked(tree, depth);
    assert(tree::hangs(tree, depth, id));
}

proof fn lemma_one_more(tree: TreeModel, ids: Seq<NodeId>, id: NodeId)
    requires
        ids.len() > 0,
    ensures
        in_one_of(tree, ids, id) <==> in_one_of(tree, ids.drop_last(), id) || ids.last() == id
            || tree::ancestor_ids(tree, id).contains(ids.last()),
{
    let less = ids.drop_last();
    if in_one_of(tree, ids, id) {
        let i = choose|i: int|
            0 <= i < ids.len() && (#[trigger] ids[i] == id || tree::ancestor_ids(
                tree,
                id,
            ).contains(ids[i]));
        if i < less.len() {
            assert(less[i] == ids[i]);
        }
    }
    if in_one_of(tree, less, id) {
        let i = choose|i: int|
            0 <= i < less.len() && (#[trigger] less[i] == id || tree::ancestor_ids(
                tree,
                id,
            ).contains(less[i]));
        assert(ids[i] == less[i]);
    }
    assert(ids[ids.len() - 1] == ids.last());
}

/// What lies below a node lies in one of its children.
pub proof fn lemma_in_a_child(tree: TreeModel, depth: Map<NodeId, nat>, parent: NodeId, id: NodeId)
    requires
        tree::linked(tree, depth),
        tree.nodes.contains_key(parent),
        tree.nodes.contains_key(id),
    ensures
        in_one_of(tree, tree.nodes[parent].children, id) <==> tree::ancestor_ids(
            tree,
            id,
        ).contains(parent),
    decreases depth[id],
{
    let children = tree.nodes[parent].children;
    if id == tree.root {
        lemma_root_ancestors(tree, depth);
        if in_one_of(tree, children, id) {
            let i = choose|i: int|
                0 <= i < children.len() && (#[trigger] children[i] == id || tree::ancestor_ids(
                    tree,
                    id,
                ).contains(children[i]));
            assert(tree.nodes[tree.nodes[parent].children[i]].parent == Some(parent));
        }
    } else {
        lemma_ancestors(tree, depth, id);
        let above = tree.nodes[id].parent->0;
        lemma_in_a_child(tree, depth, parent, above);
        if in_one_of(tree, children, id) {
            let i = choose|i: int|
                0 <= i < children.len() && (#[trigger] children[i] == id || tree::ancestor_ids(
                    tree,
                    id,
                ).contains(children[i]));
            assert(tree.nodes[tree.nodes[parent].children[i]].parent == Some(parent));
            if children[i] != id {
                assert(in_one_of(tree, children, above));
            }
        }
        if tree::ancestor_ids(tree, id).contains(parent) {
            if above == parent {
                let i = choose|i: int| 0 <= i < children.len() && children[i] == id;
                assert(children[i] == id);
            } else {
                let i = choose|i: int|
                    0 <= i < children.len() && (#[trigger] children[i] == above
                        || tree::ancestor_ids(tree, above).contains(children[i]));
                assert(tree::ancestor_ids(tree, id).contains(children[i]));
            }
        }
    }
}

/// Clearing a node takes away all nodes below it, and no others; of these only
/// the node itself changes.
pub proof fn clearing_takes_what_lies_below(tree: TreeModel, id: NodeId, other: NodeId)
    requires
        tree::is_tree(tree),
        tree.nodes.contains_key(id),
        tree.nodes.contains_key(other),
    ensures
        is_rest(tree, tree::cleared(tree, id)),
        tree::cleared(tree, id).nodes.contains_key(other) <==> !tree::ancestor_ids(
            tree,
            other,
        ).contains(id),
        tree::cleared(tree, id).nodes.contains_key(other) && other != id ==> tree::cleared(
            tree,
            id,
        ).nodes[other] == tree.nodes[other],
{
    let depth = choose|depth: Map<NodeId, nat>| tree::linked(tree, depth);
    let children = tree.nodes[id].children;
    assert forall|i: int| 0 <= i < children.len() implies tree.nodes.contains_key(
        #[trigger] children[i],
    ) && tree.nodes[children[i]].parent == Some(id) by {
        assert(tree.nodes.contains_key(tree.nodes[id].children[i]));
    }
    assert(tree.nodes[id].children.no_duplicates());
    lemma_without_children(tree, depth, id, children);
    lemma_in_a_child(tree, depth, id, other);
}

/// No node lies below itself.
pub proof fn lemma_not_below_itself(tree: TreeModel, id: NodeId)
    requires
        tree::is_tree(tree),
        tree.nodes.contains_key(id),
    ensures
        !tree::ancestor_ids(tree, id).contains(id),
{
    let depth = choose|depth: Map<NodeId, nat>| tree::linked(tree, depth);
    if tree::ancestor_ids(tree, id).contains(id) {
        lemma_higher(tree, depth, id, id);
    }
}

} // verus!
