//! The node hierarchy: what a sound subtree is, in which order it is walked,
//! and how world matrices are propagated through it.
use crate::resource::{PoolModel, ResourceId, ResourcePool};
use crate::scene::node::{Node, NodeModel, TransformMath};
use crate::scene::walk::{
    lemma_mark_visited, lemma_refresh_step, lemma_walk_child_sound, lemma_walk_done,
    lemma_walk_finish, lemma_walk_pop, lemma_walk_push, lemma_walk_start, unvisited, walk_inv,
};
use vstd::prelude::*;

verus! {

/// Why a walk over the hierarchy was abandoned.
#[derive(Clone, Copy, Debug, PartialEq, Eq, Structural)]
pub enum HierarchyError {
    /// The handle the walk should start from does not resolve.
    NotFound,
    /// The nodes below the starting point do not form a tree: a child handle
    /// does not resolve, a child names another parent than the node that
    /// lists it, a node is listed twice, or the walk came back to where it
    /// started.
    Corrupted,
}

/// Why a node was not attached.
#[derive(Clone, Copy, Debug, PartialEq, Eq, Structural)]
pub enum AttachError {
    /// One of the two handles does not resolve.
    NotFound,
    /// The node to attach already hangs below a parent.
    Attached,
    /// The chain of parents above the new parent breaks off or does not end.
    Corrupted,
    /// Attaching would make a node its own ancestor.
    Cycle,
}

/// Why a node was not detached.
#[derive(Clone, Copy, Debug, PartialEq, Eq, Structural)]
pub enum DetachError {
    /// The handle does not resolve.
    NotFound,
    /// The node hangs below no parent.
    Detached,
    /// The parent that the node names does not resolve or does not list it.
    Corrupted,
}

/// Why a node was not removed.
#[derive(Clone, Copy, Debug, PartialEq, Eq, Structural)]
pub enum RemoveError {
    /// The handle does not resolve.
    NotFound,
    /// The node still hangs below a parent or still has children.
    Linked,
}

/// The node behind `id`, as plain values.
pub open spec fn node_at<T: Copy + Clone>(
    pool: PoolModel<Node<T>>,
    id: ResourceId<Node<T>>,
) -> NodeModel<T> {
    pool.value(id)@
}

/// `child` names `parent` as its parent and `parent` lists `child` among its
/// children.
pub open spec fn hangs_below<T: Copy + Clone>(
    pool: PoolModel<Node<T>>,
    child: ResourceId<Node<T>>,
    parent: ResourceId<Node<T>>,
) -> bool {
    &&& node_at(pool, child).parent == Some(parent)
    &&& node_at(pool, parent).children.contains(child)
}

/// `order` lists a sound subtree below `root`: it starts with `root`, names
/// each of its nodes once, names every other node after the parent it hangs
/// below, and holds, for every node in it, the children that the node lists,
/// each listed once, each naming that node as its parent, none of them
/// `root`. So the listing holds the nodes that can be reached from `root`
/// through the lists of children, and no others.
pub open spec fn is_tree_listing<T: Copy + Clone>(
    pool: PoolModel<Node<T>>,
    root: ResourceId<Node<T>>,
    order: Seq<ResourceId<Node<T>>>,
) -> bool {
    &&& order.len() > 0
    &&& order[0] == root
    &&& order.no_duplicates()
    &&& forall|k: int| 0 <= k < order.len() ==> pool.contains(#[trigger] order[k])
    &&& forall|k: int|
        1 <= k < order.len() ==> exists|j: int|
            0 <= j < k && hangs_below(pool, #[trigger] order[k], #[trigger] order[j])
    &&& forall|k: int|
        0 <= k < order.len() ==> (#[trigger] node_at(pool, order[k])).children.no_duplicates()
    &&& forall|k: int, i: int|
        0 <= k < order.len() && 0 <= i < node_at(pool, order[k]).children.len() ==> {
            let child = #[trigger] node_at(pool, order[k]).children[i];
            &&& order.contains(child)
            &&& child != root
            &&& node_at(pool, child).parent == Some(order[k])
        }
}

/// The nodes below `root` form a tree.
pub open spec fn hierarchy_ok<T: Copy + Clone>(
    pool: PoolModel<Node<T>>,
    root: ResourceId<Node<T>>,
) -> bool {
    exists|order: Seq<ResourceId<Node<T>>>| #[trigger] is_tree_listing(pool, root, order)
}

/// The walk after `steps` pops: the nodes discovered so far and the stack of
/// nodes whose children are still to be discovered. A pop takes the newest
/// node off the stack and appends its children, in their listed order, to
/// both. With an empty stack nothing changes any more.
pub open spec fn walk<T: Copy + Clone>(
    pool: PoolModel<Node<T>>,
    root: ResourceId<Node<T>>,
    steps: nat,
) -> (Seq<ResourceId<Node<T>>>, Seq<ResourceId<Node<T>>>)
    decreases steps,
{
    if steps == 0 {
        (seq![root], seq![root])
    } else {
        let (found, stack) = walk(pool, root, (steps - 1) as nat);
        if stack.len() == 0 {
            (found, stack)
        } else {
            let children = node_at(pool, stack.last()).children;
            (found + children, stack.drop_last() + children)
        }
    }
}

/// `order` is the discovery order of the walk from `root`: what has been
/// found when the stack runs empty.
pub open spec fn is_discovery_order<T: Copy + Clone>(
    pool: PoolModel<Node<T>>,
    root: ResourceId<Node<T>>,
    order: Seq<ResourceId<Node<T>>>,
) -> bool {
    exists|steps: nat| #[trigger] walk(pool, root, steps) == (order, Seq::<ResourceId<Node<T>>>::empty())
}

/// Once the stack is empty, further steps change nothing.
pub proof fn lemma_walk_settles<T: Copy + Clone>(
    pool: PoolModel<Node<T>>,
    root: ResourceId<Node<T>>,
    steps: nat,
    later: nat,
)
    requires
        walk(pool, root, steps).1.len() == 0,
        steps <= later,
    ensures
        walk(pool, root, later) == walk(pool, root, steps),
    decreases later,
{
    if steps < later {
        lemma_walk_settles(pool, root, steps, (later - 1) as nat);
    }
}

/// A walk has at most one discovery order.
pub proof fn lemma_discovery_order_unique<T: Copy + Clone>(
    pool: PoolModel<Node<T>>,
    root: ResourceId<Node<T>>,
    a: Seq<ResourceId<Node<T>>>,
    b: Seq<ResourceId<Node<T>>>,
)
    requires
        is_discovery_order(pool, root, a),
        is_discovery_order(pool, root, b),
    ensures
        a == b,
{
    let m = choose|steps: nat| #[trigger] walk(pool, root, steps) == (a, Seq::<ResourceId<Node<T>>>::empty());
    let n = choose|steps: nat| #[trigger] walk(pool, root, steps) == (b, Seq::<ResourceId<Node<T>>>::empty());
    if m <= n {
        lemma_walk_settles(pool, root, m, n);
    } else {
        lemma_walk_settles(pool, root, n, m);
    }
}

/// The discovery order of the walk from `root`, where there is one.
pub open spec fn discovery_order<T: Copy + Clone>(
    pool: PoolModel<Node<T>>,
    root: ResourceId<Node<T>>,
) -> Seq<ResourceId<Node<T>>> {
    choose|order: Seq<ResourceId<Node<T>>>| is_discovery_order(pool, root, order)
}

/// `after` has the same slots as `before`, occupied and vacant alike, and
/// every node in it hangs where it hung and stands where it stood; only
/// cached orientations and matrices may differ.
pub open spec fn same_shape<T: Copy + Clone>(
    before: PoolModel<Node<T>>,
    after: PoolModel<Node<T>>,
) -> bool {
    &&& after.slots.len() == before.slots.len()
    &&& after.vacant == before.vacant
    &&& forall|i: int|
        0 <= i < before.slots.len() ==> {
            &&& (#[trigger] after.slots[i]).generation == before.slots[i].generation
            &&& after.slots[i].value.is_some() == before.slots[i].value.is_some()
            &&& after.slots[i].value.is_some() ==> after.slots[i].value.unwrap()@.same_placement(
                before.slots[i].value.unwrap()@,
            )
        }
}

/// The starting point of a refresh has its world matrix: its own local
/// matrix where it has no parent, else the product of the parent's world
/// matrix, as it was before the refresh, and its local matrix.
pub open spec fn root_settled<T: Copy + Clone, K: TransformMath<T>>(
    before: PoolModel<Node<T>>,
    after: PoolModel<Node<T>>,
    root: ResourceId<Node<T>>,
) -> bool {
    match node_at(before, root).parent {
        None => node_at(after, root).world_matrix == node_at(after, root).matrix,
        Some(parent) => before.contains(parent) && node_at(after, root).world_follows::<K>(
            node_at(before, parent).world_matrix,
        ),
    }
}

/// `id` is among the first `k` entries of `order`.
pub open spec fn listed_before<T: Copy + Clone>(
    order: Seq<ResourceId<Node<T>>>,
    k: int,
    id: ResourceId<Node<T>>,
) -> bool {
    exists|j: int| 0 <= j < k && j < order.len() && #[trigger] order[j] == id
}

/// `now` is `before` with the first `k` nodes of `order` refreshed, parents
/// first: each has its local matrix recomposed and its world matrix formed
/// from its parent's world matrix in `now`. All other nodes are as they
/// were.
pub open spec fn refreshed_upto<T: Copy + Clone, K: TransformMath<T>>(
    before: PoolModel<Node<T>>,
    now: PoolModel<Node<T>>,
    root: ResourceId<Node<T>>,
    order: Seq<ResourceId<Node<T>>>,
    k: int,
) -> bool {
    &&& same_shape(before, now)
    &&& forall|id: ResourceId<Node<T>>| #[trigger]
        before.contains(id) && !listed_before(order, k, id) ==> now.value(id) == before.value(id)
    &&& forall|j: int|
        0 <= j < k && j < order.len() ==> node_at(now, #[trigger] order[j]).local_refreshed::<K>(
            node_at(before, order[j]),
        )
    &&& k >= 1 ==> root_settled::<T, K>(before, now, root)
    &&& forall|j: int|
        1 <= j < k && j < order.len() ==> node_at(now, #[trigger] order[j]).world_follows::<K>(
            node_at(now, node_at(before, order[j]).parent.unwrap()).world_matrix,
        )
}

/// `after` is `before` with the subtree below `root` refreshed: every node
/// of the subtree has its local matrix recomposed from its placement, `root`
/// has its world matrix settled, and every other node of the subtree has the
/// product of its parent's world matrix and its own local matrix as its world
/// matrix. Nodes outside the subtree are untouched.
pub open spec fn hierarchy_refreshed<T: Copy + Clone, K: TransformMath<T>>(
    before: PoolModel<Node<T>>,
    after: PoolModel<Node<T>>,
    root: ResourceId<Node<T>>,
) -> bool {
    let order = discovery_order(before, root);
    &&& is_discovery_order(before, root, order)
    &&& is_tree_listing(before, root, order)
    &&& refreshed_upto::<T, K>(before, after, root, order, order.len() as int)
}

/// After a refresh, a node of the subtree that hangs below another has the
/// product of its parent's world matrix and its own local matrix as its
/// world matrix, and its local matrix is the one composed from its
/// placement.
pub proof fn lemma_world_follows_parent<T: Copy + Clone, K: TransformMath<T>>(
    before: PoolModel<Node<T>>,
    after: PoolModel<Node<T>>,
    root: ResourceId<Node<T>>,
    parent: ResourceId<Node<T>>,
    child: ResourceId<Node<T>>,
)
    requires
        hierarchy_refreshed::<T, K>(before, after, root),
        discovery_order(before, root).contains(parent),
        node_at(before, parent).children.contains(child),
    ensures
        discovery_order(before, root).contains(child),
        after.contains(parent),
        after.contains(child),
        node_at(after, child).parent == Some(parent),
        node_at(after, child).local_refreshed::<K>(node_at(before, child)),
        node_at(after, child).world_follows::<K>(node_at(after, parent).world_matrix),
{
    let order = discovery_order(before, root);
    let kp = choose|k: int| 0 <= k < order.len() && order[k] == parent;
    let kids = node_at(before, order[kp]).children;
    let i = choose|i: int| 0 <= i < kids.len() && kids[i] == child;
    assert(node_at(before, order[kp]).children[i] == child);
    assert(order.contains(child));
    let kc = choose|k: int| 0 <= k < order.len() && order[k] == child;
    assert(order[0] == root);
    assert(kc >= 1);
    assert(before.contains(order[kc]));
    assert(before.contains(order[kp]));
    assert(node_at(after, order[kc]).local_refreshed::<K>(node_at(before, order[kc])));
    assert(node_at(after, order[kc]).world_follows::<K>(
        node_at(after, node_at(before, order[kc]).parent.unwrap()).world_matrix,
    ));
}

/// After a refresh from a node without a parent, that node's world matrix
/// is its local matrix, value for value.
pub proof fn lemma_parentless_root_world<T: Copy + Clone, K: TransformMath<T>>(
    before: PoolModel<Node<T>>,
    after: PoolModel<Node<T>>,
    root: ResourceId<Node<T>>,
)
    requires
        hierarchy_refreshed::<T, K>(before, after, root),
        node_at(before, root).parent.is_none(),
    ensures
        after.contains(root),
        node_at(after, root).local_refreshed::<K>(node_at(before, root)),
        node_at(after, root).world_matrix == node_at(after, root).matrix,
{
    let order = discovery_order(before, root);
    assert(order[0] == root);
    assert(before.contains(order[0]));
    assert(node_at(after, order[0]).local_refreshed::<K>(node_at(before, order[0])));
}

/// After a refresh from a parentless `root` with a child and a grandchild,
/// the grandchild's world matrix is the product, taken left to right, of
/// the three local matrices: the root's world matrix is its local matrix,
/// the child's is that times the child's local matrix, and the grandchild's
/// is that times the grandchild's local matrix.
pub proof fn lemma_chain_world<T: Copy + Clone, K: TransformMath<T>>(
    before: PoolModel<Node<T>>,
    after: PoolModel<Node<T>>,
    root: ResourceId<Node<T>>,
    child: ResourceId<Node<T>>,
    grandchild: ResourceId<Node<T>>,
)
    requires
        hierarchy_refreshed::<T, K>(before, after, root),
        node_at(before, root).parent.is_none(),
        node_at(before, root).children.contains(child),
        node_at(before, child).children.contains(grandchild),
    ensures
        node_at(after, root).world_matrix == node_at(after, root).matrix,
        call_ensures(
            K::multiply,
            (&node_at(after, root).matrix, node_at(after, child).matrix),
            node_at(after, child).world_matrix,
        ),
        call_ensures(
            K::multiply,
            (&node_at(after, child).world_matrix, node_at(after, grandchild).matrix),
            node_at(after, grandchild).world_matrix,
        ),
{
    let order = discovery_order(before, root);
    assert(order[0] == root);
    assert(order.contains(root));
    lemma_parentless_root_world::<T, K>(before, after, root);
    lemma_world_follows_parent::<T, K>(before, after, root, root, child);
    lemma_world_follows_parent::<T, K>(before, after, root, child, grandchild);
}

/// The parent that `root` names, if it names one, resolves.
pub open spec fn anchored<T: Copy + Clone>(
    pool: PoolModel<Node<T>>,
    root: ResourceId<Node<T>>,
) -> bool {
    node_at(pool, root).parent.is_some() ==> pool.contains(node_at(pool, root).parent.unwrap())
}

/// The topmost ancestor of `id`, found by following parent handles for at
/// most `fuel` steps; `None` where a handle on the way does not resolve or
/// the chain is longer than that.
pub open spec fn chain_root<T: Copy + Clone>(
    pool: PoolModel<Node<T>>,
    id: ResourceId<Node<T>>,
    fuel: nat,
) -> Option<ResourceId<Node<T>>>
    decreases fuel,
{
    if !pool.contains(id) {
        None
    } else if node_at(pool, id).parent.is_none() {
        Some(id)
    } else if fuel == 0 {
        None
    } else {
        chain_root(pool, node_at(pool, id).parent.unwrap(), (fuel - 1) as nat)
    }
}

/// What attaching `child` below `parent` answers: both handles must resolve,
/// `child` must be detached, and the chain of parents above `parent` must end,
/// within as many steps as the pool has slots, at a node other than `child`.
pub open spec fn attach_outcome<T: Copy + Clone>(
    pool: PoolModel<Node<T>>,
    parent: ResourceId<Node<T>>,
    child: ResourceId<Node<T>>,
) -> Result<(), AttachError> {
    if !pool.contains(parent) || !pool.contains(child) {
        Err(AttachError::NotFound)
    } else if node_at(pool, child).parent.is_some() {
        Err(AttachError::Attached)
    } else {
        match chain_root(pool, parent, pool.slots.len()) {
            None => Err(AttachError::Corrupted),
            Some(top) => if top == child {
                Err(AttachError::Cycle)
            } else {
                Ok(())
            },
        }
    }
}

/// `after` is `before` with `child` hung below `parent`: the child names the
/// parent, the parent lists the child last, and nothing else has changed.
pub open spec fn attached<T: Copy + Clone>(
    before: PoolModel<Node<T>>,
    after: PoolModel<Node<T>>,
    parent: ResourceId<Node<T>>,
    child: ResourceId<Node<T>>,
) -> bool {
    &&& after.vacant == before.vacant
    &&& after.slots.len() == before.slots.len()
    &&& forall|id: ResourceId<Node<T>>| #[trigger] after.contains(id) == before.contains(id)
    &&& forall|id: ResourceId<Node<T>>| #[trigger]
        before.contains(id) && id != parent && id != child ==> after.value(id) == before.value(id)
    &&& node_at(after, child) == (NodeModel { parent: Some(parent), ..node_at(before, child) })
    &&& node_at(after, parent) == (NodeModel {
        children: node_at(before, parent).children.push(child),
        ..node_at(before, parent)
    })
}

/// What refreshing the subtree below `root` answers.
pub open spec fn refresh_outcome<T: Copy + Clone>(
    pool: PoolModel<Node<T>>,
    root: ResourceId<Node<T>>,
) -> Result<(), HierarchyError> {
    if !pool.contains(root) {
        Err(HierarchyError::NotFound)
    } else if hierarchy_ok(pool, root) && anchored(pool, root) {
        Ok(())
    } else {
        Err(HierarchyError::Corrupted)
    }
}

/// `stages` are the pools that a run of `n` refreshes goes through: each
/// stage accepts the refresh of the next of `roots` and the stage after it is
/// the result.
pub open spec fn is_refresh_run<T: Copy + Clone, K: TransformMath<T>>(
    stages: Seq<PoolModel<Node<T>>>,
    roots: Seq<ResourceId<Node<T>>>,
    n: nat,
) -> bool {
    &&& stages.len() == n + 1
    &&& n <= roots.len()
    &&& forall|i: int|
        0 <= i < n ==> refresh_outcome(#[trigger] stages[i], roots[i]).is_ok()
            && hierarchy_refreshed::<T, K>(stages[i], stages[i + 1], roots[i])
}

/// `after` is `before` with the subtrees below the first `n` of `roots`
/// refreshed one after the other, in that order.
pub open spec fn refreshed_each<T: Copy + Clone, K: TransformMath<T>>(
    before: PoolModel<Node<T>>,
    after: PoolModel<Node<T>>,
    roots: Seq<ResourceId<Node<T>>>,
    n: nat,
) -> bool {
    exists|stages: Seq<PoolModel<Node<T>>>| #[trigger]
        is_refresh_run::<T, K>(stages, roots, n) && stages[0] == before && stages[n as int]
            == after
}

/// The first `n` of `roots` were refreshed and the next one was refused
/// with `error`, which left the pool as it was then.
pub open spec fn refresh_stopped<T: Copy + Clone, K: TransformMath<T>>(
    before: PoolModel<Node<T>>,
    after: PoolModel<Node<T>>,
    roots: Seq<ResourceId<Node<T>>>,
    n: nat,
    error: HierarchyError,
) -> bool {
    &&& n < roots.len()
    &&& refreshed_each::<T, K>(before, after, roots, n)
    &&& refresh_outcome(after, roots[n as int]) == Err::<(), HierarchyError>(error)
}

/// A node without children is a tree of its own.
pub proof fn lemma_leaf_is_tree<T: Copy + Clone>(
    pool: PoolModel<Node<T>>,
    root: ResourceId<Node<T>>,
)
    requires
        pool.contains(root),
        node_at(pool, root).children.len() == 0,
    ensures
        is_tree_listing(pool, root, seq![root]),
        hierarchy_ok(pool, root),
        refresh_outcome(pool, root).is_ok() <==> anchored(pool, root),
{
    let order = seq![root];
    assert(order[0] == root);
    assert(is_tree_listing(pool, root, order));
}

/// Hanging a detached tree below a node of another tree gives a tree
/// again: the listing of the tree above, followed by the listing of the tree
/// that was hung below, lists the new one.
pub proof fn lemma_attach_keeps_tree<T: Copy + Clone>(
    before: PoolModel<Node<T>>,
    after: PoolModel<Node<T>>,
    root: ResourceId<Node<T>>,
    order: Seq<ResourceId<Node<T>>>,
    parent: ResourceId<Node<T>>,
    child: ResourceId<Node<T>>,
    below: Seq<ResourceId<Node<T>>>,
)
    requires
        is_tree_listing(before, root, order),
        is_tree_listing(before, child, below),
        forall|i: int, j: int|
            0 <= i < order.len() && 0 <= j < below.len() ==> order[i] != below[j],
        order.contains(parent),
        node_at(before, child).parent.is_none(),
        attached(before, after, parent, child),
    ensures
        is_tree_listing(after, root, order + below),
        hierarchy_ok(after, root),
        anchored(before, root) ==> anchored(after, root),
{
    let joined = order + below;
    let last = order.len() as int;
    let kp = choose|k: int| 0 <= k < order.len() && order[k] == parent;
    assert(below[0] == child);
    assert(order[kp] != below[0]);
    assert forall|k: int| 0 <= k < order.len() implies before.contains(#[trigger] order[k])
        && order[k] != child && (k != kp ==> node_at(after, order[k]) == node_at(
        before,
        order[k],
    )) by {
        assert(order[k] != below[0]);
        if k != kp {
            assert(order[k] != order[kp]);
        }
    }
    assert forall|k: int| 0 <= k < below.len() implies before.contains(#[trigger] below[k])
        && below[k] != parent && (k != 0 ==> node_at(after, below[k]) == node_at(
        before,
        below[k],
    )) by {
        assert(order[kp] != below[k]);
        if k != 0 {
            assert(below[k] != below[0]);
        }
    }
    assert(joined[0] == root);
    assert forall|i: int, j: int|
        0 <= i < joined.len() && 0 <= j < joined.len() && i != j implies joined[i] != joined[j] by {
        if i < last && j < last {
            assert(order[i] != order[j]);
        } else if i >= last && j >= last {
            assert(below[i - last] != below[j - last]);
        } else if i < last {
            assert(order[i] != below[j - last]);
        } else {
            assert(order[j] != below[i - last]);
        }
    }
    assert forall|k: int| 0 <= k < joined.len() implies after.contains(#[trigger] joined[k]) by {
        if k < last {
            assert(before.contains(order[k]));
        } else {
            assert(before.contains(below[k - last]));
        }
    }
    assert forall|k: int| 1 <= k < joined.len() implies exists|j: int|
        0 <= j < k && hangs_below(after, #[trigger] joined[k], #[trigger] joined[j]) by {
        if k < last {
            let j = choose|j: int|
                0 <= j < k && hangs_below(before, #[trigger] order[k], #[trigger] order[j]);
            assert(before.contains(order[k]));
            assert(node_at(after, order[k]).parent == node_at(before, order[k]).parent);
            assert(joined[j] == order[j]);
            let kids = node_at(before, order[j]).children;
            let i = choose|i: int| 0 <= i < kids.len() && kids[i] == order[k];
            if j == kp {
                assert(kids.push(child)[i] == order[k]);
            }
            assert(node_at(after, order[j]).children[i] == order[k]);
            assert(hangs_below(after, joined[k], joined[j]));
        } else if k == last {
            assert(joined[kp] == parent);
            let kids = node_at(before, parent).children;
            assert(kids.push(child)[kids.len() as int] == child);
            assert(hangs_below(after, joined[k], joined[kp]));
        } else {
            let m = k - last;
            let j = choose|j: int|
                0 <= j < m && hangs_below(before, #[trigger] below[m], #[trigger] below[j]);
            assert(before.contains(below[m]));
            assert(before.contains(below[j]));
            assert(joined[last + j] == below[j]);
            assert(node_at(after, below[j]).children == node_at(before, below[j]).children);
            assert(hangs_below(after, joined[k], joined[last + j]));
        }
    }
    assert forall|k: int| 0 <= k < joined.len() implies (#[trigger] node_at(
        after,
        joined[k],
    )).children.no_duplicates() by {
        if k < last {
            assert(node_at(before, order[k]).children.no_duplicates());
            if k == kp {
                let kids = node_at(before, parent).children;
                let grown = kids.push(child);
                assert forall|i: int, j: int|
                    0 <= i < grown.len() && 0 <= j < grown.len() && i != j implies grown[i]
                    != grown[j] by {
                    if i < kids.len() {
                        assert(order.contains(node_at(before, order[kp]).children[i]));
                        let m = choose|m: int| 0 <= m < order.len() && order[m] == kids[i];
                        assert(order[m] != below[0]);
                    }
                    if j < kids.len() {
                        assert(order.contains(node_at(before, order[kp]).children[j]));
                        let m = choose|m: int| 0 <= m < order.len() && order[m] == kids[j];
                        assert(order[m] != below[0]);
                    }
                }
            }
        } else {
            let m = k - last;
            assert(before.contains(below[m]));
            assert(node_at(before, below[m]).children.no_duplicates());
            assert(node_at(after, below[m]).children == node_at(before, below[m]).children);
        }
    }
    assert forall|k: int, i: int|
        0 <= k < joined.len() && 0 <= i < node_at(after, joined[k]).children.len() implies {
        let kid = #[trigger] node_at(after, joined[k]).children[i];
        &&& joined.contains(kid)
        &&& kid != root
        &&& node_at(after, kid).parent == Some(joined[k])
    } by {
        let kid = node_at(after, joined[k]).children[i];
        if k < last {
            if k == kp && i == node_at(before, parent).children.len() {
                assert(joined[last] == child);
                assert(order[0] != below[0]);
            } else {
                let old_kid = node_at(before, order[k]).children[i];
                assert(kid == old_kid);
                assert(order.contains(old_kid));
                let m = choose|m: int| 0 <= m < order.len() && order[m] == old_kid;
                assert(joined[m] == old_kid);
                assert(before.contains(order[m]));
                assert(order[m] != below[0]);
                assert(node_at(after, old_kid).parent == node_at(before, old_kid).parent);
            }
        } else {
            let n = k - last;
            assert(before.contains(below[n]));
            assert(node_at(after, below[n]).children == node_at(before, below[n]).children);
            let old_kid = node_at(before, below[n]).children[i];
            assert(kid == old_kid);
            assert(below.contains(old_kid));
            let m = choose|m: int| 0 <= m < below.len() && below[m] == old_kid;
            assert(joined[last + m] == old_kid);
            assert(old_kid != child);
            assert(m != 0);
            assert(order[0] != below[m]);
        }
    }
    assert(is_tree_listing(after, root, joined));
    if anchored(before, root) {
        assert(before.contains(order[0]));
        assert(node_at(after, root).parent == node_at(before, root).parent);
    }
}

/// The first position at which `child` stands among `children`, or their
/// number where it stands nowhere.
pub open spec fn position_of<T: Copy + Clone>(
    children: Seq<ResourceId<Node<T>>>,
    child: ResourceId<Node<T>>,
) -> int
    decreases children.len(),
{
    if children.len() == 0 {
        0
    } else if children[0] == child {
        0
    } else {
        1 + position_of(children.subrange(1, children.len() as int), child)
    }
}

/// What detaching `child` answers: the handle must resolve, the node must
/// name a parent, and that parent must resolve and list the node.
pub open spec fn detach_outcome<T: Copy + Clone>(
    pool: PoolModel<Node<T>>,
    child: ResourceId<Node<T>>,
) -> Result<(), DetachError> {
    if !pool.contains(child) {
        Err(DetachError::NotFound)
    } else if node_at(pool, child).parent.is_none() {
        Err(DetachError::Detached)
    } else {
        let parent = node_at(pool, child).parent.unwrap();
        if pool.contains(parent) && node_at(pool, parent).children.contains(child) {
            Ok(())
        } else {
            Err(DetachError::Corrupted)
        }
    }
}

/// `after` is `before` with `child` taken from below its parent: the child
/// names no parent, the parent's list lacks the first mention of the child,
/// and nothing else has changed.
pub open spec fn detached<T: Copy + Clone>(
    before: PoolModel<Node<T>>,
    after: PoolModel<Node<T>>,
    child: ResourceId<Node<T>>,
) -> bool {
    let parent = node_at(before, child).parent.unwrap();
    let children = node_at(before, parent).children;
    &&& after.vacant == before.vacant
    &&& after.slots.len() == before.slots.len()
    &&& forall|id: ResourceId<Node<T>>| #[trigger] after.contains(id) == before.contains(id)
    &&& forall|id: ResourceId<Node<T>>| #[trigger]
        before.contains(id) && id != parent && id != child ==> after.value(id) == before.value(id)
    &&& node_at(after, child).parent.is_none()
    &&& parent != child ==> node_at(after, child) == (NodeModel {
        parent: None,
        ..node_at(before, child)
    }) && node_at(after, parent) == (NodeModel {
        children: children.remove(position_of(children, child)),
        ..node_at(before, parent)
    })
    &&& parent == child ==> node_at(after, child) == (NodeModel {
        parent: None,
        children: children.remove(position_of(children, child)),
        ..node_at(before, child)
    })
}

/// What removing the node behind `id` answers: the handle must resolve and
/// the node must be free of links in both directions.
pub open spec fn remove_outcome<T: Copy + Clone>(
    pool: PoolModel<Node<T>>,
    id: ResourceId<Node<T>>,
) -> Option<RemoveError> {
    if !pool.contains(id) {
        Some(RemoveError::NotFound)
    } else if node_at(pool, id).parent.is_some() || node_at(pool, id).children.len() > 0 {
        Some(RemoveError::Linked)
    } else {
        None
    }
}

/// Where a child stands among the children, it stands at its first
/// position, and nowhere before.
pub proof fn lemma_position_of<T: Copy + Clone>(
    children: Seq<ResourceId<Node<T>>>,
    child: ResourceId<Node<T>>,
)
    ensures
        0 <= position_of(children, child) <= children.len(),
        position_of(children, child) < children.len() <==> children.contains(child),
        position_of(children, child) < children.len() ==> children[position_of(children, child)]
            == child,
        forall|i: int| 0 <= i < position_of(children, child) ==> children[i] != child,
    decreases children.len(),
{
    if children.len() > 0 && children[0] != child {
        let rest = children.subrange(1, children.len() as int);
        lemma_position_of(rest, child);
        let at = position_of(rest, child);
        assert forall|i: int| 0 <= i < 1 + at implies children[i] != child by {
            if i > 0 {
                assert(rest[i - 1] == children[i]);
            }
        }
        if at < rest.len() {
            assert(rest[at] == children[at + 1]);
        }
        if children.contains(child) {
            let i = choose|i: int| 0 <= i < children.len() && children[i] == child;
            assert(rest[i - 1] == child);
        }
    } else if children.len() > 0 {
        assert(children[0] == child);
    }
}

/// Taking a node without children from below its parent leaves a tree: the
/// listing of the old tree without that node lists the new one, and the node
/// is a tree of its own.
pub proof fn lemma_detach_keeps_tree<T: Copy + Clone>(
    before: PoolModel<Node<T>>,
    after: PoolModel<Node<T>>,
    root: ResourceId<Node<T>>,
    order: Seq<ResourceId<Node<T>>>,
    k: int,
)
    requires
        is_tree_listing(before, root, order),
        1 <= k < order.len(),
        node_at(before, order[k]).children.len() == 0,
        detached(before, after, order[k]),
    ensures
        is_tree_listing(after, root, order.remove(k)),
        is_tree_listing(after, order[k], seq![order[k]]),
{
    let child = order[k];
    let rest = order.remove(k);
    let up = choose|j: int| 0 <= j < k && hangs_below(before, #[trigger] order[k], #[trigger] order[j]);
    let parent = order[up];
    let kids = node_at(before, parent).children;
    lemma_position_of(kids, child);
    let at = position_of(kids, child);
    let kept = kids.remove(at);
    assert(before.contains(order[up]));
    assert(before.contains(order[k]));
    assert(order[up] != order[k]);
    assert(node_at(before, order[up]).children.no_duplicates());
    assert(node_at(after, parent).children == kept);
    assert forall|i: int| 0 <= i < kept.len() implies kept[i] != child && kids.contains(kept[i]) by {
        if i < at {
            assert(kept[i] == kids[i]);
            assert(kids[i] != kids[at]);
        } else {
            assert(kept[i] == kids[i + 1]);
            assert(kids[i + 1] != kids[at]);
        }
    }
    assert forall|x: ResourceId<Node<T>>| kids.contains(x) && x != child implies kept.contains(x) by {
        let i = choose|i: int| 0 <= i < kids.len() && kids[i] == x;
        if i < at {
            assert(kept[i] == x);
        } else {
            assert(kept[i - 1] == x);
        }
    }
    assert forall|i: int| 0 <= i < order.len() implies before.contains(#[trigger] order[i]) by {}
    assert forall|i: int| 0 <= i < order.len() && i != k && i != up implies node_at(after, order[i])
        == node_at(before, order[i]) by {
        assert(order[i] != order[k]);
        assert(order[i] != order[up]);
        assert(before.contains(order[i]));
    }
    assert forall|i: int| 0 <= i < rest.len() implies rest[i] == order[if i < k {
        i
    } else {
        i + 1
    }] by {}
    assert(rest[0] == root);
    assert forall|i: int, j: int| 0 <= i < rest.len() && 0 <= j < rest.len() && i != j implies rest[i]
        != rest[j] by {
        let a = if i < k {
            i
        } else {
            i + 1
        };
        let b = if j < k {
            j
        } else {
            j + 1
        };
        assert(order[a] != order[b]);
    }
    assert forall|i: int| 0 <= i < rest.len() implies after.contains(#[trigger] rest[i]) by {
        let a = if i < k {
            i
        } else {
            i + 1
        };
        assert(before.contains(order[a]));
    }
    assert forall|i: int| 1 <= i < rest.len() implies exists|j: int|
        0 <= j < i && hangs_below(after, #[trigger] rest[i], #[trigger] rest[j]) by {
        let a = if i < k {
            i
        } else {
            i + 1
        };
        let b = choose|j: int| 0 <= j < a && hangs_below(before, #[trigger] order[a], #[trigger] order[j]);
        assert(b != k) by {
            if b == k {
                assert(node_at(before, order[k]).children.contains(order[a]));
            }
        }
        let j = if b < k {
            b
        } else {
            b - 1
        };
        assert(rest[j] == order[b]);
        assert(order[a] != order[k]);
        assert(before.contains(order[a]));
        assert(before.contains(order[b]));
        assert(node_at(after, order[a]).parent == node_at(before, order[a]).parent) by {
            if a != up {
                assert(node_at(after, order[a]) == node_at(before, order[a]));
            }
        }
        if b == up {
            assert(kept.contains(order[a]));
        } else {
            assert(node_at(after, order[b]) == node_at(before, order[b]));
        }
        assert(hangs_below(after, rest[i], rest[j]));
    }
    assert forall|i: int| 0 <= i < rest.len() implies (#[trigger] node_at(
        after,
        rest[i],
    )).children.no_duplicates() by {
        let a = if i < k {
            i
        } else {
            i + 1
        };
        assert(node_at(before, order[a]).children.no_duplicates());
        if a == up {
            assert forall|x: int, y: int|
                0 <= x < kept.len() && 0 <= y < kept.len() && x != y implies kept[x] != kept[y] by {
                let x0 = if x < at {
                    x
                } else {
                    x + 1
                };
                let y0 = if y < at {
                    y
                } else {
                    y + 1
                };
                assert(kids[x0] != kids[y0]);
            }
        } else {
            assert(node_at(after, order[a]) == node_at(before, order[a]));
        }
    }
    assert forall|i: int, c: int|
        0 <= i < rest.len() && 0 <= c < node_at(after, rest[i]).children.len() implies {
        let kid = #[trigger] node_at(after, rest[i]).children[c];
        &&& rest.contains(kid)
        &&& kid != root
        &&& node_at(after, kid).parent == Some(rest[i])
    } by {
        let a = if i < k {
            i
        } else {
            i + 1
        };
        let kid = node_at(after, rest[i]).children[c];
        let c0 = if a == up && c >= at {
            c + 1
        } else {
            c
        };
        if a != up {
            assert(node_at(after, order[a]) == node_at(before, order[a]));
        }
        assert(node_at(before, order[a]).children[c0] == kid);
        assert(order.contains(kid));
        let m = choose|m: int| 0 <= m < order.len() && order[m] == kid;
        assert(kid != child) by {
            if kid == child {
                assert(node_at(before, kid).parent == Some(order[a]));
                assert(order[a] == order[up]);
                assert(kept[c] != child);
            }
        }
        assert(m != k);
        let n = if m < k {
            m
        } else {
            m - 1
        };
        assert(rest[n] == kid);
        assert(before.contains(order[m]));
        assert(node_at(after, kid).parent == node_at(before, kid).parent) by {
            if m != up {
                assert(node_at(after, order[m]) == node_at(before, order[m]));
            }
        }
    }
    assert(is_tree_listing(after, root, rest));
    let alone = seq![child];
    assert(alone[0] == child);
    assert(after.contains(child));
    assert(node_at(after, child).children == node_at(before, child).children);
    assert(is_tree_listing(after, child, alone));
}

/// Cached matrices play no part in whether a subtree is sound: between two
/// pools of the same shape, the same listings list the same trees, and the
/// same refreshes are accepted.
pub proof fn lemma_same_shape_keeps_tree<T: Copy + Clone>(
    before: PoolModel<Node<T>>,
    after: PoolModel<Node<T>>,
    root: ResourceId<Node<T>>,
    order: Seq<ResourceId<Node<T>>>,
)
    requires
        same_shape(before, after),
    ensures
        is_tree_listing(before, root, order) ==> is_tree_listing(after, root, order),
        before.contains(root) == after.contains(root),
        before.contains(root) ==> anchored(before, root) == anchored(after, root),
{
    assert forall|id: ResourceId<Node<T>>| before.contains(id) implies after.contains(id)
        && node_at(after, id).same_placement(node_at(before, id)) by {
        assert(after.slots[id.index as int].generation == before.slots[id.index as int].generation);
    }
    assert forall|id: ResourceId<Node<T>>| after.contains(id) implies before.contains(id) by {
        assert(after.slots[id.index as int].generation == before.slots[id.index as int].generation);
    }
    if before.contains(root) && node_at(before, root).parent.is_some() {
        let parent = node_at(before, root).parent.unwrap();
        assert(before.contains(parent) == after.contains(parent)) by {
            if parent.index < before.slots.len() {
                assert(after.slots[parent.index as int].generation
                    == before.slots[parent.index as int].generation);
            }
        }
    }
    if is_tree_listing(before, root, order) {
        assert forall|k: int| 0 <= k < order.len() implies before.contains(#[trigger] order[k])
            && node_at(after, order[k]).same_placement(node_at(before, order[k])) by {}
        assert forall|k: int| 1 <= k < order.len() implies exists|j: int|
            0 <= j < k && hangs_below(after, #[trigger] order[k], #[trigger] order[j]) by {
            let j = choose|j: int|
                0 <= j < k && hangs_below(before, #[trigger] order[k], #[trigger] order[j]);
            assert(before.contains(order[k]));
            assert(before.contains(order[j]));
            assert(hangs_below(after, order[k], order[j]));
        }
        assert forall|k: int| 0 <= k < order.len() implies (#[trigger] node_at(
            after,
            order[k],
        )).children.no_duplicates() by {
            assert(before.contains(order[k]));
            assert(node_at(before, order[k]).children.no_duplicates());
        }
        assert forall|k: int, i: int|
            0 <= k < order.len() && 0 <= i < node_at(after, order[k]).children.len() implies {
            let kid = #[trigger] node_at(after, order[k]).children[i];
            &&& order.contains(kid)
            &&& kid != root
            &&& node_at(after, kid).parent == Some(order[k])
        } by {
            assert(before.contains(order[k]));
            let kid = node_at(before, order[k]).children[i];
            assert(order.contains(kid));
            let m = choose|m: int| 0 <= m < order.len() && order[m] == kid;
            assert(before.contains(order[m]));
        }
    }
}

/// Walks over the node hierarchy.
pub struct NodeExecutor {}

impl NodeExecutor {
    /// Lists the subtree below `root` in discovery order, with an explicit
    /// stack. Succeeds exactly when the nodes below `root` form a tree; the
    /// listing then names every node of the subtree once, each after its
    /// parent.
    pub fn discover<T: Copy + Clone>(pool: &ResourcePool<Node<T>>, root: &ResourceId<Node<T>>) -> (r:
        Result<Vec<ResourceId<Node<T>>>, HierarchyError>)
        ensures
            match r {
                Ok(order) => is_tree_listing(pool@, *root, order@) && is_discovery_order(
                    pool@,
                    *root,
                    order@,
                ),
                Err(HierarchyError::NotFound) => !pool@.contains(*root),
                Err(HierarchyError::Corrupted) => pool@.contains(*root) && !hierarchy_ok(
                    pool@,
                    *root,
                ),
            },
    {
        if !pool.contains(root) {
            return Err(HierarchyError::NotFound);
        }
        let capacity = pool.capacity();
        let mut visited: Vec<bool> = Vec::new();
        let mut n: usize = 0;
        while n < capacity
            invariant
                n <= capacity,
                visited.len() == n,
                forall|i: int| 0 <= i < n ==> !visited[i],
            decreases capacity - n,
        {
            visited.push(false);
            n = n + 1;
        }
        proof {
            lemma_walk_start(pool@, *root, visited@);
        }
        visited[root.index] = true;
        let mut found: Vec<ResourceId<Node<T>>> = Vec::new();
        found.push(*root);
        let mut stack: Vec<usize> = Vec::new();
        stack.push(0);
        let ghost mut src = seq![-1int];
        let ghost mut slot = seq![-1int];
        let ghost mut ids = seq![*root];
        let ghost mut steps = 0nat;
        assert(found@ =~= seq![*root]);
        assert(stack@ =~= seq![0usize]);
        while stack.len() > 0
            invariant
                pool@.contains(*root),
                walk_inv(pool@, *root, found@, stack@, visited@, src, slot, -1, 0),
                ids.len() == stack.len(),
                forall|s: int| 0 <= s < ids.len() ==> #[trigger] ids[s] == found@[stack@[s] as int],
                walk(pool@, *root, steps) == (found@, ids),
            decreases unvisited(visited@), stack.len(),
        {
            let ghost unvisited_before = unvisited(visited@);
            let ghost depth_before = stack.len();
            proof {
                lemma_walk_pop(pool@, *root, found@, stack@, visited@, src, slot);
            }
            let current = stack.pop().unwrap();
            let ghost top = ids.last();
            proof {
                ids = ids.drop_last();
            }
            let ghost found_before = found@;
            let ghost ids_before = ids;
            let parent = found[current];
            assert(parent == top);
            let node = match pool.get(&parent) {
                Some(node) => node,
                None => {
                    assert(false);
                    return Err(HierarchyError::Corrupted);
                },
            };
            let children = node.borrow_children();
            let mut i: usize = 0;
            while i < children.len()
                invariant
                    pool@.contains(*root),
                    i <= children.len(),
                    children@ == node_at(pool@, parent).children,
                    current < found_before.len(),
                    found@.len() > current,
                    found@[current as int] == parent,
                    walk_inv(pool@, *root, found@, stack@, visited@, src, slot, current as int, i as int),
                    found@ == found_before + children@.take(i as int),
                    ids == ids_before + children@.take(i as int),
                    ids.len() == stack.len(),
                    forall|s: int| 0 <= s < ids.len() ==> #[trigger] ids[s] == found@[stack@[s] as int],
                    unvisited(visited@) + i == unvisited_before,
                    stack.len() == depth_before - 1 + i,
                decreases children.len() - i,
            {
                let child = children[i];
                proof {
                    if hierarchy_ok(pool@, *root) {
                        lemma_walk_child_sound(
                            pool@,
                            *root,
                            found@,
                            stack@,
                            visited@,
                            src,
                            slot,
                            current as int,
                            i as int,
                        );
                    }
                }
                match pool.get(&child) {
                    None => {
                        return Err(HierarchyError::Corrupted);
                    },
                    Some(child_node) => {
                        match child_node.borrow_parent() {
                            None => {
                                return Err(HierarchyError::Corrupted);
                            },
                            Some(named) => {
                                if !(*named == parent) {
                                    return Err(HierarchyError::Corrupted);
                                }
                            },
                        }
                    },
                }
                if visited[child.index] {
                    return Err(HierarchyError::Corrupted);
                }
                proof {
                    assert(found@.len() == found.len());
                    lemma_walk_push(
                        pool@,
                        *root,
                        found@,
                        stack@,
                        visited@,
                        src,
                        slot,
                        current as int,
                        i as int,
                    );
                    lemma_mark_visited(visited@, child.index as int);
                }
                visited[child.index] = true;
                stack.push(found.len());
                found.push(child);
                proof {
                    src = src.push(current as int);
                    slot = slot.push(i as int);
                    ids = ids.push(child);
                    assert(children@.take(i as int + 1) =~= children@.take(i as int).push(child));
                    assert(found@ =~= found_before + children@.take(i as int + 1));
                    assert(ids =~= ids_before + children@.take(i as int + 1));
                }
                i = i + 1;
            }
            proof {
                lemma_walk_done(
                    pool@,
                    *root,
                    found@,
                    stack@,
                    visited@,
                    src,
                    slot,
                    current as int,
                    i as int,
                );
                assert(children@.take(i as int) =~= children@);
                steps = steps + 1;
            }
        }
        proof {
            lemma_walk_finish(pool@, *root, found@, stack@, visited@, src, slot);
            assert(ids =~= Seq::<ResourceId<Node<T>>>::empty());
        }
        Ok(found)
    }

    /// Appends the subtree below `root` to `nodes`, in discovery order: `root`
    /// first, then the children of each node as a block, the blocks in the
    /// order in which the stack gives the nodes back. Nothing is appended
    /// when the walk is abandoned.
    pub fn collect_nodes<T: Copy + Clone>(
        pool: &ResourcePool<Node<T>>,
        root: &ResourceId<Node<T>>,
        nodes: &mut Vec<ResourceId<Node<T>>>,
    ) -> (r: Result<(), HierarchyError>)
        ensures
            match r {
                Ok(()) => {
                    &&& hierarchy_ok(pool@, *root)
                    &&& is_tree_listing(pool@, *root, discovery_order(pool@, *root))
                    &&& is_discovery_order(pool@, *root, discovery_order(pool@, *root))
                    &&& final(nodes)@ == old(nodes)@ + discovery_order(pool@, *root)
                },
                Err(HierarchyError::NotFound) => !pool@.contains(*root) && final(nodes)@ == old(
                    nodes,
                )@,
                Err(HierarchyError::Corrupted) => pool@.contains(*root) && !hierarchy_ok(
                    pool@,
                    *root,
                ) && final(nodes)@ == old(nodes)@,
            },
    {
        let order = match Self::discover(pool, root) {
            Ok(order) => order,
            Err(error) => {
                return Err(error);
            },
        };
        proof {
            lemma_discovery_order_unique(pool@, *root, order@, discovery_order(pool@, *root));
        }
        let mut k: usize = 0;
        while k < order.len()
            invariant
                k <= order.len(),
                nodes@ == old(nodes)@ + order@.take(k as int),
            decreases order.len() - k,
        {
            nodes.push(order[k]);
            proof {
                assert(order@.take(k as int + 1) =~= order@.take(k as int).push(order@[k as int]));
            }
            k = k + 1;
        }
        assert(order@.take(k as int) =~= order@);
        Ok(())
    }

    /// Refreshes the matrices of the subtree below `root`, parents before
    /// children: every node gets its local matrix recomposed; `root` gets its
    /// parent's world matrix times its local matrix as its world matrix, or
    /// its local matrix itself where it has no parent; every other node gets
    /// its parent's new world matrix times its local matrix. The walk uses an
    /// explicit stack. Where the nodes below `root` do not form a tree, or
    /// `root` names a parent that does not resolve, nothing is changed.
    pub fn update_matrices<T: Copy + Clone, K: TransformMath<T>>(
        pool: &mut ResourcePool<Node<T>>,
        root: &ResourceId<Node<T>>,
    ) -> (r: Result<(), HierarchyError>)
        requires
            old(pool).wf(),
        ensures
            final(pool).wf(),
            r == refresh_outcome(old(pool)@, *root),
            r.is_ok() ==> hierarchy_refreshed::<T, K>(old(pool)@, final(pool)@, *root),
            r.is_err() ==> final(pool)@ == old(pool)@,
    {
        let ghost before = pool@;
        let order = match Self::discover(pool, root) {
            Ok(order) => order,
            Err(error) => {
                return Err(error);
            },
        };
        proof {
            lemma_discovery_order_unique(before, *root, order@, discovery_order(before, *root));
        }
        let anchor = match pool.get(root) {
            None => {
                assert(false);
                None
            },
            Some(node) => match node.borrow_parent() {
                None => None,
                Some(parent) => match pool.get(parent) {
                    None => {
                        return Err(HierarchyError::Corrupted);
                    },
                    Some(parent_node) => Some(parent_node.get_world_matrix()),
                },
            },
        };
        let mut k: usize = 0;
        while k < order.len()
            invariant
                k <= order.len(),
                before.wf(),
                pool.wf(),
                is_tree_listing(before, *root, order@),
                refreshed_upto::<T, K>(before, pool@, *root, order@, k as int),
                match node_at(before, *root).parent {
                    None => anchor.is_none(),
                    Some(parent) => before.contains(parent) && anchor == Some(
                        node_at(before, parent).world_matrix,
                    ),
                },
            decreases order.len() - k,
        {
            let ghost now = pool@;
            let id = order[k];
            assert(before.contains(order@[k as int]));
            assert(now.contains(id));
            assert(!listed_before(order@, k as int, id)) by {
                if listed_before(order@, k as int, id) {
                    let j = choose|j: int| 0 <= j < k && j < order@.len() && #[trigger] order@[j] == id;
                    assert(order@[j] != order@[k as int]);
                }
            }
            assert(now.value(id) == before.value(id));
            let parent_world = if k == 0 {
                anchor
            } else {
                proof {
                    let m = choose|m: int|
                        0 <= m < k && hangs_below(
                            before,
                            #[trigger] order@[k as int],
                            #[trigger] order@[m],
                        );
                    assert(before.contains(order@[m]));
                }
                match pool.get(&id) {
                    None => {
                        assert(false);
                        None
                    },
                    Some(node) => match node.borrow_parent() {
                        None => {
                            assert(false);
                            None
                        },
                        Some(parent) => match pool.get(parent) {
                            None => {
                                assert(false);
                                None
                            },
                            Some(parent_node) => Some(parent_node.get_world_matrix()),
                        },
                    },
                }
            };
            match pool.get_mut(&id) {
                None => {
                    assert(false);
                },
                Some(node) => {
                    node.update_matrix::<K>();
                    let world = match parent_world {
                        Some(parent_world) => K::multiply(&parent_world, node.get_matrix()),
                        None => node.get_matrix(),
                    };
                    node.set_world_matrix(world);
                },
            }
            proof {
                lemma_refresh_step::<T, K>(before, now, *root, order@, k as int, pool@.value(id));
                assert(pool@ =~= now.replace(id, pool@.value(id)));
            }
            k = k + 1;
        }
        Ok(())
    }

    /// Hangs the detached node `child` below `parent`, as its last child.
    /// Both sides of the link are written or neither is.
    pub fn attach<T: Copy + Clone>(
        pool: &mut ResourcePool<Node<T>>,
        parent: &ResourceId<Node<T>>,
        child: &ResourceId<Node<T>>,
    ) -> (r: Result<(), AttachError>)
        requires
            old(pool).wf(),
        ensures
            final(pool).wf(),
            r == attach_outcome(old(pool)@, *parent, *child),
            r.is_ok() ==> attached(old(pool)@, final(pool)@, *parent, *child),
            r.is_err() ==> final(pool)@ == old(pool)@,
    {
        let ghost before = pool@;
        if !pool.contains(parent) {
            return Err(AttachError::NotFound);
        }
        match pool.get(child) {
            None => {
                return Err(AttachError::NotFound);
            },
            Some(node) => {
                if node.borrow_parent().is_some() {
                    return Err(AttachError::Attached);
                }
            },
        }
        let capacity = pool.capacity();
        let mut top = *parent;
        let mut steps: usize = 0;
        let mut ended = false;
        while !ended
            invariant
                pool@ == before,
                pool.wf(),
                before.contains(*parent),
                before.contains(*child),
                node_at(before, *child).parent.is_none(),
                capacity == before.slots.len(),
                steps <= capacity,
                chain_root(before, *parent, capacity as nat) == chain_root(
                    before,
                    top,
                    (capacity - steps) as nat,
                ),
                ended ==> chain_root(before, *parent, capacity as nat) == Some(top),
            decreases capacity - steps, (if ended { 0int } else { 1int }),
        {
            match pool.get(&top) {
                None => {
                    return Err(AttachError::Corrupted);
                },
                Some(node) => match node.borrow_parent() {
                    None => {
                        ended = true;
                    },
                    Some(above) => {
                        if steps == capacity {
                            return Err(AttachError::Corrupted);
                        }
                        top = *above;
                        steps = steps + 1;
                    },
                },
            }
        }
        if top == *child {
            return Err(AttachError::Cycle);
        }
        assert(*parent != *child) by {
            if *parent == *child {
                assert(chain_root(before, *parent, capacity as nat) == Some(*child));
            }
        }
        match pool.get_mut(child) {
            None => {
                assert(false);
            },
            Some(node) => {
                node.link_parent(*parent);
            },
        }
        let ghost linked = pool@;
        assert(linked.contains(*parent));
        assert(linked.value(*parent) == before.value(*parent)) by {
            assert(parent.index != child.index);
        }
        match pool.get_mut(parent) {
            None => {
                assert(false);
            },
            Some(node) => {
                node.link_child(*child);
            },
        }
        proof {
            let after = pool@;
            assert(child.index != parent.index);
            assert forall|id: ResourceId<Node<T>>| #[trigger]
                after.contains(id) == before.contains(id) by {}
            assert forall|id: ResourceId<Node<T>>| #[trigger]
                before.contains(id) && id != *parent && id != *child implies after.value(id)
                == before.value(id) by {
                assert(id.index != parent.index);
                assert(id.index != child.index);
            }
        }
        Ok(())
    }

    /// Takes `child` from below its parent. Both sides of the link are
    /// cleared or neither is.
    pub fn detach<T: Copy + Clone>(pool: &mut ResourcePool<Node<T>>, child: &ResourceId<Node<T>>) -> (r:
        Result<(), DetachError>)
        requires
            old(pool).wf(),
        ensures
            final(pool).wf(),
            r == detach_outcome(old(pool)@, *child),
            r.is_ok() ==> detached(old(pool)@, final(pool)@, *child),
            r.is_err() ==> final(pool)@ == old(pool)@,
    {
        let ghost before = pool@;
        let parent = match pool.get(child) {
            None => {
                return Err(DetachError::NotFound);
            },
            Some(node) => match node.borrow_parent() {
                None => {
                    return Err(DetachError::Detached);
                },
                Some(parent) => *parent,
            },
        };
        let at = match pool.get(&parent) {
            None => {
                return Err(DetachError::Corrupted);
            },
            Some(node) => {
                let children = node.borrow_children();
                let mut at: usize = 0;
                while at < children.len() && !(children[at] == *child)
                    invariant
                        at <= children.len(),
                        forall|i: int| 0 <= i < at ==> children@[i] != *child,
                    decreases children.len() - at,
                {
                    at = at + 1;
                }
                proof {
                    lemma_position_of(children@, *child);
                    let first = position_of(children@, *child);
                    if at < children.len() {
                        assert(children@[at as int] == *child);
                        assert(children@.contains(*child));
                        assert(first == at) by {
                            if first < at {
                                assert(children@[first] != *child);
                            }
                        }
                    } else {
                        assert(!children@.contains(*child));
                    }
                }
                if at == children.len() {
                    return Err(DetachError::Corrupted);
                }
                at
            },
        };
        match pool.get_mut(child) {
            None => {
                assert(false);
            },
            Some(node) => {
                node.unlink_parent();
            },
        }
        assert(pool@.contains(parent));
        assert(node_at(pool@, parent).children == node_at(before, parent).children);
        match pool.get_mut(&parent) {
            None => {
                assert(false);
            },
            Some(node) => {
                node.unlink_child(at);
            },
        }
        proof {
            let after = pool@;
            assert forall|id: ResourceId<Node<T>>| #[trigger]
                after.contains(id) == before.contains(id) by {}
            assert forall|id: ResourceId<Node<T>>| #[trigger]
                before.contains(id) && id != parent && id != *child implies after.value(id)
                == before.value(id) by {
                assert(id.index != parent.index);
                assert(id.index != child.index);
            }
            if parent != *child {
                assert(parent.index != child.index);
            }
        }
        Ok(())
    }

    /// Takes the node behind `id` out of the pool. A node that still hangs
    /// below a parent, or still has children, is refused: links are cleared
    /// with [`NodeExecutor::detach`] first, so that no node is left naming a
    /// handle that has stopped resolving.
    pub fn remove<T: Copy + Clone>(pool: &mut ResourcePool<Node<T>>, id: &ResourceId<Node<T>>) -> (r:
        Result<Node<T>, RemoveError>)
        requires
            old(pool).wf(),
        ensures
            final(pool).wf(),
            match r {
                Ok(node) => {
                    &&& remove_outcome(old(pool)@, *id).is_none()
                    &&& node == old(pool)@.value(*id)
                    &&& final(pool)@ == old(pool)@.remove(*id)
                },
                Err(error) => {
                    &&& remove_outcome(old(pool)@, *id) == Some(error)
                    &&& final(pool)@ == old(pool)@
                },
            },
    {
        match pool.get(id) {
            None => {
                return Err(RemoveError::NotFound);
            },
            Some(node) => {
                if node.borrow_parent().is_some() || node.borrow_children().len() > 0 {
                    return Err(RemoveError::Linked);
                }
            },
        }
        match pool.remove(id) {
            Some(node) => Ok(node),
            None => {
                assert(false);
                Err(RemoveError::NotFound)
            },
        }
    }

    /// Refreshes the subtrees below `roots`, one after the other. Stops at
    /// the first root that is refused; the subtrees before it stay refreshed.
    pub fn update_all<T: Copy + Clone, K: TransformMath<T>>(
        pool: &mut ResourcePool<Node<T>>,
        roots: &Vec<ResourceId<Node<T>>>,
    ) -> (r: Result<(), HierarchyError>)
        requires
            old(pool).wf(),
        ensures
            final(pool).wf(),
            r.is_ok() ==> refreshed_each::<T, K>(
                old(pool)@,
                final(pool)@,
                roots@,
                roots@.len(),
            ),
            r matches Err(error) ==> exists|n: nat| #[trigger]
                refresh_stopped::<T, K>(old(pool)@, final(pool)@, roots@, n, error),
    {
        let ghost before = pool@;
        let ghost mut stages = seq![before];
        let mut n: usize = 0;
        while n < roots.len()
            invariant
                n <= roots.len(),
                pool.wf(),
                before == old(pool)@,
                is_refresh_run::<T, K>(stages, roots@, n as nat),
                stages[0] == before,
                stages[n as int] == pool@,
            decreases roots.len() - n,
        {
            let ghost mid = pool@;
            match Self::update_matrices::<T, K>(pool, &roots[n]) {
                Ok(()) => {
                    proof {
                        let longer = stages.push(pool@);
                        assert forall|i: int| 0 <= i < n + 1 implies refresh_outcome(
                            #[trigger] longer[i],
                            roots@[i],
                        ).is_ok() && hierarchy_refreshed::<T, K>(longer[i], longer[i + 1], roots@[i]) by {
                            if i < n {
                                assert(longer[i] == stages[i]);
                                assert(longer[i + 1] == stages[i + 1]);
                            }
                        }
                        stages = longer;
                    }
                },
                Err(error) => {
                    proof {
                        let stopped = n as nat;
                        assert(refresh_stopped::<T, K>(before, pool@, roots@, stopped, error));
                    }
                    return Err(error);
                },
            }
            n = n + 1;
        }
        Ok(())
    }
}

impl<T: Copy + Clone> Node<T> {
    /// Refreshes this node, which stands outside the pool, and then the
    /// subtrees of its children, which live in the pool: the node's local
    /// matrix is recomposed, its world matrix is its parent's world matrix
    /// times that, or the local matrix itself where it has no parent, and
    /// each child's subtree is refreshed in turn. A parent that does not
    /// resolve refuses the call with nothing changed; a child that is refused
    /// stops it, with the node and the earlier children refreshed.
    pub fn update_matrices<K: TransformMath<T>>(&mut self, pool: &mut ResourcePool<Node<T>>) -> (r:
        Result<(), HierarchyError>)
        requires
            old(pool).wf(),
        ensures
            final(pool).wf(),
            old(self)@.parent.is_some() && !old(pool)@.contains(old(self)@.parent.unwrap()) ==> {
                &&& r == Err::<(), HierarchyError>(HierarchyError::Corrupted)
                &&& final(self)@ == old(self)@
                &&& final(pool)@ == old(pool)@
            },
            old(self)@.parent.is_none() || old(pool)@.contains(old(self)@.parent.unwrap()) ==> {
                &&& final(self)@.local_refreshed::<K>(old(self)@)
                &&& match old(self)@.parent {
                    None => final(self)@.world_matrix == final(self)@.matrix,
                    Some(parent) => final(self)@.world_follows::<K>(
                        node_at(old(pool)@, parent).world_matrix,
                    ),
                }
                &&& r.is_ok() ==> refreshed_each::<T, K>(
                    old(pool)@,
                    final(pool)@,
                    old(self)@.children,
                    old(self)@.children.len(),
                )
                &&& r matches Err(error) ==> exists|n: nat| #[trigger]
                    refresh_stopped::<T, K>(
                        old(pool)@,
                        final(pool)@,
                        old(self)@.children,
                        n,
                        error,
                    )
            },
    {
        let parent_world = match self.borrow_parent() {
            None => None,
            Some(parent) => match pool.get(parent) {
                None => {
                    return Err(HierarchyError::Corrupted);
                },
                Some(parent_node) => Some(parent_node.get_world_matrix()),
            },
        };
        self.update_matrix::<K>();
        let world = match parent_world {
            Some(parent_world) => K::multiply(&parent_world, self.get_matrix()),
            None => self.get_matrix(),
        };
        self.set_world_matrix(world);
        NodeExecutor::update_all::<T, K>(pool, self.borrow_children())
    }
}

} // verus!
