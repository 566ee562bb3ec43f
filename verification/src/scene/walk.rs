//! The bookkeeping behind the hierarchy walk: what holds between any two of
//! its steps, and why each step keeps it.
use crate::resource::{PoolModel, ResourceId};
use crate::scene::hierarchy::{
    hangs_below, hierarchy_ok, is_tree_listing, listed_before, node_at, refreshed_upto,
    root_settled,
    same_shape,
};
use crate::scene::node::{Node, TransformMath};
use vstd::prelude::*;

verus! {

/// Number of slots that the walk has not marked yet.
pub(crate) open spec fn unvisited(visited: Seq<bool>) -> nat
    decreases visited.len(),
{
    if visited.len() == 0 {
        0
    } else {
        unvisited(visited.drop_last()) + if visited.last() {
            0nat
        } else {
            1nat
        }
    }
}

/// Marking an unmarked slot leaves one slot less to mark.
pub(crate) proof fn lemma_mark_visited(visited: Seq<bool>, i: int)
    requires
        0 <= i < visited.len(),
        !visited[i],
    ensures
        unvisited(visited.update(i, true)) + 1 == unvisited(visited),
    decreases visited.len(),
{
    if i == visited.len() - 1 {
        assert(visited.update(i, true).drop_last() =~= visited.drop_last());
    } else {
        lemma_mark_visited(visited.drop_last(), i);
        assert(visited.update(i, true).drop_last() =~= visited.drop_last().update(i, true));
    }
}

/// Position `k` of the discovered nodes still waits on the stack.
pub(crate) open spec fn on_stack(stack: Seq<usize>, k: int) -> bool {
    exists|s: int| 0 <= s < stack.len() && #[trigger] stack[s] == k
}

/// Child `i` of the node at position `k` has been discovered.
pub(crate) open spec fn discovered(src: Seq<int>, slot: Seq<int>, k: int, i: int) -> bool {
    exists|k2: int| 1 <= k2 < src.len() && #[trigger] src[k2] == k && slot[k2] == i
}

/// What holds of the walk between any two of its steps. `found` are the
/// nodes discovered so far, `stack` the positions in `found` that still wait,
/// `src` and `slot` tell from which position and as which child each node was
/// discovered, `current` is the position whose children are being
/// discovered (or -1) and `upto` how many of them have been.
pub(crate) open spec fn walk_inv<T: Copy + Clone>(
    pool: PoolModel<Node<T>>,
    root: ResourceId<Node<T>>,
    found: Seq<ResourceId<Node<T>>>,
    stack: Seq<usize>,
    visited: Seq<bool>,
    src: Seq<int>,
    slot: Seq<int>,
    current: int,
    upto: int,
) -> bool {
    &&& found.len() >= 1
    &&& found[0] == root
    &&& src.len() == found.len()
    &&& slot.len() == found.len()
    &&& visited.len() == pool.slots.len()
    &&& forall|k: int|
        0 <= k < found.len() ==> pool.contains(#[trigger] found[k]) && visited[found[k].index as int]
    &&& forall|idx: int|
        0 <= idx < visited.len() && #[trigger] visited[idx] ==> exists|k: int|
            0 <= k < found.len() && (#[trigger] found[k]).index == idx
    &&& forall|j: int, k: int|
        0 <= j < k < found.len() ==> (#[trigger] found[j]).index != (#[trigger] found[k]).index
    &&& forall|k: int|
        1 <= k < found.len() ==> {
            &&& 0 <= #[trigger] src[k] < k
            &&& 0 <= slot[k] < node_at(pool, found[src[k]]).children.len()
            &&& node_at(pool, found[src[k]]).children[slot[k]] == found[k]
            &&& node_at(pool, found[k]).parent == Some(found[src[k]])
        }
    &&& forall|s: int|
        0 <= s < stack.len() ==> 0 <= #[trigger] stack[s] < found.len() && stack[s] != current
    &&& forall|s: int, t: int| 0 <= s < t < stack.len() ==> #[trigger] stack[s] != #[trigger] stack[t]
    &&& forall|k: int, i: int|
        0 <= k < found.len() && 0 <= i < node_at(pool, found[k]).children.len() && !on_stack(
            stack,
            k,
        ) && (k != current || i < upto) ==> #[trigger] discovered(src, slot, k, i)
    &&& forall|k2: int|
        1 <= k2 < found.len() ==> !on_stack(stack, #[trigger] src[k2]) && (src[k2] == current
            ==> slot[k2] < upto)
    &&& forall|w: Seq<ResourceId<Node<T>>>| #[trigger]
        is_tree_listing(pool, root, w) ==> forall|k: int|
            0 <= k < found.len() ==> w.contains(#[trigger] found[k])
}

/// The walk starts with the root discovered, marked and waiting.
pub(crate) proof fn lemma_walk_start<T: Copy + Clone>(
    pool: PoolModel<Node<T>>,
    root: ResourceId<Node<T>>,
    visited: Seq<bool>,
)
    requires
        pool.contains(root),
        visited.len() == pool.slots.len(),
        forall|i: int| 0 <= i < visited.len() ==> !visited[i],
    ensures
        walk_inv(
            pool,
            root,
            seq![root],
            seq![0usize],
            visited.update(root.index as int, true),
            seq![-1int],
            seq![-1int],
            -1,
            0,
        ),
{
    let found = seq![root];
    let stack = seq![0usize];
    assert(on_stack(stack, 0)) by {
        assert(stack[0] == 0);
    }
    assert forall|w: Seq<ResourceId<Node<T>>>| #[trigger]
        is_tree_listing(pool, root, w) implies forall|k: int|
        0 <= k < found.len() ==> w.contains(#[trigger] found[k]) by {
        assert(w[0] == root);
    }
    let marked = visited.update(root.index as int, true);
    assert forall|idx: int| 0 <= idx < marked.len() && #[trigger] marked[idx] implies exists|k: int|
        0 <= k < found.len() && (#[trigger] found[k]).index == idx by {
        assert(found[0].index == idx);
    }
}

/// Taking the newest position off the stack makes it the current one.
pub(crate) proof fn lemma_walk_pop<T: Copy + Clone>(
    pool: PoolModel<Node<T>>,
    root: ResourceId<Node<T>>,
    found: Seq<ResourceId<Node<T>>>,
    stack: Seq<usize>,
    visited: Seq<bool>,
    src: Seq<int>,
    slot: Seq<int>,
)
    requires
        walk_inv(pool, root, found, stack, visited, src, slot, -1, 0),
        stack.len() > 0,
    ensures
        walk_inv(pool, root, found, stack.drop_last(), visited, src, slot, stack.last() as int, 0),
{
    let rest = stack.drop_last();
    let current = stack.last() as int;
    assert forall|k: int| on_stack(rest, k) implies on_stack(stack, k) by {
        let s = choose|s: int| 0 <= s < rest.len() && #[trigger] rest[s] == k;
        assert(stack[s] == k);
    }
    assert forall|k: int| on_stack(stack, k) && k != current implies on_stack(rest, k) by {
        let s = choose|s: int| 0 <= s < stack.len() && #[trigger] stack[s] == k;
        assert(rest[s] == k);
    }
    assert(on_stack(stack, current)) by {
        assert(stack[stack.len() - 1] == current);
    }
    assert forall|s: int| 0 <= s < rest.len() implies 0 <= #[trigger] rest[s] < found.len()
        && rest[s] != current by {
        assert(rest[s] == stack[s]);
    }
    assert forall|s: int, t: int| 0 <= s < t < rest.len() implies #[trigger] rest[s]
        != #[trigger] rest[t] by {
        assert(rest[s] == stack[s]);
        assert(rest[t] == stack[t]);
    }
    assert forall|k2: int| 1 <= k2 < found.len() implies !on_stack(rest, #[trigger] src[k2]) && (
    src[k2] == current ==> slot[k2] < 0) by {
        assert(!on_stack(stack, src[k2]));
    }
}

/// When every child of the current position has been discovered, the
/// position is done.
pub(crate) proof fn lemma_walk_done<T: Copy + Clone>(
    pool: PoolModel<Node<T>>,
    root: ResourceId<Node<T>>,
    found: Seq<ResourceId<Node<T>>>,
    stack: Seq<usize>,
    visited: Seq<bool>,
    src: Seq<int>,
    slot: Seq<int>,
    current: int,
    upto: int,
)
    requires
        walk_inv(pool, root, found, stack, visited, src, slot, current, upto),
        0 <= current < found.len(),
        upto == node_at(pool, found[current]).children.len(),
    ensures
        walk_inv(pool, root, found, stack, visited, src, slot, -1, 0),
{
}

/// In a sound hierarchy the next child of the current position resolves,
/// names the current node as its parent, and has not been discovered.
pub(crate) proof fn lemma_walk_child_sound<T: Copy + Clone>(
    pool: PoolModel<Node<T>>,
    root: ResourceId<Node<T>>,
    found: Seq<ResourceId<Node<T>>>,
    stack: Seq<usize>,
    visited: Seq<bool>,
    src: Seq<int>,
    slot: Seq<int>,
    current: int,
    upto: int,
)
    requires
        walk_inv(pool, root, found, stack, visited, src, slot, current, upto),
        0 <= current < found.len(),
        0 <= upto < node_at(pool, found[current]).children.len(),
        hierarchy_ok(pool, root),
    ensures
        ({
            let child = node_at(pool, found[current]).children[upto];
            &&& pool.contains(child)
            &&& node_at(pool, child).parent == Some(found[current])
            &&& !visited[child.index as int]
        }),
{
    let w = choose|w: Seq<ResourceId<Node<T>>>| #[trigger] is_tree_listing(pool, root, w);
    let p = found[current];
    let kids = node_at(pool, p).children;
    let child = kids[upto];
    assert(w.contains(p));
    let m = choose|m: int| 0 <= m < w.len() && w[m] == p;
    assert(node_at(pool, w[m]).children[upto] == child);
    assert(w.contains(child));
    let n = choose|n: int| 0 <= n < w.len() && w[n] == child;
    assert(pool.contains(w[n]));
    assert(node_at(pool, w[m]).children.no_duplicates());
    if visited[child.index as int] {
        let k = choose|k: int| 0 <= k < found.len() && (#[trigger] found[k]).index == child.index;
        assert(pool.contains(found[k]));
        assert(found[k] == child);
        if k == 0 {
            assert(false);
        } else {
            let j = src[k];
            assert(node_at(pool, found[k]).parent == Some(found[j]));
            assert(found[j] == p);
            if j < current {
                assert(found[j].index != found[current].index);
            } else if current < j {
                assert(found[current].index != found[j].index);
            }
            assert(j == current);
            assert(slot[k] < upto);
            assert(kids[slot[k]] == kids[upto]);
            assert(false);
        }
    }
}

/// Discovering the next child of the current position.
pub(crate) proof fn lemma_walk_push<T: Copy + Clone>(
    pool: PoolModel<Node<T>>,
    root: ResourceId<Node<T>>,
    found: Seq<ResourceId<Node<T>>>,
    stack: Seq<usize>,
    visited: Seq<bool>,
    src: Seq<int>,
    slot: Seq<int>,
    current: int,
    upto: int,
)
    requires
        walk_inv(pool, root, found, stack, visited, src, slot, current, upto),
        0 <= current < found.len(),
        0 <= upto < node_at(pool, found[current]).children.len(),
        found.len() <= usize::MAX,
        ({
            let child = node_at(pool, found[current]).children[upto];
            &&& pool.contains(child)
            &&& node_at(pool, child).parent == Some(found[current])
            &&& !visited[child.index as int]
        }),
    ensures
        walk_inv(
            pool,
            root,
            found.push(node_at(pool, found[current]).children[upto]),
            stack.push(found.len() as usize),
            visited.update(node_at(pool, found[current]).children[upto].index as int, true),
            src.push(current),
            slot.push(upto),
            current,
            upto + 1,
        ),
{
    let child = node_at(pool, found[current]).children[upto];
    let found2 = found.push(child);
    let stack2 = stack.push(found.len() as usize);
    let visited2 = visited.update(child.index as int, true);
    let src2 = src.push(current);
    let slot2 = slot.push(upto);
    let fresh = found.len() as int;
    assert forall|k: int| 0 <= k < found2.len() implies pool.contains(#[trigger] found2[k])
        && visited2[found2[k].index as int] by {
        if k < fresh {
            assert(found2[k] == found[k]);
        }
    }
    assert forall|idx: int| 0 <= idx < visited2.len() && #[trigger] visited2[idx] implies exists|
        k: int,
    | 0 <= k < found2.len() && (#[trigger] found2[k]).index == idx by {
        if idx == child.index {
            assert(found2[fresh].index == idx);
        } else {
            assert(visited[idx]);
            let k = choose|k: int| 0 <= k < found.len() && (#[trigger] found[k]).index == idx;
            assert(found2[k].index == idx);
        }
    }
    assert forall|j: int, k: int| 0 <= j < k < found2.len() implies (#[trigger] found2[j]).index != (
    #[trigger] found2[k]).index by {
        assert(found2[j] == found[j]);
        if k < fresh {
            assert(found2[k] == found[k]);
        } else {
            assert(visited[found[j].index as int]);
        }
    }
    assert forall|k: int| 1 <= k < found2.len() implies {
        &&& 0 <= #[trigger] src2[k] < k
        &&& 0 <= slot2[k] < node_at(pool, found2[src2[k]]).children.len()
        &&& node_at(pool, found2[src2[k]]).children[slot2[k]] == found2[k]
        &&& node_at(pool, found2[k]).parent == Some(found2[src2[k]])
    } by {
        if k < fresh {
            assert(src2[k] == src[k]);
            assert(found2[k] == found[k]);
            assert(found2[src[k]] == found[src[k]]);
        } else {
            assert(found2[current] == found[current]);
        }
    }
    assert forall|s: int| 0 <= s < stack2.len() implies 0 <= #[trigger] stack2[s] < found2.len()
        && stack2[s] != current by {
        if s < stack.len() {
            assert(stack2[s] == stack[s]);
        }
    }
    assert forall|s: int, t: int| 0 <= s < t < stack2.len() implies #[trigger] stack2[s]
        != #[trigger] stack2[t] by {
        assert(stack2[s] == stack[s]);
        if t < stack.len() {
            assert(stack2[t] == stack[t]);
        }
    }
    assert forall|k: int| on_stack(stack, k) implies on_stack(stack2, k) by {
        let s = choose|s: int| 0 <= s < stack.len() && #[trigger] stack[s] == k;
        assert(stack2[s] == k);
    }
    assert forall|k: int| on_stack(stack2, k) && k != fresh implies on_stack(stack, k) by {
        let s = choose|s: int| 0 <= s < stack2.len() && #[trigger] stack2[s] == k;
        assert(stack[s] == k);
    }
    assert(on_stack(stack2, fresh)) by {
        assert(stack2[stack.len() as int] == fresh);
    }
    assert forall|k: int, i: int|
        0 <= k < found2.len() && 0 <= i < node_at(pool, found2[k]).children.len() && !on_stack(
            stack2,
            k,
        ) && (k != current || i < upto + 1) implies #[trigger] discovered(src2, slot2, k, i) by {
        assert(k < fresh);
        assert(found2[k] == found[k]);
        if k == current && i == upto {
            assert(src2[fresh] == k && slot2[fresh] == i);
        } else {
            assert(discovered(src, slot, k, i));
            let k2 = choose|k2: int| 1 <= k2 < src.len() && #[trigger] src[k2] == k && slot[k2] == i;
            assert(src2[k2] == k && slot2[k2] == i);
        }
    }
    assert forall|k2: int| 1 <= k2 < found2.len() implies !on_stack(stack2, #[trigger] src2[k2])
        && (src2[k2] == current ==> slot2[k2] < upto + 1) by {
        if k2 < fresh {
            assert(src2[k2] == src[k2]);
            assert(!on_stack(stack, src[k2]));
        } else {
            assert(!on_stack(stack, current)) by {
                if on_stack(stack, current) {
                    let s = choose|s: int| 0 <= s < stack.len() && #[trigger] stack[s] == current;
                    assert(false);
                }
            }
        }
    }
    assert forall|w: Seq<ResourceId<Node<T>>>| #[trigger]
        is_tree_listing(pool, root, w) implies forall|k: int|
        0 <= k < found2.len() ==> w.contains(#[trigger] found2[k]) by {
        assert forall|k: int| 0 <= k < found2.len() implies w.contains(#[trigger] found2[k]) by {
            if k < fresh {
                assert(found2[k] == found[k]);
                assert(w.contains(found[k]));
            } else {
                assert(w.contains(found[current]));
                let m = choose|m: int| 0 <= m < w.len() && w[m] == found[current];
                assert(node_at(pool, w[m]).children[upto] == child);
            }
        }
    }
}

/// With nothing left on the stack, the discovered nodes list a sound
/// subtree.
pub(crate) proof fn lemma_walk_finish<T: Copy + Clone>(
    pool: PoolModel<Node<T>>,
    root: ResourceId<Node<T>>,
    found: Seq<ResourceId<Node<T>>>,
    stack: Seq<usize>,
    visited: Seq<bool>,
    src: Seq<int>,
    slot: Seq<int>,
)
    requires
        walk_inv(pool, root, found, stack, visited, src, slot, -1, 0),
        stack.len() == 0,
    ensures
        is_tree_listing(pool, root, found),
{
    assert forall|i: int, j: int| 0 <= i < found.len() && 0 <= j < found.len() && i != j implies found[i]
        != found[j] by {
        if i < j {
            assert(found[i].index != found[j].index);
        } else {
            assert(found[j].index != found[i].index);
        }
    }
    assert forall|k: int| 1 <= k < found.len() implies exists|j: int|
        0 <= j < k && hangs_below(pool, #[trigger] found[k], #[trigger] found[j]) by {
        let j = src[k];
        assert(node_at(pool, found[j]).children[slot[k]] == found[k]);
        assert(hangs_below(pool, found[k], found[j]));
    }
    assert forall|k: int, i: int|
        0 <= k < found.len() && 0 <= i < node_at(pool, found[k]).children.len() implies {
        let child = #[trigger] node_at(pool, found[k]).children[i];
        &&& found.contains(child)
        &&& child != root
        &&& node_at(pool, child).parent == Some(found[k])
    } by {
        assert(!on_stack(stack, k));
        assert(discovered(src, slot, k, i));
        let k2 = choose|k2: int| 1 <= k2 < src.len() && #[trigger] src[k2] == k && slot[k2] == i;
        assert(found[k2] == node_at(pool, found[k]).children[i]);
        assert(found[0].index != found[k2].index);
    }
    assert forall|k: int| 0 <= k < found.len() implies (#[trigger] node_at(
        pool,
        found[k],
    )).children.no_duplicates() by {
        let kids = node_at(pool, found[k]).children;
        assert forall|i: int, j: int| 0 <= i < kids.len() && 0 <= j < kids.len() && i != j implies kids[i]
            != kids[j] by {
            assert(!on_stack(stack, k));
            assert(discovered(src, slot, k, i));
            assert(discovered(src, slot, k, j));
            let a = choose|k2: int| 1 <= k2 < src.len() && #[trigger] src[k2] == k && slot[k2] == i;
            let b = choose|k2: int| 1 <= k2 < src.len() && #[trigger] src[k2] == k && slot[k2] == j;
            assert(found[a] == kids[i]);
            assert(found[b] == kids[j]);
            if a < b {
                assert(found[a].index != found[b].index);
            } else {
                assert(found[b].index != found[a].index);
            }
        }
    }
}

/// Refreshing the next node of the listing extends the refreshed prefix by
/// one.
pub(crate) proof fn lemma_refresh_step<T: Copy + Clone, K: TransformMath<T>>(
    before: PoolModel<Node<T>>,
    now: PoolModel<Node<T>>,
    root: ResourceId<Node<T>>,
    order: Seq<ResourceId<Node<T>>>,
    k: int,
    node: Node<T>,
)
    requires
        is_tree_listing(before, root, order),
        refreshed_upto::<T, K>(before, now, root, order, k),
        0 <= k < order.len(),
        node@.local_refreshed::<K>(node_at(now, order[k])),
        k == 0 ==> (match node_at(before, root).parent {
            None => node@.world_matrix == node@.matrix,
            Some(parent) => before.contains(parent) && node@.world_follows::<K>(
                node_at(before, parent).world_matrix,
            ),
        }),
        k >= 1 ==> node@.world_follows::<K>(
            node_at(now, node_at(before, order[k]).parent.unwrap()).world_matrix,
        ),
    ensures
        refreshed_upto::<T, K>(before, now.replace(order[k], node), root, order, k + 1),
{
    let id = order[k];
    let next = now.replace(id, node);
    assert(before.contains(id));
    assert(now.contains(id));
    assert(!listed_before(order, k, id)) by {
        if listed_before(order, k, id) {
            let j = choose|j: int| 0 <= j < k && j < order.len() && #[trigger] order[j] == id;
            assert(order[j] != order[k]);
        }
    }
    assert(now.value(id) == before.value(id));
    assert forall|other: ResourceId<Node<T>>| before.contains(other) && other != id implies next.value(
        other,
    ) == now.value(other) && next.contains(other) by {
        assert(now.contains(other));
        assert(other.index != id.index);
    }
    assert forall|other: ResourceId<Node<T>>| #[trigger]
        before.contains(other) && !listed_before(order, k + 1, other) implies next.value(other)
        == before.value(other) by {
        assert(other != id) by {
            if other == id {
                assert(order[k] == other);
                assert(listed_before(order, k + 1, other));
            }
        }
        assert(!listed_before(order, k, other)) by {
            if listed_before(order, k, other) {
                let j = choose|j: int| 0 <= j < k && j < order.len() && #[trigger] order[j] == other;
                assert(listed_before(order, k + 1, other));
            }
        }
    }
    assert forall|j: int| 0 <= j < k + 1 && j < order.len() implies node_at(
        next,
        #[trigger] order[j],
    ).local_refreshed::<K>(node_at(before, order[j])) by {
        if j < k {
            assert(order[j] != order[k]);
            assert(before.contains(order[j]));
        }
    }
    if k >= 1 {
        assert(order[0] != order[k]);
        assert(before.contains(order[0]));
        assert(root_settled::<T, K>(before, next, root));
    } else {
        assert(root_settled::<T, K>(before, next, root));
    }
    assert forall|j: int| 1 <= j < k + 1 && j < order.len() implies node_at(
        next,
        #[trigger] order[j],
    ).world_follows::<K>(
        node_at(next, node_at(before, order[j]).parent.unwrap()).world_matrix,
    ) by {
        let m = choose|m: int|
            0 <= m < j && hangs_below(before, #[trigger] order[j], #[trigger] order[m]);
        assert(order[m] != order[k]);
        assert(before.contains(order[m]));
        if j < k {
            assert(order[j] != order[k]);
            assert(before.contains(order[j]));
        }
    }
    assert(same_shape(before, next));
}

} // verus!
