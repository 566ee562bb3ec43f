//! Scenes: which nodes belong together and what each of them carries.
use crate::resource::{ResourceId, ResourcePool};
use crate::scene::camera::PerspectiveCamera;
use crate::scene::hierarchy::{refresh_stopped, refreshed_each, HierarchyError, NodeExecutor};
use crate::scene::node::{Node, TransformMath};
use vstd::prelude::*;

verus! {

/// What a node carries for rendering: a mesh or a camera, never both.
pub enum Attachment<T: Copy + Clone, M> {
    Mesh(ResourceId<M>),
    Camera(ResourceId<PerspectiveCamera<T>>),
}

impl<T: Copy + Clone, M> Clone for Attachment<T, M> {
    fn clone(&self) -> (r: Self)
        ensures
            r == *self,
    {
        match self {
            Attachment::Mesh(id) => Attachment::Mesh(*id),
            Attachment::Camera(id) => Attachment::Camera(*id),
        }
    }
}

impl<T: Copy + Clone, M> Copy for Attachment<T, M> {

}

/// One row of the assignment table.
pub struct Assignment<T: Copy + Clone, M> {
    pub node: ResourceId<Node<T>>,
    pub attachment: Attachment<T, M>,
}

/// A scene, as plain values: its member nodes in the order they were added,
/// and what is assigned to which node.
#[verifier::ext_equal]
#[verifier::reject_recursive_types(T)]
pub struct SceneModel<T: Copy + Clone, M> {
    pub nodes: Seq<ResourceId<Node<T>>>,
    pub assignments: Map<ResourceId<Node<T>>, Attachment<T, M>>,
}

/// An ordered set of member nodes and a table that gives a node at most one
/// attachment.
pub struct Scene<T: Copy + Clone, M> {
    nodes: Vec<ResourceId<Node<T>>>,
    assignments: Vec<Assignment<T, M>>,
}

/// The table that the rows stand for. Each node has at most one row.
pub open spec fn table_of<T: Copy + Clone, M>(rows: Seq<Assignment<T, M>>) -> Map<
    ResourceId<Node<T>>,
    Attachment<T, M>,
> {
    Map::new(
        |node: ResourceId<Node<T>>| exists|i: int| 0 <= i < rows.len() && (#[trigger] rows[i]).node == node,
        |node: ResourceId<Node<T>>|
            rows[choose|i: int| 0 <= i < rows.len() && (#[trigger] rows[i]).node == node].attachment,
    )
}

/// No node has two rows.
pub open spec fn distinct_rows<T: Copy + Clone, M>(rows: Seq<Assignment<T, M>>) -> bool {
    forall|i: int, j: int|
        0 <= i < j < rows.len() ==> (#[trigger] rows[i]).node != (#[trigger] rows[j]).node
}

impl<T: Copy + Clone, M> View for Scene<T, M> {
    type V = SceneModel<T, M>;

    closed spec fn view(&self) -> SceneModel<T, M> {
        SceneModel { nodes: self.nodes@, assignments: table_of(self.assignments@) }
    }
}

impl<T: Copy + Clone, M> Scene<T, M> {
    /// No node is a member twice, and no node has two assignments.
    pub closed spec fn wf(&self) -> bool {
        &&& self.nodes@.no_duplicates()
        &&& distinct_rows(self.assignments@)
    }

    /// Every scene that is well formed lists each member once.
    pub proof fn lemma_members_distinct(&self)
        requires
            self.wf(),
        ensures
            self@.nodes.no_duplicates(),
    {
    }

    /// Creates a scene without members and without assignments.
    pub fn new() -> (scene: Self)
        ensures
            scene.wf(),
            scene@.nodes == Seq::<ResourceId<Node<T>>>::empty(),
            scene@.assignments == Map::<ResourceId<Node<T>>, Attachment<T, M>>::empty(),
    {
        let scene = Scene { nodes: Vec::new(), assignments: Vec::new() };
        assert(scene@.assignments =~= Map::<ResourceId<Node<T>>, Attachment<T, M>>::empty());
        scene
    }

    /// Makes `node` a member of the scene. A node that is a member already
    /// stays where it is.
    pub fn add_node(&mut self, node: &ResourceId<Node<T>>)
        requires
            old(self).wf(),
        ensures
            final(self).wf(),
            final(self)@.assignments == old(self)@.assignments,
            final(self)@.nodes == if old(self)@.nodes.contains(*node) {
                old(self)@.nodes
            } else {
                old(self)@.nodes.push(*node)
            },
    {
        if !self.has_node(node) {
            self.nodes.push(*node);
        }
    }

    /// Whether `node` is a member of the scene.
    pub fn has_node(&self, node: &ResourceId<Node<T>>) -> (r: bool)
        ensures
            r == self@.nodes.contains(*node),
    {
        let mut i: usize = 0;
        while i < self.nodes.len()
            invariant
                i <= self.nodes.len(),
                forall|j: int| 0 <= j < i ==> self.nodes@[j] != *node,
            decreases self.nodes.len() - i,
        {
            if self.nodes[i] == *node {
                return true;
            }
            i = i + 1;
        }
        false
    }

    /// The member nodes, in the order they were added.
    pub fn borrow_nodes(&self) -> (r: &Vec<ResourceId<Node<T>>>)
        ensures
            r@ == self@.nodes,
    {
        &self.nodes
    }

    /// Records that `node` carries `attachment`. An earlier assignment for
    /// the same node is overwritten. Whether `node` is a member of the scene
    /// is not looked at.
    pub fn assign(&mut self, node: &ResourceId<Node<T>>, attachment: Attachment<T, M>)
        requires
            old(self).wf(),
        ensures
            final(self).wf(),
            final(self)@.nodes == old(self)@.nodes,
            final(self)@.assignments == old(self)@.assignments.insert(*node, attachment),
    {
        let ghost rows = self.assignments@;
        let mut i: usize = 0;
        while i < self.assignments.len()
            invariant
                i <= self.assignments.len(),
                self.assignments@ == rows,
                rows == old(self).assignments@,
                self.nodes@ == old(self).nodes@,
                self.nodes@.no_duplicates(),
                distinct_rows(rows),
                forall|j: int| 0 <= j < i ==> (#[trigger] rows[j]).node != *node,
            decreases self.assignments.len() - i,
        {
            if self.assignments[i].node == *node {
                self.assignments[i] = Assignment { node: *node, attachment };
                proof {
                    lemma_table_update(rows, i as int, attachment);
                    assert(self.assignments@ =~= rows.update(
                        i as int,
                        Assignment { node: rows[i as int].node, attachment },
                    ));
                }
                return ;
            }
            i = i + 1;
        }
        self.assignments.push(Assignment { node: *node, attachment });
        proof {
            lemma_table_push(rows, *node, attachment);
        }
    }

    /// What `node` carries, if anything.
    pub fn attachment(&self, node: &ResourceId<Node<T>>) -> (r: Option<Attachment<T, M>>)
        requires
            self.wf(),
        ensures
            r == if self@.assignments.dom().contains(*node) {
                Some(self@.assignments[*node])
            } else {
                None
            },
    {
        let mut i: usize = 0;
        while i < self.assignments.len()
            invariant
                i <= self.assignments.len(),
                distinct_rows(self.assignments@),
                forall|j: int| 0 <= j < i ==> (#[trigger] self.assignments@[j]).node != *node,
            decreases self.assignments.len() - i,
        {
            if self.assignments[i].node == *node {
                proof {
                    lemma_table_row(self.assignments@, i as int);
                }
                return Some(self.assignments[i].attachment);
            }
            i = i + 1;
        }
        None
    }

    /// Refreshes the matrices of the subtree below every member node, in
    /// member order. Stops at the first member that is refused; the members
    /// before it stay refreshed.
    pub fn update_matrices<K: TransformMath<T>>(&self, pool: &mut ResourcePool<Node<T>>) -> (r:
        Result<(), HierarchyError>)
        requires
            old(pool).wf(),
        ensures
            final(pool).wf(),
            r.is_ok() ==> refreshed_each::<T, K>(
                old(pool)@,
                final(pool)@,
                self@.nodes,
                self@.nodes.len(),
            ),
            r matches Err(error) ==> exists|n: nat| #[trigger]
                refresh_stopped::<T, K>(old(pool)@, final(pool)@, self@.nodes, n, error),
    {
        let r = NodeExecutor::update_all::<T, K>(pool, &self.nodes);
        proof {
            if let Err(error) = r {
                let n = choose|n: nat| #[trigger]
                    refresh_stopped::<T, K>(old(pool)@, pool@, self.nodes@, n, error);
                assert(refresh_stopped::<T, K>(old(pool)@, pool@, self@.nodes, n, error));
            }
        }
        r
    }
}

/// In a table without double rows, each row gives its node's attachment.
pub proof fn lemma_table_row<T: Copy + Clone, M>(rows: Seq<Assignment<T, M>>, i: int)
    requires
        distinct_rows(rows),
        0 <= i < rows.len(),
    ensures
        table_of(rows).dom().contains(rows[i].node),
        table_of(rows)[rows[i].node] == rows[i].attachment,
{
    let node = rows[i].node;
    let j = choose|j: int| 0 <= j < rows.len() && (#[trigger] rows[j]).node == node;
    if i < j {
        assert(rows[i].node != rows[j].node);
    } else if j < i {
        assert(rows[j].node != rows[i].node);
    }
}

/// Overwriting a row's attachment overwrites the table's entry.
pub proof fn lemma_table_update<T: Copy + Clone, M>(
    rows: Seq<Assignment<T, M>>,
    i: int,
    attachment: Attachment<T, M>,
)
    requires
        distinct_rows(rows),
        0 <= i < rows.len(),
    ensures
        distinct_rows(rows.update(i, Assignment { node: rows[i].node, attachment })),
        table_of(rows.update(i, Assignment { node: rows[i].node, attachment })) == table_of(
            rows,
        ).insert(rows[i].node, attachment),
{
    let node = rows[i].node;
    let after = rows.update(i, Assignment { node, attachment });
    assert(distinct_rows(after)) by {
        assert forall|a: int, b: int| 0 <= a < b < after.len() implies (#[trigger] after[a]).node != (
        #[trigger] after[b]).node by {
            assert(after[a].node == rows[a].node);
            assert(after[b].node == rows[b].node);
        }
    }
    let expected = table_of(rows).insert(node, attachment);
    assert forall|key: ResourceId<Node<T>>| table_of(after).dom().contains(key)
        <==> expected.dom().contains(key) by {
        if table_of(after).dom().contains(key) {
            let j = choose|j: int| 0 <= j < after.len() && (#[trigger] after[j]).node == key;
            assert(rows[j].node == key);
        }
        if expected.dom().contains(key) {
            if key == node {
                assert(after[i].node == key);
            } else {
                let j = choose|j: int| 0 <= j < rows.len() && (#[trigger] rows[j]).node == key;
                assert(after[j].node == key);
            }
        }
    }
    assert forall|key: ResourceId<Node<T>>| table_of(after).dom().contains(key) implies table_of(
        after,
    )[key] == expected[key] by {
        let j = choose|j: int| 0 <= j < after.len() && (#[trigger] after[j]).node == key;
        lemma_table_row(after, j);
        if j != i {
            assert(rows[j].node == key);
            lemma_table_row(rows, j);
            assert(rows[j].node != rows[i].node) by {
                if j < i {
                    assert(rows[j].node != rows[i].node);
                } else {
                    assert(rows[i].node != rows[j].node);
                }
            }
        }
    }
    assert(table_of(after) =~= expected);
}

/// A new row for a node without one adds the table's entry.
pub proof fn lemma_table_push<T: Copy + Clone, M>(
    rows: Seq<Assignment<T, M>>,
    node: ResourceId<Node<T>>,
    attachment: Attachment<T, M>,
)
    requires
        distinct_rows(rows),
        forall|j: int| 0 <= j < rows.len() ==> (#[trigger] rows[j]).node != node,
    ensures
        distinct_rows(rows.push(Assignment { node, attachment })),
        table_of(rows.push(Assignment { node, attachment })) == table_of(rows).insert(
            node,
            attachment,
        ),
{
    let after = rows.push(Assignment { node, attachment });
    let last = rows.len() as int;
    assert(distinct_rows(after)) by {
        assert forall|a: int, b: int| 0 <= a < b < after.len() implies (#[trigger] after[a]).node != (
        #[trigger] after[b]).node by {
            assert(after[a] == rows[a]);
            if b < last {
                assert(after[b] == rows[b]);
            }
        }
    }
    let expected = table_of(rows).insert(node, attachment);
    assert forall|key: ResourceId<Node<T>>| table_of(after).dom().contains(key)
        <==> expected.dom().contains(key) by {
        if table_of(after).dom().contains(key) {
            let j = choose|j: int| 0 <= j < after.len() && (#[trigger] after[j]).node == key;
            if j < last {
                assert(rows[j].node == key);
            }
        }
        if expected.dom().contains(key) {
            if key == node {
                assert(after[last].node == key);
            } else {
                let j = choose|j: int| 0 <= j < rows.len() && (#[trigger] rows[j]).node == key;
                assert(after[j].node == key);
            }
        }
    }
    assert forall|key: ResourceId<Node<T>>| table_of(after).dom().contains(key) implies table_of(
        after,
    )[key] == expected[key] by {
        let j = choose|j: int| 0 <= j < after.len() && (#[trigger] after[j]).node == key;
        lemma_table_row(after, j);
        if j < last {
            assert(rows[j].node == key);
            lemma_table_row(rows, j);
        }
    }
    assert(table_of(after) =~= expected);
}

} // verus!
