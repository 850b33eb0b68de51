//! The linear k-d tree: its shape, and what a finished tree promises.

use vstd::prelude::*;
use crate::aabb::AABB;
use crate::mesh::MeshData;
use crate::node::{LinearKDTreeNode, NodeView};

verus! {

/// True where the nodes from `p` up to, not including, `end` form one
/// depth-first subtree: an inner node is followed by the subtree below its
/// split, and the subtree above starts where its child index says. Every
/// leaf addresses a range inside a list of `entries` triangle indices.
pub open spec fn is_subtree(nodes: Seq<LinearKDTreeNode>, entries: int, p: int, end: int) -> bool
    decreases end - p,
{
    &&& 0 <= p < end <= nodes.len()
    &&& match nodes[p]@ {
        NodeView::Leaf { count, start } => end == p + 1 && start + count <= entries,
        NodeView::Inner { above_child, .. } => {
            &&& p + 1 < above_child < end
            &&& is_subtree(nodes, entries, p + 1, above_child as int)
            &&& is_subtree(nodes, entries, above_child as int, end)
        },
    }
}

/// Number of nodes on the longest path from node `p` down to a leaf.
pub open spec fn depth_of(nodes: Seq<LinearKDTreeNode>, p: int, end: int) -> nat
    decreases end - p,
{
    if !(0 <= p < end <= nodes.len()) {
        0
    } else {
        match nodes[p]@ {
            NodeView::Leaf { .. } => 1,
            NodeView::Inner { above_child, .. } => {
                if p + 1 < above_child < end {
                    let below = depth_of(nodes, p + 1, above_child as int);
                    let above = depth_of(nodes, above_child as int, end);
                    if below >= above {
                        below + 1
                    } else {
                        above + 1
                    }
                } else {
                    0
                }
            },
        }
    }
}

/// True where triangle `t`, whose bounding box is `tbox`, is listed in some
/// leaf under node `p` whose region overlaps `tbox`. The region of node `p`
/// is `region`; the regions of its children are `region` cut at the split.
pub open spec fn leaf_holds(
    nodes: Seq<LinearKDTreeNode>,
    entries: Seq<usize>,
    p: int,
    end: int,
    region: AABB,
    t: int,
    tbox: AABB,
) -> bool
    decreases end - p,
{
    if !(0 <= p < end <= nodes.len()) {
        false
    } else {
        match nodes[p]@ {
            NodeView::Leaf { count, start } => {
                &&& region.overlaps(tbox)
                &&& exists|k: int|
                    start <= k < start + count && k < entries.len() && #[trigger] entries[k] == t
            },
            NodeView::Inner { axis, above_child, split_position } => {
                &&& p + 1 < above_child < end
                &&& {
                    ||| leaf_holds(
                        nodes,
                        entries,
                        p + 1,
                        above_child as int,
                        region.below(axis, split_position),
                        t,
                        tbox,
                    )
                    ||| leaf_holds(
                        nodes,
                        entries,
                        above_child as int,
                        end,
                        region.above(axis, split_position),
                        t,
                        tbox,
                    )
                }
            },
        }
    }
}

/// Number of triangles that the leaves under node `p` list, all told.
pub open spec fn leaf_total(nodes: Seq<LinearKDTreeNode>, p: int, end: int) -> nat
    decreases end - p,
{
    if !(0 <= p < end <= nodes.len()) {
        0
    } else {
        match nodes[p]@ {
            NodeView::Leaf { count, .. } => count,
            NodeView::Inner { above_child, .. } => {
                if p + 1 < above_child < end {
                    leaf_total(nodes, p + 1, above_child as int) + leaf_total(
                        nodes,
                        above_child as int,
                        end,
                    )
                } else {
                    0
                }
            },
        }
    }
}

/// True where the leaves under node `p` list their triangles one after the
/// other from entry `first` on, in the order of the nodes and with
/// nothing in between: each leaf starts where the leaf before it ends.
pub open spec fn packed(nodes: Seq<LinearKDTreeNode>, p: int, end: int, first: int) -> bool
    decreases end - p,
{
    &&& 0 <= p < end <= nodes.len()
    &&& match nodes[p]@ {
        NodeView::Leaf { start, .. } => start == first,
        NodeView::Inner { above_child, .. } => {
            &&& p + 1 < above_child < end
            &&& packed(nodes, p + 1, above_child as int, first)
            &&& packed(
                nodes,
                above_child as int,
                end,
                first + leaf_total(nodes, p + 1, above_child as int),
            )
        },
    }
}

/// How the leaves of a subtree list their triangles stays as it is when
/// nodes outside the subtree change.
pub proof fn lemma_packed_frame(
    nodes: Seq<LinearKDTreeNode>,
    nodes2: Seq<LinearKDTreeNode>,
    entries: int,
    p: int,
    end: int,
    first: int,
)
    requires
        is_subtree(nodes, entries, p, end),
        same_nodes(nodes, nodes2, p, end),
    ensures
        leaf_total(nodes2, p, end) == leaf_total(nodes, p, end),
        packed(nodes, p, end, first) ==> packed(nodes2, p, end, first),
    decreases end - p,
{
    match nodes[p]@ {
        NodeView::Leaf { .. } => {},
        NodeView::Inner { above_child, .. } => {
            let mid = above_child as int;
            lemma_packed_frame(nodes, nodes2, entries, p + 1, mid, first);
            lemma_packed_frame(
                nodes,
                nodes2,
                entries,
                mid,
                end,
                first + leaf_total(nodes, p + 1, mid),
            );
        },
    }
}

/// True where `longer` begins with all of `shorter`.
pub open spec fn extends<T>(longer: Seq<T>, shorter: Seq<T>) -> bool {
    shorter.len() <= longer.len() && forall|i: int|
        0 <= i < shorter.len() ==> longer[i] == shorter[i]
}

/// True where two node vectors agree on the nodes from `p` up to `end`.
pub open spec fn same_nodes(
    a: Seq<LinearKDTreeNode>,
    b: Seq<LinearKDTreeNode>,
    p: int,
    end: int,
) -> bool {
    end <= a.len() && end <= b.len() && forall|i: int| p <= i < end ==> a[i] == b[i]
}

/// A subtree stays what it is when nodes outside it change and the list of
/// triangle indices grows.
pub proof fn lemma_subtree_frame(
    nodes: Seq<LinearKDTreeNode>,
    entries: Seq<usize>,
    nodes2: Seq<LinearKDTreeNode>,
    entries2: Seq<usize>,
    p: int,
    end: int,
)
    requires
        is_subtree(nodes, entries.len() as int, p, end),
        same_nodes(nodes, nodes2, p, end),
        extends(entries2, entries),
    ensures
        is_subtree(nodes2, entries2.len() as int, p, end),
        depth_of(nodes2, p, end) == depth_of(nodes, p, end),
        forall|region: AABB, t: int, tbox: AABB|
            leaf_holds(nodes, entries, p, end, region, t, tbox) ==> #[trigger] leaf_holds(
                nodes2,
                entries2,
                p,
                end,
                region,
                t,
                tbox,
            ),
    decreases end - p,
{
    match nodes[p]@ {
        NodeView::Leaf { count, start } => {
            assert forall|region: AABB, t: int, tbox: AABB|
                leaf_holds(nodes, entries, p, end, region, t, tbox) implies #[trigger] leaf_holds(
                nodes2,
                entries2,
                p,
                end,
                region,
                t,
                tbox,
            ) by {
                let k = choose|k: int|
                    start <= k < start + count && k < entries.len() && #[trigger] entries[k] == t;
                assert(entries2[k] == t);
            }
        },
        NodeView::Inner { axis, above_child, split_position } => {
            let mid = above_child as int;
            lemma_subtree_frame(nodes, entries, nodes2, entries2, p + 1, mid);
            lemma_subtree_frame(nodes, entries, nodes2, entries2, mid, end);
            assert forall|region: AABB, t: int, tbox: AABB|
                leaf_holds(nodes, entries, p, end, region, t, tbox) implies #[trigger] leaf_holds(
                nodes2,
                entries2,
                p,
                end,
                region,
                t,
                tbox,
            ) by {
                if leaf_holds(
                    nodes,
                    entries,
                    p + 1,
                    mid,
                    region.below(axis, split_position),
                    t,
                    tbox,
                ) {
                    assert(leaf_holds(
                        nodes2,
                        entries2,
                        p + 1,
                        mid,
                        region.below(axis, split_position),
                        t,
                        tbox,
                    ));
                } else {
                    assert(leaf_holds(
                        nodes2,
                        entries2,
                        mid,
                        end,
                        region.above(axis, split_position),
                        t,
                        tbox,
                    ));
                }
            }
        },
    }
}

/// A subtree is no deeper than it has nodes.
pub proof fn lemma_depth_bounded(nodes: Seq<LinearKDTreeNode>, entries: int, p: int, end: int)
    requires
        is_subtree(nodes, entries, p, end),
    ensures
        1 <= depth_of(nodes, p, end) <= end - p,
    decreases end - p,
{
    match nodes[p]@ {
        NodeView::Leaf { .. } => {},
        NodeView::Inner { above_child, .. } => {
            lemma_depth_bounded(nodes, entries, p + 1, above_child as int);
            lemma_depth_bounded(nodes, entries, above_child as int, end);
        },
    }
}

/// Largest number of nodes the node format can address.
pub const FORMAT_LIMIT: usize = 0x4000_0000;

/// The box that holds the first `n` triangles of `data`.
pub open spec fn bounds_of(data: MeshData, n: int) -> AABB
    decreases n,
{
    if n <= 0 {
        AABB::spec_empty()
    } else {
        bounds_of(data, n - 1).spec_union(data.triangle_box(n - 1))
    }
}

/// Capacity reserved for the traversal stack of a tree `depth` nodes deep:
/// 0.65 times the depth, rounded to the nearest integer.
pub open spec fn stack_capacity_for(depth: int) -> int {
    (13 * depth + 10) / 20
}

/// Capacity to reserve for the traversal stack of a tree `depth` nodes
/// deep.
pub fn stack_capacity(depth: usize) -> (capacity: usize)
    requires
        depth <= FORMAT_LIMIT,
    ensures
        capacity == stack_capacity_for(depth as int),
{
    ((13 * (depth as u64) + 10) / 20) as usize
}

/// A k-d tree over the triangles of a mesh, stored as a vector of packed
/// nodes in depth-first order, together with the mesh itself.
#[derive(Clone, Debug)]
pub struct LinearKDTree {
    pub(crate) nodes: Vec<LinearKDTreeNode>,
    pub(crate) linear_triangle_indices: Vec<usize>,
    pub(crate) bounding_box: AABB,
    pub(crate) data: MeshData,
    pub(crate) debug: bool,
    pub(crate) intersect_stack_capacity: usize,
}

impl LinearKDTree {
    /// The nodes, in depth-first order.
    pub closed spec fn spec_nodes(&self) -> Seq<LinearKDTreeNode> {
        self.nodes@
    }

    /// The triangle indices of all leaves, leaf after leaf.
    pub closed spec fn spec_entries(&self) -> Seq<usize> {
        self.linear_triangle_indices@
    }

    /// The box that holds all triangles.
    pub closed spec fn spec_bounding_box(&self) -> AABB {
        self.bounding_box
    }

    /// The mesh the tree was built over.
    pub closed spec fn spec_data(&self) -> MeshData {
        self.data
    }

    /// True for a tree that counts node lookups.
    pub closed spec fn spec_debug(&self) -> bool {
        self.debug
    }

    /// Capacity reserved for the stack of a walk.
    pub closed spec fn spec_stack_capacity(&self) -> int {
        self.intersect_stack_capacity as int
    }

    /// The nodes form one tree, every leaf lists triangles of the mesh, and
    /// the mesh's own indices are in bounds.
    pub open spec fn wf(&self) -> bool {
        &&& self.spec_data().indices_valid()
        &&& self.spec_nodes().len() <= FORMAT_LIMIT
        &&& is_subtree(
            self.spec_nodes(),
            self.spec_entries().len() as int,
            0,
            self.spec_nodes().len() as int,
        )
        &&& forall|i: int|
            0 <= i < self.spec_entries().len() ==> (#[trigger] self.spec_entries()[i])
                < self.spec_data().triangles@.len()
    }

    /// Number of nodes on the longest path from the root to a leaf.
    pub open spec fn spec_max_depth(&self) -> nat {
        depth_of(self.spec_nodes(), 0, self.spec_nodes().len() as int)
    }

    /// The list of triangle indices holds what the leaves list and nothing
    /// else: the first leaf starts at entry 0, each leaf starts where the
    /// leaf before it ends, and the list ends with the last leaf.
    pub open spec fn exactly_listed(&self) -> bool {
        &&& packed(self.spec_nodes(), 0, self.spec_nodes().len() as int, 0)
        &&& self.spec_entries().len() == leaf_total(
            self.spec_nodes(),
            0,
            self.spec_nodes().len() as int,
        )
    }

    /// Every triangle of the mesh is listed in some leaf whose region
    /// overlaps the triangle's bounding box.
    pub open spec fn covers_mesh(&self) -> bool {
        forall|t: int|
            0 <= t < self.spec_data().triangles@.len() ==> leaf_holds(
                self.spec_nodes(),
                self.spec_entries(),
                0,
                self.spec_nodes().len() as int,
                self.spec_bounding_box(),
                t,
                #[trigger] self.spec_data().triangle_box(t),
            )
    }

    /// Puts the parts of a finished tree together.
    pub(crate) fn assemble(
        nodes: Vec<LinearKDTreeNode>,
        linear_triangle_indices: Vec<usize>,
        bounding_box: AABB,
        data: MeshData,
        debug: bool,
        intersect_stack_capacity: usize,
    ) -> (tree: LinearKDTree)
        ensures
            tree.spec_nodes() == nodes@,
            tree.spec_entries() == linear_triangle_indices@,
            tree.spec_bounding_box() == bounding_box,
            tree.spec_data() == data,
            tree.spec_debug() == debug,
            tree.spec_stack_capacity() == intersect_stack_capacity,
    {
        LinearKDTree {
            nodes,
            linear_triangle_indices,
            bounding_box,
            data,
            debug,
            intersect_stack_capacity,
        }
    }

    pub fn debug(&self) -> (debug: bool)
        ensures
            debug == self.spec_debug(),
    {
        self.debug
    }

    pub fn nodes(&self) -> (nodes: &Vec<LinearKDTreeNode>)
        ensures
            nodes@ == self.spec_nodes(),
    {
        &self.nodes
    }

    pub fn triangle_indices(&self) -> (entries: &Vec<usize>)
        ensures
            entries@ == self.spec_entries(),
    {
        &self.linear_triangle_indices
    }

    pub fn bounding_box(&self) -> (bounding_box: AABB)
        ensures
            bounding_box == self.spec_bounding_box(),
    {
        self.bounding_box
    }

    pub fn data(&self) -> (data: &MeshData)
        ensures
            *data == self.spec_data(),
    {
        &self.data
    }

    pub fn intersect_stack_capacity(&self) -> (capacity: usize)
        ensures
            capacity == self.spec_stack_capacity(),
    {
        self.intersect_stack_capacity
    }

    /// Depth of the subtree at `node_index`, which ends before `end`.
    pub(crate) fn max_depth_recursive(
        nodes: &Vec<LinearKDTreeNode>,
        node_index: usize,
        Ghost(entries): Ghost<int>,
        Ghost(end): Ghost<int>,
    ) -> (depth: usize)
        requires
            is_subtree(nodes@, entries, node_index as int, end),
        ensures
            depth == depth_of(nodes@, node_index as int, end),
            1 <= depth <= end - node_index,
        decreases end - node_index,
    {
        let len: usize = nodes.len();
        proof {
            lemma_depth_bounded(nodes@, entries, node_index as int, end);
            assert(end <= len);
        }
        let node = &nodes[node_index];
        if node.is_inner() {
            let first_child_index: usize = node_index + 1;
            let second_child_index: usize = node.above_child_index() as usize;
            let below = Self::max_depth_recursive(
                nodes,
                first_child_index,
                Ghost(entries),
                Ghost(second_child_index as int),
            );
            let above = Self::max_depth_recursive(
                nodes,
                second_child_index,
                Ghost(entries),
                Ghost(end),
            );
            let max_child_depth: usize = if below >= above {
                below
            } else {
                above
            };
            max_child_depth + 1
        } else {
            1
        }
    }

    /// Number of nodes on the longest path from the root to a leaf.
    pub fn max_depth(&self) -> (depth: usize)
        requires
            self.wf(),
        ensures
            depth == self.spec_max_depth(),
            depth >= 1,
    {
        Self::max_depth_recursive(
            &self.nodes,
            0,
            Ghost(self.linear_triangle_indices@.len() as int),
            Ghost(self.nodes@.len() as int),
        )
    }
}

} // verus!
