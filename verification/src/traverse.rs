//! Walking the linear k-d tree along a ray.

use vstd::prelude::*;
use crate::kdtree::{is_subtree, LinearKDTree};
use crate::math_util::Vec3;
use crate::mesh::MeshData;
use crate::node::NodeView;
use crate::ray::{Ray, RayDebugData};
use crate::scalar::Scalar;

verus! {

/// Where a ray meets a triangle: the distance along the ray and the
/// barycentric coordinates of the point.
#[derive(Clone, Copy, Debug)]
pub struct TriangleHit {
    pub distance: Scalar,
    pub u: Scalar,
    pub v: Scalar,
}

/// A node that still has to be visited, with the part of the ray that
/// passes through it.
#[derive(Clone, Copy, Debug)]
pub struct PendingVisit {
    pub node_index: usize,
    pub t_min: Scalar,
    pub t_max: Scalar,
}

/// What the triangle test answers for the numbers it works out: `det`, the
/// determinant; `u`, `v` and their sum `u_plus_v`, the barycentric
/// coordinates; `t`, the distance. There is a hit where the determinant is
/// not within machine epsilon of zero, the point lies in the triangle
/// (`0 <= u <= 1`, `0 <= v`, `u + v <= 1`) and not behind the ray.
pub open spec fn triangle_outcome(
    det: Scalar,
    u: Scalar,
    v: Scalar,
    u_plus_v: Scalar,
    t: Scalar,
) -> Option<TriangleHit> {
    let zero = Scalar { bits: 0 };
    let one = Scalar { bits: crate::scalar::ONE_BITS };
    let epsilon = Scalar { bits: crate::scalar::EPSILON_BITS };
    if det.spec_abs().spec_lt(epsilon) {
        None
    } else if u.spec_lt(zero) || one.spec_lt(u) {
        None
    } else if v.spec_lt(zero) || one.spec_lt(u_plus_v) {
        None
    } else if t.spec_lt(zero) {
        None
    } else {
        Some(TriangleHit { distance: t, u, v })
    }
}

/// Decides the triangle test from the numbers worked out for it.
pub fn triangle_test(det: Scalar, u: Scalar, v: Scalar, u_plus_v: Scalar, t: Scalar) -> (r: Option<
    TriangleHit,
>)
    ensures
        r == triangle_outcome(det, u, v, u_plus_v, t),
        r matches Some(hit) ==> !hit.distance.spec_lt(Scalar { bits: 0 }),
{
    let zero = Scalar::zero();
    let one = Scalar::one();
    if det.abs().lt(Scalar::from_bits(crate::scalar::EPSILON_BITS)) {
        return None;
    }
    if u.lt(zero) || u.gt(one) {
        return None;
    }
    if v.lt(zero) || u_plus_v.gt(one) {
        return None;
    }
    if t.lt(zero) {
        return None;
    }
    Some(TriangleHit { distance: t, u, v })
}

/// True where the ray meets the child below the split first: it starts
/// below the split, or on it while not heading upwards.
pub open spec fn below_is_near(origin: Scalar, direction: Scalar, split: Scalar) -> bool {
    origin.spec_lt(split) || (origin.spec_same(split) && direction.spec_le(Scalar { bits: 0 }))
}

/// The work an inner node leaves on the stack, bottom first.
///
/// `t_split` is the distance at which the ray crosses the split plane. Only
/// the near child is visited where the ray leaves the node before the plane
/// or heads away from it; only the far child where it crosses the plane
/// before entering the node; otherwise both, the far child pushed first so
/// that the near child is visited first.
pub open spec fn children_to_visit(
    item: PendingVisit,
    above_child: usize,
    t_split: Scalar,
    below_first: bool,
) -> Seq<PendingVisit> {
    let below = (item.node_index + 1) as usize;
    let near = if below_first {
        below
    } else {
        above_child
    };
    let far = if below_first {
        above_child
    } else {
        below
    };
    if item.t_max.spec_lt(t_split) || t_split.spec_le(Scalar { bits: 0 }) {
        seq![PendingVisit { node_index: near, t_min: item.t_min, t_max: item.t_max }]
    } else if t_split.spec_lt(item.t_min) {
        seq![PendingVisit { node_index: far, t_min: item.t_min, t_max: item.t_max }]
    } else {
        seq![
            PendingVisit { node_index: far, t_min: t_split, t_max: item.t_max },
            PendingVisit { node_index: near, t_min: item.t_min, t_max: t_split },
        ]
    }
}

/// True where the stack, read from its top (the last element) downwards,
/// holds intervals along the ray in ascending order, none overlapping the
/// next.
pub open spec fn ordered_stack(stack: Seq<PendingVisit>) -> bool {
    &&& forall|i: int| 0 <= i < stack.len() ==> (#[trigger] stack[i]).t_min.spec_le(stack[i].t_max)
    &&& forall|i: int, j: int|
        0 <= i < j < stack.len() ==> (#[trigger] stack[j]).t_max.spec_le(
            (#[trigger] stack[i]).t_min,
        )
}

/// The nearest hit after one more triangle has been tested: the candidate
/// replaces the nearest hit so far only where it is strictly nearer.
pub open spec fn nearer_of(
    nearest: Option<(usize, TriangleHit)>,
    triangle_index: usize,
    candidate: Option<TriangleHit>,
) -> Option<(usize, TriangleHit)> {
    match candidate {
        None => nearest,
        Some(hit) => match nearest {
            None => Some((triangle_index, hit)),
            Some((_, current)) => if hit.distance.spec_lt(current.distance) {
                Some((triangle_index, hit))
            } else {
                nearest
            },
        },
    }
}

/// True where the walk may stop before visiting a node entered at `t_min`:
/// a hit was found that lies nearer than the node.
pub open spec fn prunes(nearest: Option<(usize, TriangleHit)>, t_min: Scalar) -> bool {
    nearest matches Some((_, hit)) && hit.distance.spec_lt(t_min)
}

/// Decides whether the ray meets the child below the split first.
pub fn below_first(origin: Scalar, direction: Scalar, split: Scalar) -> (r: bool)
    ensures
        r == below_is_near(origin, direction, split),
{
    origin.lt(split) || (origin.same(split) && direction.le(Scalar::zero()))
}

/// Pushes the children of the inner node of `item` that the ray passes
/// through. On a stack that was ordered with `item` on top, and for a
/// crossing distance that is a number, the stack is ordered again.
pub fn descend(
    stack: &mut Vec<PendingVisit>,
    item: PendingVisit,
    above_child: usize,
    t_split: Scalar,
    below_first: bool,
)
    requires
        item.node_index < usize::MAX,
    ensures
        final(stack)@ == old(stack)@ + children_to_visit(item, above_child, t_split, below_first),
        ordered_stack(old(stack)@.push(item)) && !t_split.nan() ==> ordered_stack(final(stack)@),
{
    let first_child_index: usize;
    let second_child_index: usize;
    if below_first {
        first_child_index = item.node_index + 1;
        second_child_index = above_child;
    } else {
        first_child_index = above_child;
        second_child_index = item.node_index + 1;
    }
    let ghost before = stack@;
    if t_split.gt(item.t_max) || t_split.le(Scalar::zero()) {
        stack.push(PendingVisit { node_index: first_child_index, t_min: item.t_min, t_max: item.t_max });
    } else if t_split.lt(item.t_min) {
        stack.push(
            PendingVisit { node_index: second_child_index, t_min: item.t_min, t_max: item.t_max },
        );
    } else {
        stack.push(PendingVisit { node_index: second_child_index, t_min: t_split, t_max: item.t_max });
        stack.push(PendingVisit { node_index: first_child_index, t_min: item.t_min, t_max: t_split });
    }
    proof {
        assert(stack@ =~= before + children_to_visit(item, above_child, t_split, below_first));
        if ordered_stack(before.push(item)) && !t_split.nan() {
            lemma_descend_keeps_order(before, item, above_child, t_split, below_first);
        }
    }
}

/// Replacing the top of an ordered stack by the children its node leaves
/// keeps the stack ordered, as long as the crossing distance is a number.
pub proof fn lemma_descend_keeps_order(
    rest: Seq<PendingVisit>,
    item: PendingVisit,
    above_child: usize,
    t_split: Scalar,
    below_first: bool,
)
    requires
        ordered_stack(rest.push(item)),
        !t_split.nan(),
    ensures
        ordered_stack(rest + children_to_visit(item, above_child, t_split, below_first)),
{
    let full = rest.push(item);
    let pushed = children_to_visit(item, above_child, t_split, below_first);
    let after = rest + pushed;
    let top = rest.len() as int;
    assert(full[top] == item);
    assert(item.t_min.spec_le(item.t_max));
    assert forall|i: int| 0 <= i < after.len() implies (#[trigger] after[i]).t_min.spec_le(
        after[i].t_max,
    ) by {
        if i < top {
            assert(full[i] == after[i]);
        }
    }
    assert forall|i: int, j: int| 0 <= i < j < after.len() implies (#[trigger] after[j]).t_max.spec_le(
        (#[trigger] after[i]).t_min,
    ) by {
        if j < top {
            assert(full[i] == after[i] && full[j] == after[j]);
        } else if i < top {
            assert(full[i] == after[i]);
            assert(full[top].t_max.spec_le(full[i].t_min));
        }
    }
}

/// Ordered pruning: once a hit lies nearer than the node on top of an
/// ordered stack, it lies nearer than every node on the stack, so none of
/// them can hold a nearer hit.
pub proof fn lemma_ordered_pruning(stack: Seq<PendingVisit>, nearest: Option<(usize, TriangleHit)>)
    requires
        ordered_stack(stack),
        stack.len() > 0,
        prunes(nearest, stack.last().t_min),
    ensures
        forall|i: int| 0 <= i < stack.len() ==> prunes(nearest, (#[trigger] stack[i]).t_min),
{
    let top = stack.len() - 1;
    assert forall|i: int| 0 <= i < stack.len() implies prunes(nearest, (#[trigger] stack[i]).t_min) by {
        if i < top {
            assert(stack[top].t_max.spec_le(stack[i].t_min));
            assert(stack[top].t_min.spec_le(stack[top].t_max));
        }
    }
}

/// Decides whether the walk stops before a node entered at `t_min`.
pub fn can_stop(nearest: &Option<(usize, TriangleHit)>, t_min: Scalar) -> (r: bool)
    ensures
        r == prunes(*nearest, t_min),
{
    match nearest {
        Some((_, hit)) => hit.distance.lt(t_min),
        None => false,
    }
}

/// Keeps the nearer of the nearest hit so far and the outcome of testing
/// one more triangle.
pub fn nearer(
    nearest: Option<(usize, TriangleHit)>,
    triangle_index: usize,
    candidate: Option<TriangleHit>,
) -> (r: Option<(usize, TriangleHit)>)
    ensures
        r == nearer_of(nearest, triangle_index, candidate),
{
    match candidate {
        None => nearest,
        Some(hit) => match nearest {
            None => Some((triangle_index, hit)),
            Some((_, current)) => if hit.distance.lt(current.distance) {
                Some((triangle_index, hit))
            } else {
                nearest
            },
        },
    }
}

/// Number of nodes in the subtrees that wait on the stack; `ends[i]` is
/// where the subtree of `stack[i]` ends.
pub open spec fn pending(stack: Seq<PendingVisit>, ends: Seq<int>) -> int
    decreases stack.len(),
{
    if stack.len() == 0 || ends.len() != stack.len() {
        0
    } else {
        pending(stack.drop_last(), ends.drop_last()) + ends.last() - stack.last().node_index
    }
}

proof fn lemma_pending_push(stack: Seq<PendingVisit>, ends: Seq<int>, item: PendingVisit, end: int)
    requires
        stack.len() == ends.len(),
    ensures
        pending(stack.push(item), ends.push(end)) == pending(stack, ends) + end - item.node_index,
{
    assert(stack.push(item).drop_last() =~= stack);
    assert(ends.push(end).drop_last() =~= ends);
}

proof fn lemma_pending_nonnegative(
    stack: Seq<PendingVisit>,
    ends: Seq<int>,
    nodes: Seq<crate::node::LinearKDTreeNode>,
    entries: int,
)
    requires
        stack.len() == ends.len(),
        forall|i: int|
            0 <= i < stack.len() ==> is_subtree(
                nodes,
                entries,
                (#[trigger] stack[i]).node_index as int,
                ends[i],
            ),
    ensures
        pending(stack, ends) >= 0,
        stack.len() > 0 ==> pending(stack, ends) >= 1,
    decreases stack.len(),
{
    if stack.len() > 0 {
        let last = stack.len() - 1;
        assert(is_subtree(nodes, entries, stack[last].node_index as int, ends[last]));
        assert forall|i: int| 0 <= i < stack.drop_last().len() implies is_subtree(
            nodes,
            entries,
            (#[trigger] stack.drop_last()[i]).node_index as int,
            ends.drop_last()[i],
        ) by {
            assert(stack.drop_last()[i] == stack[i]);
        }
        lemma_pending_nonnegative(stack.drop_last(), ends.drop_last(), nodes, entries);
    }
}

/// The three corners of triangle `t` of a mesh.
pub open spec fn corners(data: MeshData, t: int) -> (Vec3, Vec3, Vec3) {
    let indices = data.triangles@[t].position_indices;
    (
        data.position(indices.0 as int),
        data.position(indices.1 as int),
        data.position(indices.2 as int),
    )
}

/// Where a walk stands: the nodes still to visit, the nearest hit found so
/// far, and the number of node lookups counted so far.
pub struct WalkState {
    pub stack: Seq<PendingVisit>,
    pub nearest: Option<(usize, TriangleHit)>,
    pub lookups: nat,
}

/// The nearest hit after the triangles listed from `start` on have been
/// tested in turn, with the outcomes in `candidates`.
pub open spec fn leaf_scan(
    nearest: Option<(usize, TriangleHit)>,
    entries: Seq<usize>,
    start: int,
    candidates: Seq<Option<TriangleHit>>,
) -> Option<(usize, TriangleHit)>
    decreases candidates.len(),
{
    if candidates.len() == 0 {
        nearest
    } else {
        nearer_of(
            leaf_scan(nearest, entries, start, candidates.drop_last()),
            entries[start + candidates.len() - 1],
            candidates.last(),
        )
    }
}

impl LinearKDTree {
    /// True where `found` names a triangle that some leaf lists and a hit
    /// that testing the ray against that triangle can give.
    pub open spec fn is_hit_of<T: Fn(Ray, Vec3, Vec3, Vec3) -> Option<TriangleHit>>(
        &self,
        ray: Ray,
        triangle: &T,
        found: (usize, TriangleHit),
    ) -> bool {
        &&& exists|k: int| 0 <= k < self.spec_entries().len() && #[trigger] self.spec_entries()[k] == found.0
        &&& found.0 < self.spec_data().triangles@.len()
        &&& triangle.ensures(
            (
                ray,
                corners(self.spec_data(), found.0 as int).0,
                corners(self.spec_data(), found.0 as int).1,
                corners(self.spec_data(), found.0 as int).2,
            ),
            Some(found.1),
        )
    }

    /// True where `candidates` holds outcomes that `triangle` can give for
    /// the triangles listed from `start` on, in turn.
    pub open spec fn tested<T: Fn(Ray, Vec3, Vec3, Vec3) -> Option<TriangleHit>>(
        &self,
        ray: Ray,
        triangle: &T,
        start: int,
        candidates: Seq<Option<TriangleHit>>,
    ) -> bool {
        forall|k: int|
            0 <= k < candidates.len() ==> triangle.ensures(
                (
                    ray,
                    corners(self.spec_data(), self.spec_entries()[start + k] as int).0,
                    corners(self.spec_data(), self.spec_entries()[start + k] as int).1,
                    corners(self.spec_data(), self.spec_entries()[start + k] as int).2,
                ),
                #[trigger] candidates[k],
            )
    }

    /// True where visiting the node on top of the stack can lead from
    /// `before` to `after`.
    ///
    /// The node is visited only where no hit lies nearer than it, and the
    /// visit is counted. An inner node leaves its children on the stack,
    /// for a distance to its split plane that `along` can give. A leaf has
    /// the ray tested against each of its triangles in turn.
    pub open spec fn visits<
        K: Fn(Scalar, Scalar, Scalar) -> Scalar,
        T: Fn(Ray, Vec3, Vec3, Vec3) -> Option<TriangleHit>,
    >(&self, ray: Ray, along: &K, triangle: &T, before: WalkState, after: WalkState) -> bool {
        let item = before.stack.last();
        let rest = before.stack.drop_last();
        &&& before.stack.len() > 0
        &&& !prunes(before.nearest, item.t_min)
        &&& after.lookups == before.lookups + 1
        &&& item.node_index < self.spec_nodes().len()
        &&& match self.spec_nodes()[item.node_index as int]@ {
            NodeView::Inner { axis, above_child, split_position } => {
                &&& after.nearest == before.nearest
                &&& exists|t_split: Scalar|
                    {
                        &&& #[trigger] along.ensures(
                            (
                                split_position,
                                ray.origin.spec_get(axis),
                                ray.direction.spec_get(axis),
                            ),
                            t_split,
                        )
                        &&& after.stack == rest + children_to_visit(
                            item,
                            above_child as usize,
                            t_split,
                            below_is_near(
                                ray.origin.spec_get(axis),
                                ray.direction.spec_get(axis),
                                split_position,
                            ),
                        )
                    }
            },
            NodeView::Leaf { count, start } => {
                &&& after.stack == rest
                &&& exists|candidates: Seq<Option<TriangleHit>>|
                    {
                        &&& candidates.len() == count
                        &&& #[trigger] self.tested(ray, triangle, start as int, candidates)
                        &&& after.nearest == leaf_scan(
                            before.nearest,
                            self.spec_entries(),
                            start as int,
                            candidates,
                        )
                    }
            },
        }
    }

    /// True where `trace` is a whole walk of the tree: it starts at the
    /// root with the part of the ray from `t_min` to `t_max`, no hit and
    /// one lookup counted, goes on node by node, and ends where nothing is
    /// left to visit or a hit lies nearer than the next node.
    pub open spec fn is_walk<
        K: Fn(Scalar, Scalar, Scalar) -> Scalar,
        T: Fn(Ray, Vec3, Vec3, Vec3) -> Option<TriangleHit>,
    >(
        &self,
        ray: Ray,
        along: &K,
        triangle: &T,
        trace: Seq<WalkState>,
        t_min: Scalar,
        t_max: Scalar,
    ) -> bool {
        &&& trace.len() > 0
        &&& trace[0] == (WalkState {
            stack: seq![PendingVisit { node_index: 0, t_min, t_max }],
            nearest: None,
            lookups: 1,
        })
        &&& forall|i: int|
            0 <= i < trace.len() - 1 ==> self.visits(ray, along, triangle, #[trigger] trace[i], trace[i + 1])
        &&& (trace.last().stack.len() == 0 || prunes(
            trace.last().nearest,
            trace.last().stack.last().t_min,
        ))
    }

    /// True where `nearest` and `lookups` are what some walk of the tree
    /// ends with, for plane distances and triangle tests that `along` and
    /// `triangle` can give; and nothing and no lookup where the ray misses
    /// the bounding box.
    pub open spec fn walk_outcome<
        K: Fn(Scalar, Scalar, Scalar) -> Scalar,
        T: Fn(Ray, Vec3, Vec3, Vec3) -> Option<TriangleHit>,
    >(
        &self,
        ray: Ray,
        along: &K,
        triangle: &T,
        nearest: Option<(usize, TriangleHit)>,
        lookups: nat,
    ) -> bool {
        exists|t: (Scalar, Scalar, Scalar, Scalar, Scalar, Scalar)|
            {
                &&& #[trigger] self.spec_bounding_box().plane_distances(ray, along, t)
                &&& match crate::aabb::slab_result(t) {
                    None => nearest is None && lookups == 0,
                    Some((t_min, t_max)) => exists|trace: Seq<WalkState>|
                        {
                            &&& #[trigger] self.is_walk(ray, along, triangle, trace, t_min, t_max)
                            &&& nearest == trace.last().nearest
                            &&& lookups == trace.last().lookups
                        },
                }
            }
    }

    /// Tests the ray against the triangles of one leaf.
    fn scan_leaf<T: Fn(Ray, Vec3, Vec3, Vec3) -> Option<TriangleHit>>(
        &self,
        ray: &Ray,
        start_index: usize,
        triangle_count: usize,
        nearest: Option<(usize, TriangleHit)>,
        triangle: &T,
    ) -> (r: Option<(usize, TriangleHit)>)
        requires
            self.wf(),
            start_index + triangle_count <= self.spec_entries().len(),
            forall|r: Ray, a: Vec3, b: Vec3, c: Vec3| triangle.requires((r, a, b, c)),
            nearest matches Some(found) ==> self.is_hit_of(*ray, triangle, found),
        ensures
            r matches Some(found) ==> self.is_hit_of(*ray, triangle, found),
            exists|candidates: Seq<Option<TriangleHit>>|
                {
                    &&& candidates.len() == triangle_count
                    &&& #[trigger] self.tested(*ray, triangle, start_index as int, candidates)
                    &&& r == leaf_scan(nearest, self.spec_entries(), start_index as int, candidates)
                },
    {
        let entries = self.triangle_indices();
        let data = self.data();
        let entry_count: usize = entries.len();
        let mut nearest_hit = nearest;
        let ghost mut candidates: Seq<Option<TriangleHit>> = Seq::empty();
        let mut k: usize = 0;
        while k < triangle_count
            invariant
                self.wf(),
                entries@ == self.spec_entries(),
                *data == self.spec_data(),
                entry_count == entries@.len(),
                k <= triangle_count,
                start_index + triangle_count <= entry_count,
                forall|r: Ray, a: Vec3, b: Vec3, c: Vec3| triangle.requires((r, a, b, c)),
                nearest_hit matches Some(found) ==> self.is_hit_of(*ray, triangle, found),
                candidates.len() == k,
                self.tested(*ray, triangle, start_index as int, candidates),
                nearest_hit == leaf_scan(nearest, self.spec_entries(), start_index as int, candidates),
            decreases triangle_count - k,
        {
            let triangle_index: usize = entries[start_index + k];
            assert(self.spec_entries()[start_index + k] == triangle_index);
            assert(data.triangles@[triangle_index as int].in_bounds(
                data.vertex_positions@.len() as int,
                data.vertex_normals@.len() as int,
                data.vertex_tex_coords@.len() as int,
            ));
            let indices = data.triangles[triangle_index].position_indices;
            let v0 = data.get_vertex_position(indices.0);
            let v1 = data.get_vertex_position(indices.1);
            let v2 = data.get_vertex_position(indices.2);
            let candidate = triangle(*ray, v0, v1, v2);
            proof {
                let longer = candidates.push(candidate);
                assert(longer.drop_last() =~= candidates);
                assert forall|m: int| 0 <= m < longer.len() implies triangle.ensures(
                    (
                        *ray,
                        corners(self.spec_data(), self.spec_entries()[start_index + m] as int).0,
                        corners(self.spec_data(), self.spec_entries()[start_index + m] as int).1,
                        corners(self.spec_data(), self.spec_entries()[start_index + m] as int).2,
                    ),
                    #[trigger] longer[m],
                ) by {
                    if m < k {
                        assert(longer[m] == candidates[m]);
                    }
                }
                candidates = longer;
            }
            nearest_hit = nearer(nearest_hit, triangle_index, candidate);
            k += 1;
        }
        nearest_hit
    }

    /// Finds the triangle the ray hits first.
    ///
    /// `along(bound, origin, direction)` supplies the distance at which the
    /// ray meets an axis-aligned plane, and `triangle(ray, v0, v1, v2)` the
    /// hit of the ray on one triangle, if any. The walk clips the ray to the
    /// tree's bounding box, then visits nodes nearest first and stops as
    /// soon as a hit lies nearer than the next node. Returns the index of
    /// the nearest triangle hit together with the hit. In a tree built for
    /// inspection, the number of node lookups is added to `debug_data`.
    pub fn intersect<
        K: Fn(Scalar, Scalar, Scalar) -> Scalar,
        T: Fn(Ray, Vec3, Vec3, Vec3) -> Option<TriangleHit>,
    >(&self, ray: &Ray, debug_data: &mut RayDebugData, along: &K, triangle: &T) -> (nearest: Option<
        (usize, TriangleHit),
    >)
        requires
            self.wf(),
            forall|a: Scalar, b: Scalar, c: Scalar| along.requires((a, b, c)),
            forall|r: Ray, a: Vec3, b: Vec3, c: Vec3| triangle.requires((r, a, b, c)),
            self.spec_debug() ==> old(debug_data).kd_tree_lookups + self.spec_nodes().len() + 1
                <= usize::MAX,
        ensures
            exists|lookups: nat|
                {
                    &&& #[trigger] self.walk_outcome(*ray, along, triangle, nearest, lookups)
                    &&& final(debug_data).kd_tree_lookups == old(debug_data).kd_tree_lookups + if self.spec_debug() {
                        lookups
                    } else {
                        0
                    }
                },
            nearest matches Some(found) ==> self.is_hit_of(*ray, triangle, found),
            nearest is Some ==> self.spec_bounding_box().may_meet(*ray, along),
            !self.spec_debug() ==> *final(debug_data) == *old(debug_data),
            self.spec_debug() ==> old(debug_data).kd_tree_lookups
                <= final(debug_data).kd_tree_lookups <= old(debug_data).kd_tree_lookups
                + self.spec_nodes().len() + 1,
    {
        let found = self.walk(ray, along, triangle);
        if self.debug() {
            debug_data.kd_tree_lookups = debug_data.kd_tree_lookups + found.1;
        }
        assert(self.walk_outcome(*ray, along, triangle, found.0, found.1 as nat));
        found.0
    }

    /// Walks the tree along the ray and returns the nearest hit together
    /// with the number of node lookups counted.
    pub fn walk<
        K: Fn(Scalar, Scalar, Scalar) -> Scalar,
        T: Fn(Ray, Vec3, Vec3, Vec3) -> Option<TriangleHit>,
    >(&self, ray: &Ray, along: &K, triangle: &T) -> (found: (Option<(usize, TriangleHit)>, usize))
        requires
            self.wf(),
            forall|a: Scalar, b: Scalar, c: Scalar| along.requires((a, b, c)),
            forall|r: Ray, a: Vec3, b: Vec3, c: Vec3| triangle.requires((r, a, b, c)),
        ensures
            self.walk_outcome(*ray, along, triangle, found.0, found.1 as nat),
            found.0 matches Some(hit) ==> self.is_hit_of(*ray, triangle, hit),
            found.0 is Some ==> self.spec_bounding_box().may_meet(*ray, along),
            found.1 <= self.spec_nodes().len() + 1,
    {
        let bounding_box = self.bounding_box();
        let clipped = bounding_box.intersects_p(ray, along);
        let ghost distances = choose|t: (Scalar, Scalar, Scalar, Scalar, Scalar, Scalar)|
            #[trigger] bounding_box.plane_distances(*ray, along, t) && clipped
                == crate::aabb::slab_result(t);
        let (bb_t_min, bb_t_max) = match clipped {
            Some(interval) => interval,
            None => {
                assert(self.walk_outcome(*ray, along, triangle, None, 0));
                return (None, 0);
            },
        };
        let nodes = self.nodes();
        let node_count: usize = nodes.len();
        let entry_count: usize = self.triangle_indices().len();

        let mut visit_stack: Vec<PendingVisit> = Vec::with_capacity(self.intersect_stack_capacity());
        visit_stack.push(PendingVisit { node_index: 0, t_min: bb_t_min, t_max: bb_t_max });
        let ghost mut ends: Seq<int> = seq![node_count as int];
        let mut nearest_hit: Option<(usize, TriangleHit)> = None;
        // Number of nodes looked up, for inspection.
        let mut lookups: usize = 1;
        let ghost start = WalkState { stack: visit_stack@, nearest: None, lookups: 1 };
        let ghost mut trace: Seq<WalkState> = seq![start];
        proof {
            lemma_pending_push(Seq::empty(), Seq::empty(), visit_stack@[0], node_count as int);
            assert(visit_stack@ =~= Seq::<PendingVisit>::empty().push(visit_stack@[0]));
            assert(ends =~= Seq::<int>::empty().push(node_count as int));
            assert(visit_stack@ =~= seq![
                PendingVisit { node_index: 0, t_min: bb_t_min, t_max: bb_t_max },
            ]);
        }

        while visit_stack.len() > 0
            invariant_except_break
                trace.last().stack == visit_stack@,
            invariant
                self.wf(),
                nodes@ == self.spec_nodes(),
                node_count == nodes@.len(),
                entry_count == self.spec_entries().len(),
                forall|r: Ray, a: Vec3, b: Vec3, c: Vec3| triangle.requires((r, a, b, c)),
                forall|a: Scalar, b: Scalar, c: Scalar| along.requires((a, b, c)),
                ends.len() == visit_stack@.len(),
                forall|i: int|
                    0 <= i < visit_stack@.len() ==> is_subtree(
                        nodes@,
                        entry_count as int,
                        (#[trigger] visit_stack@[i]).node_index as int,
                        ends[i],
                    ),
                1 <= lookups,
                pending(visit_stack@, ends) + lookups <= node_count + 1,
                nearest_hit matches Some(found) ==> self.is_hit_of(*ray, triangle, found),
                trace.len() > 0,
                trace[0] == start,
                forall|i: int|
                    0 <= i < trace.len() - 1 ==> self.visits(
                        *ray,
                        along,
                        triangle,
                        #[trigger] trace[i],
                        trace[i + 1],
                    ),
                trace.last().nearest == nearest_hit,
                trace.last().lookups == lookups,
            ensures
                trace.last().stack.len() == 0 || prunes(
                    trace.last().nearest,
                    trace.last().stack.last().t_min,
                ),
            decreases pending(visit_stack@, ends),
        {
            let ghost stack_before = visit_stack@;
            let ghost ends_before = ends;
            let ghost before = trace.last();
            let item = visit_stack.pop().unwrap();
            let ghost end = ends.last();
            proof {
                ends = ends.drop_last();
                assert(is_subtree(
                    nodes@,
                    entry_count as int,
                    stack_before[stack_before.len() - 1].node_index as int,
                    ends_before[stack_before.len() - 1],
                ));
                assert(visit_stack@ =~= stack_before.drop_last());
                assert forall|i: int| 0 <= i < visit_stack@.len() implies is_subtree(
                    nodes@,
                    entry_count as int,
                    (#[trigger] visit_stack@[i]).node_index as int,
                    ends[i],
                ) by {
                    assert(visit_stack@[i] == stack_before[i]);
                }
                assert(pending(stack_before, ends_before) == pending(visit_stack@, ends) + end
                    - item.node_index);
                lemma_pending_nonnegative(visit_stack@, ends, nodes@, entry_count as int);
            }
            // Stop where this node lies behind the nearest hit found so far.
            if can_stop(&nearest_hit, item.t_min) {
                break;
            }
            lookups += 1;

            let node_index: usize = item.node_index;
            let node = &nodes[node_index];
            if node.is_inner() {
                let above_child_index: usize = node.above_child_index() as usize;
                let split_axis = node.split_axis();
                let split_position = node.split_position();
                let origin_position = ray.origin.get(split_axis);
                let direction = ray.direction.get(split_axis);
                // Distance at which the ray crosses the split plane.
                let t_split = along(split_position, origin_position, direction);
                let near_below = below_first(origin_position, direction, split_position);
                let ghost popped = visit_stack@;
                descend(&mut visit_stack, item, above_child_index, t_split, near_below);
                proof {
                    let pushed = children_to_visit(item, above_child_index, t_split, near_below);
                    lemma_children_pending(
                        popped,
                        ends,
                        item,
                        above_child_index,
                        t_split,
                        near_below,
                        end,
                        nodes@,
                        entry_count as int,
                    );
                    ends = ends_after(ends, item, above_child_index, t_split, near_below, end);
                    let after = WalkState {
                        stack: visit_stack@,
                        nearest: nearest_hit,
                        lookups: lookups as nat,
                    };
                    assert(self.visits(*ray, along, triangle, before, after));
                    lemma_trace_push(trace, after);
                    assert forall|i: int| 0 <= i < trace.push(after).len() - 1 implies self.visits(
                        *ray,
                        along,
                        triangle,
                        #[trigger] trace.push(after)[i],
                        trace.push(after)[i + 1],
                    ) by {
                        if i < trace.len() - 1 {
                            assert(self.visits(*ray, along, triangle, trace[i], trace[i + 1]));
                        }
                    }
                    trace = trace.push(after);
                }
            } else {
                let start_index: usize = node.triangles_start_index() as usize;
                let triangle_count: usize = node.triangle_count() as usize;
                let ghost nearest_before = nearest_hit;
                // Test the ray against every triangle of this leaf.
                nearest_hit = self.scan_leaf(ray, start_index, triangle_count, nearest_hit, triangle);
                proof {
                    let after = WalkState {
                        stack: visit_stack@,
                        nearest: nearest_hit,
                        lookups: lookups as nat,
                    };
                    assert(self.visits(*ray, along, triangle, before, after));
                    lemma_trace_push(trace, after);
                    assert forall|i: int| 0 <= i < trace.push(after).len() - 1 implies self.visits(
                        *ray,
                        along,
                        triangle,
                        #[trigger] trace.push(after)[i],
                        trace.push(after)[i + 1],
                    ) by {
                        if i < trace.len() - 1 {
                            assert(self.visits(*ray, along, triangle, trace[i], trace[i + 1]));
                        }
                    }
                    trace = trace.push(after);
                }
            }
            proof {
                lemma_pending_nonnegative(visit_stack@, ends, nodes@, entry_count as int);
            }
        }
        proof {
            lemma_pending_nonnegative(visit_stack@, ends, nodes@, entry_count as int);
            assert(self.is_walk(*ray, along, triangle, trace, bb_t_min, bb_t_max));
            assert(bounding_box.plane_distances(*ray, along, distances));
            assert(self.walk_outcome(*ray, along, triangle, nearest_hit, lookups as nat));
        }
        (nearest_hit, lookups)
    }
}

/// Throughout a walk the stack stays ordered, as long as the part of the
/// ray the walk starts with is an interval of numbers and every distance
/// to a split plane is a number. With `lemma_ordered_pruning` this is why
/// a walk may stop at the first node that lies behind a hit: all nodes
/// left on the stack lie behind it too.
pub proof fn lemma_walk_stays_ordered<
    K: Fn(Scalar, Scalar, Scalar) -> Scalar,
    T: Fn(Ray, Vec3, Vec3, Vec3) -> Option<TriangleHit>,
>(
    tree: &LinearKDTree,
    ray: Ray,
    along: &K,
    triangle: &T,
    trace: Seq<WalkState>,
    t_min: Scalar,
    t_max: Scalar,
    i: int,
)
    requires
        tree.is_walk(ray, along, triangle, trace, t_min, t_max),
        t_min.spec_le(t_max),
        forall|a: Scalar, b: Scalar, c: Scalar, r: Scalar| along.ensures((a, b, c), r) ==> !r.nan(),
        0 <= i < trace.len(),
    ensures
        ordered_stack(trace[i].stack),
    decreases i,
{
    if i > 0 {
        lemma_walk_stays_ordered(tree, ray, along, triangle, trace, t_min, t_max, i - 1);
        let before = trace[i - 1];
        let after = trace[i];
        assert(tree.visits(ray, along, triangle, before, trace[i - 1 + 1]));
        let item = before.stack.last();
        let rest = before.stack.drop_last();
        assert(rest.push(item) =~= before.stack);
        match tree.spec_nodes()[item.node_index as int]@ {
            NodeView::Inner { axis, above_child, split_position } => {
                let t_split = choose|t_split: Scalar|
                    {
                        &&& #[trigger] along.ensures(
                            (
                                split_position,
                                ray.origin.spec_get(axis),
                                ray.direction.spec_get(axis),
                            ),
                            t_split,
                        )
                        &&& after.stack == rest + children_to_visit(
                            item,
                            above_child as usize,
                            t_split,
                            below_is_near(
                                ray.origin.spec_get(axis),
                                ray.direction.spec_get(axis),
                                split_position,
                            ),
                        )
                    };
                lemma_descend_keeps_order(
                    rest,
                    item,
                    above_child as usize,
                    t_split,
                    below_is_near(
                        ray.origin.spec_get(axis),
                        ray.direction.spec_get(axis),
                        split_position,
                    ),
                );
            },
            NodeView::Leaf { .. } => {
                assert forall|a: int, b: int| 0 <= a < b < rest.len() implies (
                #[trigger] rest[b]).t_max.spec_le((#[trigger] rest[a]).t_min) by {
                    assert(before.stack[a] == rest[a] && before.stack[b] == rest[b]);
                }
                assert forall|a: int| 0 <= a < rest.len() implies (#[trigger] rest[a]).t_min.spec_le(
                    rest[a].t_max,
                ) by {
                    assert(before.stack[a] == rest[a]);
                }
            },
        }
    }
}

/// The ends of the subtrees on the stack after an inner node has left its
/// children there: the child below ends where the child above begins, the
/// child above where their parent ends.
pub open spec fn ends_after(
    ends: Seq<int>,
    item: PendingVisit,
    above_child: usize,
    t_split: Scalar,
    below_first: bool,
    end: int,
) -> Seq<int> {
    let pushed = children_to_visit(item, above_child, t_split, below_first);
    let below = (item.node_index + 1) as usize;
    ends + pushed.map_values(
        |c: PendingVisit|
            if c.node_index == below {
                above_child as int
            } else {
                end
            },
    )
}

proof fn lemma_trace_push(trace: Seq<WalkState>, after: WalkState)
    requires
        trace.len() > 0,
    ensures
        trace.push(after).len() == trace.len() + 1,
        trace.push(after).last() == after,
        trace.push(after)[0] == trace[0],
        forall|i: int| 0 <= i < trace.len() ==> trace.push(after)[i] == trace[i],
{
}

/// The children an inner node leaves on the stack are subtrees, and they
/// hold fewer nodes than their parent did.
proof fn lemma_children_pending(
    popped: Seq<PendingVisit>,
    ends: Seq<int>,
    item: PendingVisit,
    above_child: usize,
    t_split: Scalar,
    below_first: bool,
    end: int,
    nodes: Seq<crate::node::LinearKDTreeNode>,
    entries: int,
)
    requires
        popped.len() == ends.len(),
        item.node_index < usize::MAX,
        is_subtree(nodes, entries, item.node_index as int, end),
        nodes[item.node_index as int]@ is Inner,
        nodes[item.node_index as int]@->above_child == above_child,
        forall|i: int|
            0 <= i < popped.len() ==> is_subtree(
                nodes,
                entries,
                (#[trigger] popped[i]).node_index as int,
                ends[i],
            ),
    ensures
        ({
            let stack = popped + children_to_visit(item, above_child, t_split, below_first);
            let new_ends = ends_after(ends, item, above_child, t_split, below_first, end);
            &&& new_ends.len() == stack.len()
            &&& pending(stack, new_ends) <= pending(popped, ends) + end - item.node_index - 1
            &&& forall|i: int|
                0 <= i < stack.len() ==> is_subtree(
                    nodes,
                    entries,
                    (#[trigger] stack[i]).node_index as int,
                    new_ends[i],
                )
        }),
{
    let pushed = children_to_visit(item, above_child, t_split, below_first);
    let stack = popped + pushed;
    let new_ends = ends_after(ends, item, above_child, t_split, below_first, end);
    let mid = above_child as int;
    let below = (item.node_index + 1) as usize;
    let end_of = |c: PendingVisit|
        if c.node_index == below {
            mid
        } else {
            end
        };
    if pushed.len() == 1 {
        assert(pushed =~= seq![pushed[0]]);
        assert(stack =~= popped.push(pushed[0]));
        assert(new_ends =~= ends.push(end_of(pushed[0])));
        lemma_pending_push(popped, ends, pushed[0], end_of(pushed[0]));
    } else {
        assert(pushed =~= seq![pushed[0], pushed[1]]);
        assert(stack =~= popped.push(pushed[0]).push(pushed[1]));
        assert(new_ends =~= ends.push(end_of(pushed[0])).push(end_of(pushed[1])));
        lemma_pending_push(popped, ends, pushed[0], end_of(pushed[0]));
        lemma_pending_push(
            popped.push(pushed[0]),
            ends.push(end_of(pushed[0])),
            pushed[1],
            end_of(pushed[1]),
        );
    }
    assert forall|i: int| 0 <= i < stack.len() implies is_subtree(
        nodes,
        entries,
        (#[trigger] stack[i]).node_index as int,
        new_ends[i],
    ) by {
        if i < popped.len() {
            assert(stack[i] == popped[i]);
        }
    }
}

} // verus!
