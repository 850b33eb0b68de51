//! Building the linear k-d tree.

use vstd::prelude::*;
use vstd::arithmetic::power2::pow2;
use crate::aabb::AABB;
use crate::kdtree::{
    bounds_of, depth_of, extends, is_subtree, leaf_holds, leaf_total, lemma_packed_frame,
    lemma_subtree_frame, packed, same_nodes, stack_capacity, stack_capacity_for, LinearKDTree,
    FORMAT_LIMIT,
};
use crate::depth::{default_max_depth, is_default_depth};
use crate::mesh::MeshData;
use crate::math_util::Axis;
use crate::node::{LinearKDTreeNode, NodeView, MAX_PAYLOAD};
use crate::scalar::Scalar;

verus! {

/// How to build a tree.
#[derive(Clone, Copy, Debug)]
pub struct KDTreeOptions {
    /// Greatest number of splits above any leaf; `None` derives it from the
    /// number of triangles.
    pub max_depth: Option<usize>,
    /// A node with no more triangles than this is not split further.
    pub max_leaf_size: usize,
    pub debug: bool,
}

impl Default for KDTreeOptions {
    fn default() -> (options: KDTreeOptions)
        ensures
            options.max_depth is None,
            options.max_leaf_size == 16,
            !options.debug,
    {
        KDTreeOptions { max_depth: None, max_leaf_size: 16, debug: false }
    }
}

/// One end of a triangle's bounding box, projected onto an axis.
#[derive(Clone, Copy, Debug)]
pub struct BoundEdge {
    pub position: Scalar,
    pub triangle_index: usize,
    pub is_end: bool,
}

/// The edge at which the box of triangle `t` begins or ends along `axis`.
pub open spec fn edge_of(boxes: Seq<AABB>, axis: Axis, t: usize, is_end: bool) -> BoundEdge {
    BoundEdge {
        position: if is_end {
            boxes[t as int].max.spec_get(axis)
        } else {
            boxes[t as int].min.spec_get(axis)
        },
        triangle_index: t,
        is_end,
    }
}

/// Number of edges in `edges` that are ends (`is_end`) or beginnings.
pub open spec fn count_kind(edges: Seq<BoundEdge>, is_end: bool) -> nat
    decreases edges.len(),
{
    if edges.len() == 0 {
        0
    } else {
        count_kind(edges.drop_last(), is_end) + if edges.last().is_end == is_end {
            1nat
        } else {
            0nat
        }
    }
}

/// Edges in ascending order of position.
pub open spec fn sorted_by_position(edges: Seq<BoundEdge>) -> bool {
    forall|i: int, j: int|
        0 <= i <= j < edges.len() ==> edges[i].position.key() <= edges[j].position.key()
}

/// The triangles of the edges that are ends (`is_end`) or beginnings, in
/// the order of the edges.
pub open spec fn triangles_of_kind(edges: Seq<BoundEdge>, is_end: bool) -> Seq<usize>
    decreases edges.len(),
{
    if edges.len() == 0 {
        Seq::empty()
    } else {
        let rest = triangles_of_kind(edges.drop_last(), is_end);
        if edges.last().is_end == is_end {
            rest.push(edges.last().triangle_index)
        } else {
            rest
        }
    }
}

/// The two edges of every triangle in `active` along `axis`: for each
/// triangle its beginning, then its end.
pub open spec fn edges_of(boxes: Seq<AABB>, axis: Axis, active: Seq<usize>) -> Seq<BoundEdge> {
    Seq::new(2 * active.len(), |i: int| edge_of(boxes, axis, active[i / 2], i % 2 == 1))
}

/// First index at or after `i` of an edge that lies beyond `split`, or the
/// number of edges.
pub open spec fn cut_of(edges: Seq<BoundEdge>, split: Scalar, i: int) -> int
    decreases edges.len() - i,
{
    if 0 <= i < edges.len() && edges[i].position.spec_le(split) {
        cut_of(edges, split, i + 1)
    } else {
        i
    }
}

/// The triangles below the split: those whose beginning is met before the
/// first edge beyond the split.
pub open spec fn below_split(sorted: Seq<BoundEdge>, split: Scalar) -> Seq<usize> {
    triangles_of_kind(sorted.subrange(0, cut_of(sorted, split, 0)), false)
}

/// The triangles above the split: those whose end is met from the first
/// edge beyond the split on.
pub open spec fn above_split(sorted: Seq<BoundEdge>, split: Scalar) -> Seq<usize> {
    triangles_of_kind(sorted.subrange(cut_of(sorted, split, 0), sorted.len() as int), true)
}

proof fn lemma_triangles_push(edges: Seq<BoundEdge>, e: BoundEdge, is_end: bool)
    ensures
        triangles_of_kind(edges.push(e), is_end) == if e.is_end == is_end {
            triangles_of_kind(edges, is_end).push(e.triangle_index)
        } else {
            triangles_of_kind(edges, is_end)
        },
        triangles_of_kind(edges, is_end).len() == count_kind(edges, is_end),
    decreases edges.len(),
{
    assert(edges.push(e).drop_last() =~= edges);
    if edges.len() > 0 {
        lemma_triangles_push(edges.drop_last(), edges.last(), is_end);
        assert(edges.drop_last().push(edges.last()) =~= edges);
    }
}

proof fn lemma_count_push(edges: Seq<BoundEdge>, e: BoundEdge, is_end: bool)
    ensures
        count_kind(edges.push(e), is_end) == count_kind(edges, is_end) + if e.is_end == is_end {
            1nat
        } else {
            0nat
        },
{
    assert(edges.push(e).drop_last() =~= edges);
}

proof fn lemma_count_concat(a: Seq<BoundEdge>, b: Seq<BoundEdge>, is_end: bool)
    ensures
        count_kind(a + b, is_end) == count_kind(a, is_end) + count_kind(b, is_end),
    decreases b.len(),
{
    if b.len() == 0 {
        assert(a + b =~= a);
    } else {
        assert((a + b).drop_last() =~= a + b.drop_last());
        lemma_count_concat(a, b.drop_last(), is_end);
    }
}

/// No part of a sequence holds more edges of a kind than the whole.
proof fn lemma_count_range(edges: Seq<BoundEdge>, from: int, to: int, is_end: bool)
    requires
        0 <= from <= to <= edges.len(),
    ensures
        count_kind(edges.subrange(from, to), is_end) <= count_kind(edges, is_end),
{
    let head = edges.subrange(0, from);
    let body = edges.subrange(from, to);
    let tail = edges.subrange(to, edges.len() as int);
    assert(edges =~= (head + body) + tail);
    lemma_count_concat(head + body, tail, is_end);
    lemma_count_concat(head, body, is_end);
}

proof fn lemma_count_remove(edges: Seq<BoundEdge>, j: int, is_end: bool)
    requires
        0 <= j < edges.len(),
    ensures
        count_kind(edges, is_end) == count_kind(edges.remove(j), is_end) + if edges[j].is_end
            == is_end {
            1nat
        } else {
            0nat
        },
    decreases edges.len(),
{
    if j == edges.len() - 1 {
        assert(edges.remove(j) =~= edges.drop_last());
    } else {
        lemma_count_remove(edges.drop_last(), j, is_end);
        assert(edges.remove(j).drop_last() =~= edges.drop_last().remove(j));
        assert(edges.remove(j).last() == edges.last());
    }
}

/// Reordering edges changes neither count.
proof fn lemma_count_permuted(a: Seq<BoundEdge>, b: Seq<BoundEdge>, is_end: bool)
    requires
        a.to_multiset() == b.to_multiset(),
    ensures
        count_kind(a, is_end) == count_kind(b, is_end),
    decreases a.len(),
{
    broadcast use vstd::seq_lib::group_to_multiset_ensures;

    a.to_multiset_ensures();
    b.to_multiset_ensures();
    if a.len() == 0 {
        assert(a.to_multiset().len() == 0);
        assert(b.len() == 0);
    } else {
        let x = a.last();
        assert(a.contains(x));
        assert(b.to_multiset().count(x) > 0);
        assert(b.contains(x));
        let j = choose|j: int| 0 <= j < b.len() && b[j] == x;
        assert(a.remove(a.len() - 1) =~= a.drop_last());
        assert(a.drop_last().to_multiset() == b.remove(j).to_multiset());
        lemma_count_permuted(a.drop_last(), b.remove(j), is_end);
        lemma_count_remove(b, j, is_end);
    }
}

/// Sorts the edges by position with `slice::sort_unstable_by_key`: the
/// result holds the same edges, in ascending order of their keys.
#[verifier::external_body]
fn sort_edges(edges: &mut Vec<BoundEdge>)
    ensures
        final(edges)@.len() == old(edges)@.len(),
        final(edges)@.to_multiset() == old(edges)@.to_multiset(),
        sorted_by_position(final(edges)@),
{
    edges.sort_unstable_by_key(|edge| edge.position.ordered_key());
}

/// The triangles a node works on: the first `n` entries of the buffer of
/// triangles below the parent's split, or `n` entries of the buffer of
/// triangles above it, from `offset` on.
pub open spec fn active_set(
    below: Seq<usize>,
    above: Seq<usize>,
    offset: int,
    is_above: bool,
    n: int,
) -> Seq<usize> {
    if is_above {
        above.subrange(offset, offset + n)
    } else {
        below.subrange(0, n)
    }
}

/// Fills `edges` with the two edges of every active triangle along `axis`.
fn collect_edges(
    edges: &mut Vec<BoundEdge>,
    below: &Vec<usize>,
    above: &Vec<usize>,
    offset: usize,
    is_above: bool,
    n: usize,
    boxes: &Vec<AABB>,
    axis: Axis,
)
    requires
        n <= below@.len(),
        offset + n <= above@.len(),
        forall|k: int|
            0 <= k < n ==> (#[trigger] active_set(below@, above@, offset as int, is_above, n as int)[k])
                < boxes@.len(),
    ensures
        final(edges)@.len() == 2 * n,
        forall|k: int|
            #![trigger active_set(below@, above@, offset as int, is_above, n as int)[k]]
            0 <= k < n ==> {
                let t = active_set(below@, above@, offset as int, is_above, n as int)[k];
                &&& final(edges)@[2 * k] == edge_of(boxes@, axis, t, false)
                &&& final(edges)@[2 * k + 1] == edge_of(boxes@, axis, t, true)
            },
        count_kind(final(edges)@, false) == n,
        count_kind(final(edges)@, true) == n,
        final(edges)@ == edges_of(
            boxes@,
            axis,
            active_set(below@, above@, offset as int, is_above, n as int),
        ),
{
    edges.clear();
    let ghost active = active_set(below@, above@, offset as int, is_above, n as int);
    let above_len: usize = above.len();
    let mut k: usize = 0;
    while k < n
        invariant
            k <= n,
            above_len == above@.len(),
            n <= below@.len(),
            offset + n <= above@.len(),
            active == active_set(below@, above@, offset as int, is_above, n as int),
            forall|k: int| 0 <= k < n ==> (#[trigger] active[k]) < boxes@.len(),
            edges@.len() == 2 * k,
            forall|m: int|
                #![trigger active[m]]
                0 <= m < k ==> {
                    &&& edges@[2 * m] == edge_of(boxes@, axis, active[m], false)
                    &&& edges@[2 * m + 1] == edge_of(boxes@, axis, active[m], true)
                },
            count_kind(edges@, false) == k,
            count_kind(edges@, true) == k,
        decreases n - k,
    {
        let triangle_index: usize = if is_above {
            above[offset + k]
        } else {
            below[k]
        };
        assert(triangle_index == active[k as int]);
        let bounding_box = &boxes[triangle_index];
        let begin = BoundEdge {
            position: bounding_box.min.get(axis),
            triangle_index,
            is_end: false,
        };
        let end = BoundEdge { position: bounding_box.max.get(axis), triangle_index, is_end: true };
        proof {
            lemma_count_push(edges@, begin, false);
            lemma_count_push(edges@, begin, true);
            lemma_count_push(edges@.push(begin), end, false);
            lemma_count_push(edges@.push(begin), end, true);
        }
        edges.push(begin);
        edges.push(end);
        k += 1;
    }
    proof {
        let wanted = edges_of(boxes@, axis, active);
        assert(edges@.len() == wanted.len());
        assert forall|i: int| 0 <= i < edges@.len() implies edges@[i] == wanted[i] by {
            let m = i / 2;
            assert(0 <= m < n);
            let t = active[m];
            if i % 2 == 0 {
                assert(edges@[2 * m] == edge_of(boxes@, axis, t, false));
            } else {
                assert(edges@[2 * m + 1] == edge_of(boxes@, axis, t, true));
            }
        }
        assert(edges@ =~= wanted);
    }
}

/// Walks the sorted edges and sorts the triangles to the two sides of
/// `split`. A triangle goes below when its box begins at or before the
/// split: its beginning is met while positions do not exceed the split. It
/// goes above when its end is met after that. Returns the number of
/// triangles written to `below` (from its start) and to `above` (from
/// `offset`), and the number of edges that did not exceed the split.
fn partition(
    edges: &Vec<BoundEdge>,
    split: Scalar,
    below: &mut Vec<usize>,
    above: &mut Vec<usize>,
    offset: usize,
    Ghost(limit): Ghost<int>,
) -> (counts: (usize, usize, usize))
    requires
        count_kind(edges@, false) <= old(below)@.len(),
        offset + count_kind(edges@, true) <= old(above)@.len(),
        forall|j: int| 0 <= j < edges@.len() ==> (#[trigger] edges@[j]).triangle_index < limit,
    ensures
        final(below)@.len() == old(below)@.len(),
        final(above)@.len() == old(above)@.len(),
        counts.0 <= count_kind(edges@, false),
        counts.1 <= count_kind(edges@, true),
        counts.2 <= edges@.len(),
        forall|i: int| 0 <= i < offset ==> final(above)@[i] == old(above)@[i],
        forall|j: int| 0 <= j < counts.2 ==> (#[trigger] edges@[j]).position.spec_le(split),
        counts.2 < edges@.len() ==> !edges@[counts.2 as int].position.spec_le(split),
        forall|j: int|
            0 <= j < counts.2 && !(#[trigger] edges@[j]).is_end ==> exists|m: int|
                0 <= m < counts.0 && #[trigger] final(below)@[m] == edges@[j].triangle_index,
        forall|j: int|
            counts.2 <= j < edges@.len() && (#[trigger] edges@[j]).is_end ==> exists|m: int|
                0 <= m < counts.1 && #[trigger] final(above)@[offset + m]
                    == edges@[j].triangle_index,
        forall|m: int| 0 <= m < counts.0 ==> (#[trigger] final(below)@[m]) < limit,
        forall|m: int| 0 <= m < counts.1 ==> (#[trigger] final(above)@[offset + m]) < limit,
        counts.2 == cut_of(edges@, split, 0),
        final(below)@.subrange(0, counts.0 as int) == below_split(edges@, split),
        final(above)@.subrange(offset as int, offset + counts.1) == above_split(edges@, split),
{
    let below_len: usize = below.len();
    let above_len: usize = above.len();
    let mut n_below: usize = 0;
    let mut n_above: usize = 0;
    let mut i: usize = 0;
    assert(edges@.subrange(0, 0) =~= Seq::<BoundEdge>::empty());
    while i < edges.len() && edges[i].position.le(split)
        invariant
            i <= edges@.len(),
            below@.len() == old(below)@.len(),
            below@.len() == below_len,
            n_below <= below_len,
            count_kind(edges@, false) <= below@.len(),
            n_below == count_kind(edges@.subrange(0, i as int), false),
            below@.subrange(0, n_below as int) =~= triangles_of_kind(
                edges@.subrange(0, i as int),
                false,
            ),
            cut_of(edges@, split, 0) == cut_of(edges@, split, i as int),
            forall|j: int| 0 <= j < edges@.len() ==> (#[trigger] edges@[j]).triangle_index < limit,
            forall|j: int| 0 <= j < i ==> (#[trigger] edges@[j]).position.spec_le(split),
            forall|j: int|
                0 <= j < i && !(#[trigger] edges@[j]).is_end ==> exists|m: int|
                    0 <= m < n_below && #[trigger] below@[m] == edges@[j].triangle_index,
            forall|m: int| 0 <= m < n_below ==> (#[trigger] below@[m]) < limit,
        decreases edges@.len() - i,
    {
        proof {
            assert(edges@.subrange(0, i + 1) =~= edges@.subrange(0, i as int).push(edges@[i as int]));
            lemma_count_push(edges@.subrange(0, i as int), edges@[i as int], false);
            lemma_triangles_push(edges@.subrange(0, i as int), edges@[i as int], false);
            lemma_count_range(edges@, 0, i + 1, false);
        }
        if !edges[i].is_end {
            let ghost before = below@;
            below[n_below] = edges[i].triangle_index;
            proof {
                assert forall|j: int| 0 <= j < i + 1 && !(#[trigger] edges@[j]).is_end implies exists|
                    m: int,
                |
                    0 <= m < n_below + 1 && #[trigger] below@[m] == edges@[j].triangle_index by {
                    if j < i {
                        let m = choose|m: int|
                            0 <= m < n_below && #[trigger] before[m] == edges@[j].triangle_index;
                        assert(below@[m] == edges@[j].triangle_index);
                    } else {
                        assert(below@[n_below as int] == edges@[j].triangle_index);
                    }
                }
            }
            n_below += 1;
        }
        i += 1;
    }
    let cut: usize = i;
    assert(edges@.subrange(cut as int, cut as int) =~= Seq::<BoundEdge>::empty());
    let ghost below_done = below@;
    while i < edges.len()
        invariant
            cut <= i <= edges@.len(),
            above@.len() == old(above)@.len(),
            above@.len() == above_len,
            offset + n_above <= above_len,
            offset + count_kind(edges@, true) <= above@.len(),
            n_above == count_kind(edges@.subrange(cut as int, i as int), true),
            above@.subrange(offset as int, offset + n_above) =~= triangles_of_kind(
                edges@.subrange(cut as int, i as int),
                true,
            ),
            forall|j: int| 0 <= j < edges@.len() ==> (#[trigger] edges@[j]).triangle_index < limit,
            forall|k: int| 0 <= k < offset ==> above@[k] == old(above)@[k],
            forall|j: int|
                cut <= j < i && (#[trigger] edges@[j]).is_end ==> exists|m: int|
                    0 <= m < n_above && #[trigger] above@[offset + m] == edges@[j].triangle_index,
            forall|m: int| 0 <= m < n_above ==> (#[trigger] above@[offset + m]) < limit,
        decreases edges@.len() - i,
    {
        proof {
            assert(edges@.subrange(cut as int, i + 1) =~= edges@.subrange(cut as int, i as int).push(
                edges@[i as int],
            ));
            lemma_count_push(edges@.subrange(cut as int, i as int), edges@[i as int], true);
            lemma_triangles_push(edges@.subrange(cut as int, i as int), edges@[i as int], true);
            lemma_count_range(edges@, cut as int, i + 1, true);
        }
        if edges[i].is_end {
            let ghost before = above@;
            above[offset + n_above] = edges[i].triangle_index;
            proof {
                assert forall|j: int| cut <= j < i + 1 && (#[trigger] edges@[j]).is_end implies exists|
                    m: int,
                |
                    0 <= m < n_above + 1 && #[trigger] above@[offset + m]
                        == edges@[j].triangle_index by {
                    if j < i {
                        let m = choose|m: int|
                            0 <= m < n_above && #[trigger] before[offset + m]
                                == edges@[j].triangle_index;
                        assert(above@[offset + m] == edges@[j].triangle_index);
                    } else {
                        assert(above@[offset + n_above] == edges@[j].triangle_index);
                    }
                }
                assert forall|m: int| 0 <= m < n_above + 1 implies (#[trigger] above@[offset + m])
                    < limit by {
                    if m < n_above {
                        assert(before[offset + m] < limit);
                    }
                }
            }
            n_above += 1;
        }
        i += 1;
    }
    proof {
        lemma_count_range(edges@, 0, cut as int, false);
        lemma_count_range(edges@, cut as int, edges@.len() as int, true);
        assert(below@ == below_done);
    }
    (n_below, n_above, cut)
}

/// After sorting, the edges are still those of the active triangles.
proof fn lemma_sorted_edges(
    built: Seq<BoundEdge>,
    sorted: Seq<BoundEdge>,
    boxes: Seq<AABB>,
    axis: Axis,
    active: Seq<usize>,
)
    requires
        built.len() == 2 * active.len(),
        forall|k: int|
            #![trigger active[k]]
            0 <= k < active.len() ==> {
                &&& active[k] < boxes.len()
                &&& boxes[active[k] as int].ordered()
                &&& built[2 * k] == edge_of(boxes, axis, active[k], false)
                &&& built[2 * k + 1] == edge_of(boxes, axis, active[k], true)
            },
        sorted.to_multiset() == built.to_multiset(),
    ensures
        sorted.len() == built.len(),
        forall|j: int|
            0 <= j < sorted.len() ==> (#[trigger] sorted[j]).triangle_index < boxes.len()
                && !sorted[j].position.nan(),
        forall|k: int|
            #![trigger active[k]]
            0 <= k < active.len() ==> sorted.contains(edge_of(boxes, axis, active[k], false))
                && sorted.contains(edge_of(boxes, axis, active[k], true)),
        count_kind(sorted, false) == count_kind(built, false),
        count_kind(sorted, true) == count_kind(built, true),
{
    broadcast use vstd::seq_lib::group_to_multiset_ensures;

    sorted.to_multiset_ensures();
    built.to_multiset_ensures();
    lemma_count_permuted(sorted, built, false);
    lemma_count_permuted(sorted, built, true);
    assert forall|j: int| 0 <= j < sorted.len() implies (#[trigger] sorted[j]).triangle_index
        < boxes.len() && !sorted[j].position.nan() by {
        assert(sorted.contains(sorted[j]));
        assert(built.to_multiset().count(sorted[j]) > 0);
        assert(built.contains(sorted[j]));
        let i = choose|i: int| 0 <= i < built.len() && built[i] == sorted[j];
        let k = i / 2;
        assert(0 <= k < active.len());
        let t = active[k];
        assert(boxes[t as int].ordered());
        if i == 2 * k {
            assert(built[i] == edge_of(boxes, axis, t, false));
        } else {
            assert(i == 2 * k + 1);
            assert(built[i] == edge_of(boxes, axis, t, true));
        }
    }
    assert forall|k: int|
        #![trigger active[k]]
        0 <= k < active.len() implies sorted.contains(edge_of(boxes, axis, active[k], false))
        && sorted.contains(edge_of(boxes, axis, active[k], true)) by {
        assert(built.contains(built[2 * k]));
        assert(built.contains(built[2 * k + 1]));
        assert(sorted.to_multiset().count(built[2 * k]) > 0);
        assert(sorted.to_multiset().count(built[2 * k + 1]) > 0);
    }
}

/// A triangle whose box begins at or before the split has its beginning
/// among the edges up to the cut; any other has its end after the cut.
proof fn lemma_split_sides(
    sorted: Seq<BoundEdge>,
    split: Scalar,
    cut: int,
    boxes: Seq<AABB>,
    axis: Axis,
    t: usize,
)
    requires
        sorted_by_position(sorted),
        0 <= cut <= sorted.len(),
        forall|j: int| 0 <= j < cut ==> (#[trigger] sorted[j]).position.spec_le(split),
        cut < sorted.len() ==> !sorted[cut].position.spec_le(split),
        forall|j: int| 0 <= j < sorted.len() ==> !(#[trigger] sorted[j]).position.nan(),
        sorted.contains(edge_of(boxes, axis, t, false)),
        sorted.contains(edge_of(boxes, axis, t, true)),
        boxes[t as int].ordered(),
    ensures
        boxes[t as int].min.spec_get(axis).spec_le(split) ==> exists|j: int|
            0 <= j < cut && #[trigger] sorted[j] == edge_of(boxes, axis, t, false),
        !boxes[t as int].min.spec_get(axis).spec_le(split) ==> exists|j: int|
            cut <= j < sorted.len() && #[trigger] sorted[j] == edge_of(boxes, axis, t, true),
{
    let begin = edge_of(boxes, axis, t, false);
    let end = edge_of(boxes, axis, t, true);
    let jb = choose|j: int| 0 <= j < sorted.len() && sorted[j] == begin;
    let je = choose|j: int| 0 <= j < sorted.len() && sorted[j] == end;
    if boxes[t as int].min.spec_get(axis).spec_le(split) {
        if jb >= cut {
            assert(sorted[cut].position.key() <= sorted[jb].position.key());
            assert(!sorted[cut].position.nan());
            assert(false);
        }
        assert(sorted[jb] == begin);
    } else {
        if je < cut {
            assert(sorted[je].position.spec_le(split));
            assert(false);
        }
        assert(sorted[je] == end);
    }
}

/// A triangle that overlaps a region overlaps the part of it below the
/// split if its box begins at or before the split, and the part above it
/// otherwise.
proof fn lemma_child_overlap(region: AABB, tbox: AABB, axis: Axis, split: Scalar)
    requires
        region.overlaps(tbox),
        tbox.ordered(),
    ensures
        tbox.min.spec_get(axis).spec_le(split) ==> region.below(axis, split).overlaps(tbox),
        !tbox.min.spec_get(axis).spec_le(split) ==> region.above(axis, split).overlaps(tbox),
{
}

/// True where a subtree of at most `depth` further levels over `n`
/// triangles is sure to fit the node format, however its triangles fall,
/// when it is appended to `nodes` nodes and `entries` listed triangles.
pub open spec fn sure_to_fit(nodes: int, entries: int, n: int, depth: nat) -> bool {
    nodes + pow2(depth + 1) <= FORMAT_LIMIT && entries + n * pow2(depth) < FORMAT_LIMIT
}

/// What a call that builds the subtree of one node leaves behind when it
/// succeeds: the nodes from `p` on form a subtree no deeper than allowed,
/// whose leaves list valid triangles and among them every active triangle
/// in each leaf region its box overlaps.
pub open spec fn subtree_built(
    nodes0: Seq<LinearKDTreeNode>,
    entries0: Seq<usize>,
    nodes: Seq<LinearKDTreeNode>,
    entries: Seq<usize>,
    active: Seq<usize>,
    region: AABB,
    boxes: Seq<AABB>,
    depth_remaining: nat,
) -> bool {
    let p = nodes0.len() as int;
    let end = nodes.len() as int;
    &&& extends(nodes, nodes0)
    &&& extends(entries, entries0)
    &&& end <= FORMAT_LIMIT
    &&& end - p <= pow2(depth_remaining + 1) - 1
    &&& entries.len() - entries0.len() <= active.len() * pow2(depth_remaining)
    &&& is_subtree(nodes, entries.len() as int, p, end)
    &&& packed(nodes, p, end, entries0.len() as int)
    &&& entries.len() == entries0.len() + leaf_total(nodes, p, end)
    &&& depth_of(nodes, p, end) <= depth_remaining + 1
    &&& forall|i: int| entries0.len() <= i < entries.len() ==> (#[trigger] entries[i]) < boxes.len()
    &&& forall|k: int|
        #![trigger active[k]]
        0 <= k < active.len() && region.overlaps(boxes[active[k] as int]) ==> leaf_holds(
            nodes,
            entries,
            p,
            end,
            region,
            active[k] as int,
            boxes[active[k] as int],
        )
}

/// True where `sorted` holds the edges of the active triangles along
/// `axis` in ascending order and `split` is a midpoint, as `midpoint` can
/// give it, of the two central positions among them.
pub open spec fn is_median_split<M: Fn(Scalar, Scalar) -> Scalar>(
    sorted: Seq<BoundEdge>,
    boxes: Seq<AABB>,
    axis: Axis,
    active: Seq<usize>,
    midpoint: &M,
    split: Scalar,
) -> bool {
    &&& sorted.len() == 2 * active.len()
    &&& sorted.to_multiset() == edges_of(boxes, axis, active).to_multiset()
    &&& sorted_by_position(sorted)
    &&& active.len() >= 2
    &&& midpoint.ensures(
        (sorted[active.len() as int].position, sorted[active.len() as int + 1].position),
        split,
    )
}

/// True where node `p` is a leaf that lists exactly the active triangles,
/// in their order.
pub open spec fn is_leaf_of(
    nodes: Seq<LinearKDTreeNode>,
    entries: Seq<usize>,
    p: int,
    end: int,
    active: Seq<usize>,
) -> bool {
    &&& 0 <= p < nodes.len()
    &&& end == p + 1
    &&& nodes[p]@ matches NodeView::Leaf { count, start }
    &&& count == active.len()
    &&& start + count <= entries.len()
    &&& entries.subrange(start as int, (start + count) as int) == active
}

/// True where the subtree of node `p`, built for the triangles `active` in
/// the region `region`, follows the rules of the build all the way down.
///
/// A node with no more than `max_leaf_size` triangles, or with no depth
/// left, is a leaf that lists its triangles. Any other node is split along
/// the axis of its region's longest extent, at the midpoint of the two
/// central positions among the ends of its triangles' boxes along that
/// axis; the triangles whose box begins at or before the split go to the
/// child below, those whose box ends after it to the child above, and the
/// region of each child is the region cut at the split.
pub open spec fn follows_policy<D: Fn(Scalar, Scalar) -> Scalar, M: Fn(Scalar, Scalar) -> Scalar>(
    nodes: Seq<LinearKDTreeNode>,
    entries: Seq<usize>,
    p: int,
    end: int,
    region: AABB,
    active: Seq<usize>,
    depth_remaining: nat,
    max_leaf_size: nat,
    boxes: Seq<AABB>,
    difference: &D,
    midpoint: &M,
) -> bool
    decreases depth_remaining,
{
    if active.len() <= max_leaf_size || depth_remaining == 0 {
        is_leaf_of(nodes, entries, p, end, active)
    } else {
        &&& 0 <= p < end <= nodes.len()
        &&& nodes[p]@ matches NodeView::Inner { axis, above_child, split_position }
        &&& p + 1 < above_child < end
        &&& region.is_longest_axis(difference, axis)
        &&& exists|sorted: Seq<BoundEdge>|
            {
                &&& #[trigger] is_median_split(sorted, boxes, axis, active, midpoint, split_position)
                &&& follows_policy(
                    nodes,
                    entries,
                    p + 1,
                    above_child as int,
                    region.below(axis, split_position),
                    below_split(sorted, split_position),
                    (depth_remaining - 1) as nat,
                    max_leaf_size,
                    boxes,
                    difference,
                    midpoint,
                )
                &&& follows_policy(
                    nodes,
                    entries,
                    above_child as int,
                    end,
                    region.above(axis, split_position),
                    above_split(sorted, split_position),
                    (depth_remaining - 1) as nat,
                    max_leaf_size,
                    boxes,
                    difference,
                    midpoint,
                )
            }
    }
}

/// A subtree goes on following the rules when nodes outside it change and
/// the list of triangle indices grows.
pub proof fn lemma_policy_frame<D: Fn(Scalar, Scalar) -> Scalar, M: Fn(Scalar, Scalar) -> Scalar>(
    nodes: Seq<LinearKDTreeNode>,
    entries: Seq<usize>,
    nodes2: Seq<LinearKDTreeNode>,
    entries2: Seq<usize>,
    p: int,
    end: int,
    region: AABB,
    active: Seq<usize>,
    depth_remaining: nat,
    max_leaf_size: nat,
    boxes: Seq<AABB>,
    difference: &D,
    midpoint: &M,
)
    requires
        follows_policy(
            nodes,
            entries,
            p,
            end,
            region,
            active,
            depth_remaining,
            max_leaf_size,
            boxes,
            difference,
            midpoint,
        ),
        same_nodes(nodes, nodes2, p, end),
        extends(entries2, entries),
    ensures
        follows_policy(
            nodes2,
            entries2,
            p,
            end,
            region,
            active,
            depth_remaining,
            max_leaf_size,
            boxes,
            difference,
            midpoint,
        ),
    decreases depth_remaining,
{
    if active.len() <= max_leaf_size || depth_remaining == 0 {
        let start = nodes[p]@->start as int;
        let count = nodes[p]@->count as int;
        assert(entries2.subrange(start, start + count) =~= entries.subrange(start, start + count));
    } else {
        let axis = nodes[p]@->axis;
        let mid = nodes[p]@->above_child as int;
        let split = nodes[p]@->split_position;
        let d = (depth_remaining - 1) as nat;
        let sorted = choose|sorted: Seq<BoundEdge>|
            {
                &&& #[trigger] is_median_split(sorted, boxes, axis, active, midpoint, split)
                &&& follows_policy(
                    nodes,
                    entries,
                    p + 1,
                    mid,
                    region.below(axis, split),
                    below_split(sorted, split),
                    d,
                    max_leaf_size,
                    boxes,
                    difference,
                    midpoint,
                )
                &&& follows_policy(
                    nodes,
                    entries,
                    mid,
                    end,
                    region.above(axis, split),
                    above_split(sorted, split),
                    d,
                    max_leaf_size,
                    boxes,
                    difference,
                    midpoint,
                )
            };
        lemma_policy_frame(
            nodes,
            entries,
            nodes2,
            entries2,
            p + 1,
            mid,
            region.below(axis, split),
            below_split(sorted, split),
            d,
            max_leaf_size,
            boxes,
            difference,
            midpoint,
        );
        lemma_policy_frame(
            nodes,
            entries,
            nodes2,
            entries2,
            mid,
            end,
            region.above(axis, split),
            above_split(sorted, split),
            d,
            max_leaf_size,
            boxes,
            difference,
            midpoint,
        );
        assert(nodes2[p] == nodes[p]);
        assert(is_median_split(sorted, boxes, axis, active, midpoint, split));
    }
}

/// True where `nodes` and `entries` end with the finished subtree of node
/// `p`: built for the triangles `active` in `region` by the rules, with its
/// leaves listing their triangles from entry `first` on and the list
/// ending with them.
pub open spec fn is_built<D: Fn(Scalar, Scalar) -> Scalar, M: Fn(Scalar, Scalar) -> Scalar>(
    nodes: Seq<LinearKDTreeNode>,
    entries: Seq<usize>,
    p: int,
    first: int,
    region: AABB,
    active: Seq<usize>,
    depth_remaining: nat,
    max_leaf_size: nat,
    boxes: Seq<AABB>,
    difference: &D,
    midpoint: &M,
) -> bool {
    &&& 0 <= p < nodes.len()
    &&& is_subtree(nodes, entries.len() as int, p, nodes.len() as int)
    &&& packed(nodes, p, nodes.len() as int, first)
    &&& entries.len() == first + leaf_total(nodes, p, nodes.len() as int)
    &&& follows_policy(
        nodes,
        entries,
        p,
        nodes.len() as int,
        region,
        active,
        depth_remaining,
        max_leaf_size,
        boxes,
        difference,
        midpoint,
    )
}

/// True where a leaf that is to stand at node `p` and to list `count`
/// triangles from entry `first` on does not fit the node format.
pub open spec fn leaf_outgrows(p: int, first: int, count: int) -> bool {
    p >= FORMAT_LIMIT || count > MAX_PAYLOAD || first > u32::MAX
}

/// True where the subtree that the rules of the build give for the
/// triangles `active` in `region`, laid out from node `p` and entry `first`
/// on, can outgrow the node format.
///
/// A leaf outgrows the format where its index, its number of triangles or
/// its first entry does not fit. An inner node outgrows it where its own
/// index does not fit, or where, for an axis and a split that the rules
/// allow, the subtree below the split outgrows the format, or the
/// finished subtree below it ends past the greatest index a node can
/// point to, or the subtree above the split, laid out after the one
/// below, outgrows the format.
pub open spec fn outgrows<D: Fn(Scalar, Scalar) -> Scalar, M: Fn(Scalar, Scalar) -> Scalar>(
    p: int,
    first: int,
    region: AABB,
    active: Seq<usize>,
    depth_remaining: nat,
    max_leaf_size: nat,
    boxes: Seq<AABB>,
    difference: &D,
    midpoint: &M,
) -> bool
    decreases depth_remaining,
{
    if active.len() <= max_leaf_size || depth_remaining == 0 {
        leaf_outgrows(p, first, active.len() as int)
    } else {
        ||| p >= FORMAT_LIMIT
        ||| exists|axis: Axis, sorted: Seq<BoundEdge>, split: Scalar|
            {
                &&& #[trigger] is_median_split(sorted, boxes, axis, active, midpoint, split)
                &&& region.is_longest_axis(difference, axis)
                &&& {
                    ||| outgrows(
                        p + 1,
                        first,
                        region.below(axis, split),
                        below_split(sorted, split),
                        (depth_remaining - 1) as nat,
                        max_leaf_size,
                        boxes,
                        difference,
                        midpoint,
                    )
                    ||| exists|nodes: Seq<LinearKDTreeNode>, entries: Seq<usize>|
                        {
                            &&& #[trigger] is_built(
                                nodes,
                                entries,
                                p + 1,
                                first,
                                region.below(axis, split),
                                below_split(sorted, split),
                                (depth_remaining - 1) as nat,
                                max_leaf_size,
                                boxes,
                                difference,
                                midpoint,
                            )
                            &&& {
                                ||| nodes.len() > MAX_PAYLOAD
                                ||| outgrows(
                                    nodes.len() as int,
                                    entries.len() as int,
                                    region.above(axis, split),
                                    above_split(sorted, split),
                                    (depth_remaining - 1) as nat,
                                    max_leaf_size,
                                    boxes,
                                    difference,
                                    midpoint,
                                )
                            }
                        }
                }
            }
    }
}

/// An inner node outgrows the format where the subtree below its split
/// does.
proof fn lemma_outgrows_below<D: Fn(Scalar, Scalar) -> Scalar, M: Fn(Scalar, Scalar) -> Scalar>(
    p: int,
    first: int,
    region: AABB,
    active: Seq<usize>,
    d: nat,
    max_leaf_size: nat,
    boxes: Seq<AABB>,
    axis: Axis,
    sorted: Seq<BoundEdge>,
    split: Scalar,
    difference: &D,
    midpoint: &M,
)
    requires
        d > 0,
        active.len() > max_leaf_size,
        is_median_split(sorted, boxes, axis, active, midpoint, split),
        region.is_longest_axis(difference, axis),
        outgrows(
            p + 1,
            first,
            region.below(axis, split),
            below_split(sorted, split),
            (d - 1) as nat,
            max_leaf_size,
            boxes,
            difference,
            midpoint,
        ),
    ensures
        outgrows(p, first, region, active, d, max_leaf_size, boxes, difference, midpoint),
{
}

/// An inner node outgrows the format where the finished subtree below its
/// split ends too far on, or the subtree above the split outgrows the
/// format.
proof fn lemma_outgrows_above<D: Fn(Scalar, Scalar) -> Scalar, M: Fn(Scalar, Scalar) -> Scalar>(
    p: int,
    first: int,
    region: AABB,
    active: Seq<usize>,
    d: nat,
    max_leaf_size: nat,
    boxes: Seq<AABB>,
    axis: Axis,
    sorted: Seq<BoundEdge>,
    split: Scalar,
    nodes: Seq<LinearKDTreeNode>,
    entries: Seq<usize>,
    difference: &D,
    midpoint: &M,
)
    requires
        d > 0,
        active.len() > max_leaf_size,
        is_median_split(sorted, boxes, axis, active, midpoint, split),
        region.is_longest_axis(difference, axis),
        is_built(
            nodes,
            entries,
            p + 1,
            first,
            region.below(axis, split),
            below_split(sorted, split),
            (d - 1) as nat,
            max_leaf_size,
            boxes,
            difference,
            midpoint,
        ),
        nodes.len() > MAX_PAYLOAD || outgrows(
            nodes.len() as int,
            entries.len() as int,
            region.above(axis, split),
            above_split(sorted, split),
            (d - 1) as nat,
            max_leaf_size,
            boxes,
            difference,
            midpoint,
        ),
    ensures
        outgrows(p, first, region, active, d, max_leaf_size, boxes, difference, midpoint),
{
}

proof fn lemma_pow2_step(d: nat)
    requires
        d > 0,
    ensures
        pow2(d) == 2 * pow2((d - 1) as nat),
        pow2(d + 1) == 2 * pow2(d),
        pow2(d) >= 2,
        pow2((d - 1) as nat) >= 1,
{
    vstd::arithmetic::power2::lemma_pow2_unfold(d);
    vstd::arithmetic::power2::lemma_pow2_unfold(d + 1);
    vstd::arithmetic::power2::lemma_pow2_pos((d - 1) as nat);
}

/// The budget that is sure to hold an inner node holds its two children,
/// one after the other.
proof fn lemma_fit_children(
    nodes: int,
    entries: int,
    n: int,
    n_below: int,
    n_above: int,
    d: nat,
    nodes_mid: int,
    entries_mid: int,
)
    requires
        d > 0,
        0 <= n_below <= n,
        0 <= n_above <= n,
        0 <= nodes,
        0 <= entries,
        nodes_mid - (nodes + 1) <= pow2(d) - 1,
        entries_mid - entries <= n_below * pow2((d - 1) as nat),
    ensures
        sure_to_fit(nodes, entries, n, d) ==> nodes < FORMAT_LIMIT && sure_to_fit(
            nodes + 1,
            entries,
            n_below,
            (d - 1) as nat,
        ) && nodes_mid <= MAX_PAYLOAD && sure_to_fit(nodes_mid, entries_mid, n_above, (d - 1) as nat),
        (pow2(d) - 1) + (pow2(d) - 1) + 1 == pow2(d + 1) - 1,
        n_below * pow2((d - 1) as nat) + n_above * pow2((d - 1) as nat) <= n * pow2(d),
{
    lemma_pow2_step(d);
    let half = pow2((d - 1) as nat);
    assert(n_below * half <= n * half) by (nonlinear_arith)
        requires
            n_below <= n,
            half >= 1,
    ;
    assert(n_above * half <= n * half) by (nonlinear_arith)
        requires
            n_above <= n,
            half >= 1,
    ;
    assert(n * pow2(d) == 2 * (n * half)) by (nonlinear_arith)
        requires
            pow2(d) == 2 * half,
    ;
    assert((d - 1 + 1) as nat == d);
}

/// Appends a leaf that lists the active triangles.
fn emit_leaf(
    nodes: &mut Vec<LinearKDTreeNode>,
    linear_triangle_indices: &mut Vec<usize>,
    triangle_indices_below: &Vec<usize>,
    triangle_indices_above: &Vec<usize>,
    offset: usize,
    is_above: bool,
    triangle_count: usize,
    Ghost(region): Ghost<AABB>,
    Ghost(boxes): Ghost<Seq<AABB>>,
    Ghost(depth_remaining): Ghost<nat>,
) -> (complete: bool)
    requires
        triangle_count <= triangle_indices_below@.len(),
        offset + triangle_count <= triangle_indices_above@.len(),
        forall|k: int|
            0 <= k < triangle_count ==> (#[trigger] active_set(
                triangle_indices_below@,
                triangle_indices_above@,
                offset as int,
                is_above,
                triangle_count as int,
            )[k]) < boxes.len(),
    ensures
        complete ==> subtree_built(
            old(nodes)@,
            old(linear_triangle_indices)@,
            final(nodes)@,
            final(linear_triangle_indices)@,
            active_set(
                triangle_indices_below@,
                triangle_indices_above@,
                offset as int,
                is_above,
                triangle_count as int,
            ),
            region,
            boxes,
            depth_remaining,
        ),
        complete ==> is_leaf_of(
            final(nodes)@,
            final(linear_triangle_indices)@,
            old(nodes)@.len() as int,
            final(nodes)@.len() as int,
            active_set(
                triangle_indices_below@,
                triangle_indices_above@,
                offset as int,
                is_above,
                triangle_count as int,
            ),
        ),
        sure_to_fit(
            old(nodes)@.len() as int,
            old(linear_triangle_indices)@.len() as int,
            triangle_count as int,
            depth_remaining,
        ) ==> complete,
        !complete ==> leaf_outgrows(
            old(nodes)@.len() as int,
            old(linear_triangle_indices)@.len() as int,
            triangle_count as int,
        ),
{
    let ghost nodes0 = nodes@;
    let ghost entries0 = linear_triangle_indices@;
    let ghost active = active_set(
        triangle_indices_below@,
        triangle_indices_above@,
        offset as int,
        is_above,
        triangle_count as int,
    );
    let above_len: usize = triangle_indices_above.len();
    let start_index: usize = linear_triangle_indices.len();
    let node_index: usize = nodes.len();
    proof {
        vstd::arithmetic::power2::lemma_pow2_pos(depth_remaining);
        vstd::arithmetic::power2::lemma_pow2_strictly_increases(0, depth_remaining + 1);
        vstd::arithmetic::power2::lemma2_to64();
        assert(triangle_count <= triangle_count * pow2(depth_remaining)) by (nonlinear_arith)
            requires
                pow2(depth_remaining) >= 1,
        ;
    }
    if triangle_count > MAX_PAYLOAD as usize || start_index > u32::MAX as usize || node_index
        >= FORMAT_LIMIT {
        return false;
    }
    let mut k: usize = 0;
    while k < triangle_count
        invariant
            k <= triangle_count,
            triangle_count <= triangle_indices_below@.len(),
            offset + triangle_count <= triangle_indices_above@.len(),
            above_len == triangle_indices_above@.len(),
            active == active_set(
                triangle_indices_below@,
                triangle_indices_above@,
                offset as int,
                is_above,
                triangle_count as int,
            ),
            linear_triangle_indices@.len() == entries0.len() + k,
            forall|i: int| 0 <= i < entries0.len() ==> linear_triangle_indices@[i] == entries0[i],
            forall|i: int| 0 <= i < k ==> linear_triangle_indices@[entries0.len() + i] == active[i],
        decreases triangle_count - k,
    {
        let triangle_index: usize = if is_above {
            triangle_indices_above[offset + k]
        } else {
            triangle_indices_below[k]
        };
        assert(triangle_index == active[k as int]);
        linear_triangle_indices.push(triangle_index);
        k += 1;
    }
    let leaf = LinearKDTreeNode::new_leaf(triangle_count as u32, start_index as u32);
    nodes.push(leaf);
    proof {
        let end = nodes@.len() as int;
        let p = nodes0.len() as int;
        let entries = linear_triangle_indices@;
        assert(nodes@[p]@ == (NodeView::Leaf {
            count: triangle_count as nat,
            start: start_index as nat,
        }));
        assert(is_subtree(nodes@, entries.len() as int, p, end));
        assert(depth_of(nodes@, p, end) == 1);
        assert(entries.subrange(start_index as int, start_index + triangle_count) =~= active);
        assert forall|i: int| entries0.len() <= i < entries.len() implies (#[trigger] entries[i])
            < boxes.len() by {
            assert(entries[entries0.len() + (i - entries0.len())] == active[i - entries0.len()]);
        }
        assert forall|k: int|
            #![trigger active[k]]
            0 <= k < active.len() && region.overlaps(boxes[active[k] as int]) implies leaf_holds(
            nodes@,
            entries,
            p,
            end,
            region,
            active[k] as int,
            boxes[active[k] as int],
        ) by {
            assert(entries[start_index + k] == active[k]);
        }
    }
    true
}

/// Every active triangle is written to the side of the split that its box
/// begins on.
proof fn lemma_sides_of_active(
    sorted: Seq<BoundEdge>,
    split: Scalar,
    cut: int,
    boxes: Seq<AABB>,
    axis: Axis,
    active: Seq<usize>,
    below: Seq<usize>,
    above: Seq<usize>,
    offset: int,
    n_below: int,
    n_above: int,
)
    requires
        sorted_by_position(sorted),
        0 <= cut <= sorted.len(),
        0 <= offset,
        0 <= n_below <= below.len(),
        0 <= n_above,
        offset + n_above <= above.len(),
        forall|j: int| 0 <= j < cut ==> (#[trigger] sorted[j]).position.spec_le(split),
        cut < sorted.len() ==> !sorted[cut].position.spec_le(split),
        forall|j: int| 0 <= j < sorted.len() ==> !(#[trigger] sorted[j]).position.nan(),
        forall|k: int|
            #![trigger active[k]]
            0 <= k < active.len() ==> {
                &&& active[k] < boxes.len()
                &&& boxes[active[k] as int].ordered()
                &&& sorted.contains(edge_of(boxes, axis, active[k], false))
                &&& sorted.contains(edge_of(boxes, axis, active[k], true))
            },
        forall|j: int|
            0 <= j < cut && !(#[trigger] sorted[j]).is_end ==> exists|m: int|
                0 <= m < n_below && #[trigger] below[m] == sorted[j].triangle_index,
        forall|j: int|
            cut <= j < sorted.len() && (#[trigger] sorted[j]).is_end ==> exists|m: int|
                0 <= m < n_above && #[trigger] above[offset + m] == sorted[j].triangle_index,
    ensures
        forall|k: int|
            #![trigger active[k]]
            0 <= k < active.len() ==> {
                let t = active[k];
                let below_set = active_set(below, above, offset + n_above, false, n_below);
                let above_set = active_set(below, above, offset, true, n_above);
                &&& t < boxes.len()
                &&& boxes[t as int].ordered()
                &&& boxes[t as int].min.spec_get(axis).spec_le(split) ==> exists|m: int|
                    0 <= m < below_set.len() && #[trigger] below_set[m] == t
                &&& !boxes[t as int].min.spec_get(axis).spec_le(split) ==> exists|m: int|
                    0 <= m < above_set.len() && #[trigger] above_set[m] == t
            },
{
    let below_set = active_set(below, above, offset + n_above, false, n_below);
    let above_set = active_set(below, above, offset, true, n_above);
    assert forall|k: int| #![trigger active[k]] 0 <= k < active.len() implies {
        let t = active[k];
        &&& t < boxes.len()
        &&& boxes[t as int].ordered()
        &&& boxes[t as int].min.spec_get(axis).spec_le(split) ==> exists|m: int|
            0 <= m < below_set.len() && #[trigger] below_set[m] == t
        &&& !boxes[t as int].min.spec_get(axis).spec_le(split) ==> exists|m: int|
            0 <= m < above_set.len() && #[trigger] above_set[m] == t
    } by {
        let t = active[k];
        lemma_split_sides(sorted, split, cut, boxes, axis, t);
        if boxes[t as int].min.spec_get(axis).spec_le(split) {
            let j = choose|j: int|
                0 <= j < cut && #[trigger] sorted[j] == edge_of(boxes, axis, t, false);
            let m = choose|m: int| 0 <= m < n_below && #[trigger] below[m] == sorted[j].triangle_index;
            assert(below_set[m] == t);
        } else {
            let j = choose|j: int|
                cut <= j < sorted.len() && #[trigger] sorted[j] == edge_of(boxes, axis, t, true);
            let m = choose|m: int|
                0 <= m < n_above && #[trigger] above[offset + m] == sorted[j].triangle_index;
            assert(above_set[m] == t);
        }
    }
}

/// What makes an inner node with its two finished children a finished
/// subtree.
proof fn lemma_inner_built<D: Fn(Scalar, Scalar) -> Scalar, M: Fn(Scalar, Scalar) -> Scalar>(
    nodes0: Seq<LinearKDTreeNode>,
    entries0: Seq<usize>,
    nodes2: Seq<LinearKDTreeNode>,
    entries2: Seq<usize>,
    nodes3: Seq<LinearKDTreeNode>,
    nodes4: Seq<LinearKDTreeNode>,
    entries4: Seq<usize>,
    active: Seq<usize>,
    below_set: Seq<usize>,
    above_set: Seq<usize>,
    region: AABB,
    boxes: Seq<AABB>,
    d: nat,
    max_leaf_size: nat,
    axis: Axis,
    split: Scalar,
    sorted: Seq<BoundEdge>,
    difference: &D,
    midpoint: &M,
)
    requires
        d > 0,
        active.len() > max_leaf_size,
        nodes2.len() > nodes0.len(),
        nodes2.len() <= MAX_PAYLOAD,
        nodes3 == nodes2.update(nodes0.len() as int, nodes3[nodes0.len() as int]),
        nodes3[nodes0.len() as int]@ == (NodeView::Inner {
            axis,
            above_child: nodes2.len(),
            split_position: split,
        }),
        extends(nodes2, nodes0),
        subtree_built(
            nodes2.subrange(0, nodes0.len() as int + 1),
            entries0,
            nodes2,
            entries2,
            below_set,
            region.below(axis, split),
            boxes,
            (d - 1) as nat,
        ),
        subtree_built(
            nodes3,
            entries2,
            nodes4,
            entries4,
            above_set,
            region.above(axis, split),
            boxes,
            (d - 1) as nat,
        ),
        follows_policy(
            nodes2,
            entries2,
            nodes0.len() as int + 1,
            nodes2.len() as int,
            region.below(axis, split),
            below_set,
            (d - 1) as nat,
            max_leaf_size,
            boxes,
            difference,
            midpoint,
        ),
        follows_policy(
            nodes4,
            entries4,
            nodes2.len() as int,
            nodes4.len() as int,
            region.above(axis, split),
            above_set,
            (d - 1) as nat,
            max_leaf_size,
            boxes,
            difference,
            midpoint,
        ),
        region.is_longest_axis(difference, axis),
        is_median_split(sorted, boxes, axis, active, midpoint, split),
        below_set == below_split(sorted, split),
        above_set == above_split(sorted, split),
        below_set.len() <= active.len(),
        above_set.len() <= active.len(),
        forall|k: int|
            #![trigger active[k]]
            0 <= k < active.len() ==> {
                let t = active[k];
                &&& t < boxes.len()
                &&& boxes[t as int].ordered()
                &&& boxes[t as int].min.spec_get(axis).spec_le(split) ==> exists|m: int|
                    0 <= m < below_set.len() && #[trigger] below_set[m] == t
                &&& !boxes[t as int].min.spec_get(axis).spec_le(split) ==> exists|m: int|
                    0 <= m < above_set.len() && #[trigger] above_set[m] == t
            },
    ensures
        subtree_built(nodes0, entries0, nodes4, entries4, active, region, boxes, d),
        follows_policy(
            nodes4,
            entries4,
            nodes0.len() as int,
            nodes4.len() as int,
            region,
            active,
            d,
            max_leaf_size,
            boxes,
            difference,
            midpoint,
        ),
{
    let p = nodes0.len() as int;
    let mid = nodes2.len() as int;
    let end = nodes4.len() as int;
    let below_region = region.below(axis, split);
    let above_region = region.above(axis, split);
    lemma_fit_children(
        p,
        entries0.len() as int,
        active.len() as int,
        below_set.len() as int,
        above_set.len() as int,
        d,
        mid,
        entries2.len() as int,
    );
    assert(nodes4[p] == nodes3[p]);
    assert(same_nodes(nodes2, nodes4, p + 1, mid));
    lemma_subtree_frame(nodes2, entries2, nodes4, entries4, p + 1, mid);
    lemma_packed_frame(nodes2, nodes4, entries2.len() as int, p + 1, mid, entries0.len() as int);
    lemma_policy_frame(
        nodes2,
        entries2,
        nodes4,
        entries4,
        p + 1,
        mid,
        below_region,
        below_set,
        (d - 1) as nat,
        max_leaf_size,
        boxes,
        difference,
        midpoint,
    );
    assert(is_subtree(nodes4, entries4.len() as int, p, end));
    assert(depth_of(nodes4, p, end) <= d + 1);
    assert(nodes4[p]@ == (NodeView::Inner { axis, above_child: mid as nat, split_position: split }));
    assert(nodes4[p]@->axis == axis && nodes4[p]@->split_position == split);
    assert(is_median_split(sorted, boxes, axis, active, midpoint, split));
    assert forall|i: int| 0 <= i < nodes0.len() implies nodes4[i] == nodes0[i] by {
        assert(nodes3[i] == nodes2[i]);
    }
    assert forall|k: int|
        #![trigger active[k]]
        0 <= k < active.len() && region.overlaps(boxes[active[k] as int]) implies leaf_holds(
        nodes4,
        entries4,
        p,
        end,
        region,
        active[k] as int,
        boxes[active[k] as int],
    ) by {
        let t = active[k];
        let tbox = boxes[t as int];
        lemma_child_overlap(region, tbox, axis, split);
        if tbox.min.spec_get(axis).spec_le(split) {
            let m = choose|m: int| 0 <= m < below_set.len() && #[trigger] below_set[m] == t;
            assert(leaf_holds(nodes2, entries2, p + 1, mid, below_region, t as int, tbox));
            assert(leaf_holds(nodes4, entries4, p + 1, mid, below_region, t as int, tbox));
        } else {
            let m = choose|m: int| 0 <= m < above_set.len() && #[trigger] above_set[m] == t;
            assert(leaf_holds(nodes4, entries4, mid, end, above_region, t as int, tbox));
        }
    }
}

/// Builds the subtree of one node at the end of `nodes`.
///
/// The node's triangles are the first `triangle_count` entries of
/// `triangle_indices_below`, or, where `is_above` is set, the entries of
/// `triangle_indices_above` from `offset` on. Everything before `offset` in
/// that buffer belongs to nodes still to be built and is left alone.
/// Returns false, with the tree unfinished, when the subtree outgrows the
/// node format.
pub(crate) fn build_node<D: Fn(Scalar, Scalar) -> Scalar, M: Fn(Scalar, Scalar) -> Scalar>(
    nodes: &mut Vec<LinearKDTreeNode>,
    linear_triangle_indices: &mut Vec<usize>,
    triangle_indices_below: &mut Vec<usize>,
    triangle_indices_above: &mut Vec<usize>,
    offset: usize,
    is_above: bool,
    triangle_count: usize,
    node_bounding_box: &AABB,
    triangle_bounding_boxes: &Vec<AABB>,
    depth_remaining: usize,
    options: &KDTreeOptions,
    edges: &mut Vec<BoundEdge>,
    difference: &D,
    midpoint: &M,
) -> (complete: bool)
    requires
        forall|a: Scalar, b: Scalar| difference.requires((a, b)),
        forall|a: Scalar, b: Scalar| midpoint.requires((a, b)),
        options.max_leaf_size >= 1,
        old(triangle_indices_below)@.len() == triangle_bounding_boxes@.len(),
        old(triangle_indices_above)@.len() >= offset + (depth_remaining + 1)
            * triangle_bounding_boxes@.len(),
        triangle_count <= triangle_bounding_boxes@.len(),
        forall|t: int|
            0 <= t < triangle_bounding_boxes@.len() ==> (#[trigger] triangle_bounding_boxes@[t]).ordered(),
        forall|k: int|
            0 <= k < triangle_count ==> (#[trigger] active_set(
                old(triangle_indices_below)@,
                old(triangle_indices_above)@,
                offset as int,
                is_above,
                triangle_count as int,
            )[k]) < triangle_bounding_boxes@.len(),
    ensures
        final(triangle_indices_below)@.len() == old(triangle_indices_below)@.len(),
        final(triangle_indices_above)@.len() == old(triangle_indices_above)@.len(),
        forall|i: int|
            0 <= i < offset ==> final(triangle_indices_above)@[i] == old(triangle_indices_above)@[i],
        complete ==> subtree_built(
            old(nodes)@,
            old(linear_triangle_indices)@,
            final(nodes)@,
            final(linear_triangle_indices)@,
            active_set(
                old(triangle_indices_below)@,
                old(triangle_indices_above)@,
                offset as int,
                is_above,
                triangle_count as int,
            ),
            *node_bounding_box,
            triangle_bounding_boxes@,
            depth_remaining as nat,
        ),
        complete ==> follows_policy(
            final(nodes)@,
            final(linear_triangle_indices)@,
            old(nodes)@.len() as int,
            final(nodes)@.len() as int,
            *node_bounding_box,
            active_set(
                old(triangle_indices_below)@,
                old(triangle_indices_above)@,
                offset as int,
                is_above,
                triangle_count as int,
            ),
            depth_remaining as nat,
            options.max_leaf_size as nat,
            triangle_bounding_boxes@,
            difference,
            midpoint,
        ),
        sure_to_fit(
            old(nodes)@.len() as int,
            old(linear_triangle_indices)@.len() as int,
            triangle_count as int,
            depth_remaining as nat,
        ) ==> complete,
        !complete ==> outgrows(
            old(nodes)@.len() as int,
            old(linear_triangle_indices)@.len() as int,
            *node_bounding_box,
            active_set(
                old(triangle_indices_below)@,
                old(triangle_indices_above)@,
                offset as int,
                is_above,
                triangle_count as int,
            ),
            depth_remaining as nat,
            options.max_leaf_size as nat,
            triangle_bounding_boxes@,
            difference,
            midpoint,
        ),
    decreases depth_remaining,
{
    let ghost nodes0 = nodes@;
    let ghost entries0 = linear_triangle_indices@;
    let ghost boxes = triangle_bounding_boxes@;
    let ghost active = active_set(
        triangle_indices_below@,
        triangle_indices_above@,
        offset as int,
        is_above,
        triangle_count as int,
    );
    let total: usize = triangle_bounding_boxes.len();
    let above_len: usize = triangle_indices_above.len();
    proof {
        assert((depth_remaining + 1) * total == depth_remaining * total + total)
            by (nonlinear_arith);
        assert(0 <= depth_remaining * total) by (nonlinear_arith);
    }

    if triangle_count <= options.max_leaf_size || depth_remaining == 0 {
        return emit_leaf(
            nodes,
            linear_triangle_indices,
            triangle_indices_below,
            triangle_indices_above,
            offset,
            is_above,
            triangle_count,
            Ghost(*node_bounding_box),
            Ghost(boxes),
            Ghost(depth_remaining as nat),
        );
    }
    let split_axis = node_bounding_box.maximum_extent(difference);
    collect_edges(
        edges,
        triangle_indices_below,
        triangle_indices_above,
        offset,
        is_above,
        triangle_count,
        triangle_bounding_boxes,
        split_axis,
    );
    let ghost built = edges@;
    sort_edges(edges);
    let ghost sorted = edges@;
    proof {
        assert forall|k: int| #![trigger active[k]] 0 <= k < active.len() implies {
            &&& active[k] < boxes.len()
            &&& boxes[active[k] as int].ordered()
            &&& built[2 * k] == edge_of(boxes, split_axis, active[k], false)
            &&& built[2 * k + 1] == edge_of(boxes, split_axis, active[k], true)
        } by {}
        lemma_sorted_edges(built, sorted, boxes, split_axis, active);
    }
    let half: usize = edges.len() / 2;
    let split_position = midpoint(edges[half].position, edges[half + 1].position);
    assert(is_median_split(sorted, boxes, split_axis, active, midpoint, split_position));
    let (n_below, n_above, cut) = partition(
        edges,
        split_position,
        triangle_indices_below,
        triangle_indices_above,
        offset,
        Ghost(boxes.len() as int),
    );
    let ghost below1 = triangle_indices_below@;
    let ghost above1 = triangle_indices_above@;
    let ghost below_set = active_set(below1, above1, offset + n_above, false, n_below as int);
    let ghost above_set = active_set(below1, above1, offset as int, true, n_above as int);
    proof {
        lemma_sides_of_active(
            sorted,
            split_position,
            cut as int,
            boxes,
            split_axis,
            active,
            below1,
            above1,
            offset as int,
            n_below as int,
            n_above as int,
        );
        assert forall|k: int| 0 <= k < n_below implies (#[trigger] below_set[k]) < boxes.len() by {
            assert(below1[k] < boxes.len());
        }
    }

    let node_index: usize = nodes.len();
    let ghost fit = sure_to_fit(
        nodes0.len() as int,
        entries0.len() as int,
        triangle_count as int,
        depth_remaining as nat,
    );
    proof {
        lemma_pow2_step(depth_remaining as nat);
        vstd::arithmetic::power2::lemma_pow2_pos(depth_remaining as nat);
    }
    if node_index >= FORMAT_LIMIT {
        return false;
    }
    nodes.push(LinearKDTreeNode::new_inner(0, split_axis, split_position));
    let ghost nodes1 = nodes@;

    let bounding_box_below = AABB {
        min: node_bounding_box.min,
        max: node_bounding_box.max.with(split_axis, split_position),
    };
    proof {
        lemma_fit_children(
            nodes0.len() as int,
            entries0.len() as int,
            triangle_count as int,
            n_below as int,
            n_above as int,
            depth_remaining as nat,
            nodes0.len() as int + 1,
            entries0.len() as int,
        );
    }
    let below_complete = build_node(
        nodes,
        linear_triangle_indices,
        triangle_indices_below,
        triangle_indices_above,
        offset + n_above,
        false,
        n_below,
        &bounding_box_below,
        triangle_bounding_boxes,
        depth_remaining - 1,
        options,
        edges,
        difference,
        midpoint,
    );
    if !below_complete {
        proof {
            assert(below_set =~= below_split(sorted, split_position));
            lemma_outgrows_below(
                nodes0.len() as int,
                entries0.len() as int,
                *node_bounding_box,
                active,
                depth_remaining as nat,
                options.max_leaf_size as nat,
                boxes,
                split_axis,
                sorted,
                split_position,
                difference,
                midpoint,
            );
        }
        return false;
    }
    let ghost nodes2 = nodes@;
    let ghost entries2 = linear_triangle_indices@;
    let ghost above2 = triangle_indices_above@;

    let second_child_index: usize = nodes.len();
    proof {
        lemma_fit_children(
            nodes0.len() as int,
            entries0.len() as int,
            triangle_count as int,
            n_below as int,
            n_above as int,
            depth_remaining as nat,
            nodes2.len() as int,
            entries2.len() as int,
        );
    }
    proof {
        assert(below_set =~= below_split(sorted, split_position));
        assert(is_built(
            nodes2,
            entries2,
            nodes0.len() as int + 1,
            entries0.len() as int,
            bounding_box_below,
            below_set,
            (depth_remaining - 1) as nat,
            options.max_leaf_size as nat,
            boxes,
            difference,
            midpoint,
        ));
    }
    if second_child_index > MAX_PAYLOAD as usize {
        proof {
            lemma_outgrows_above(
                nodes0.len() as int,
                entries0.len() as int,
                *node_bounding_box,
                active,
                depth_remaining as nat,
                options.max_leaf_size as nat,
                boxes,
                split_axis,
                sorted,
                split_position,
                nodes2,
                entries2,
                difference,
                midpoint,
            );
        }
        return false;
    }
    let mut inner = nodes[node_index];
    inner.set_above_child_index(second_child_index as u32);
    nodes[node_index] = inner;
    let ghost nodes3 = nodes@;

    let bounding_box_above = AABB {
        min: node_bounding_box.min.with(split_axis, split_position),
        max: node_bounding_box.max,
    };
    proof {
        assert(active_set(triangle_indices_below@, above2, offset as int, true, n_above as int)
            =~= above_set);
        assert forall|k: int| 0 <= k < n_above implies (#[trigger] above_set[k]) < boxes.len() by {
            assert(above1[offset + k] < boxes.len());
        }
    }
    let above_complete = build_node(
        nodes,
        linear_triangle_indices,
        triangle_indices_below,
        triangle_indices_above,
        offset,
        true,
        n_above,
        &bounding_box_above,
        triangle_bounding_boxes,
        depth_remaining - 1,
        options,
        edges,
        difference,
        midpoint,
    );
    if !above_complete {
        proof {
            assert(above_set =~= above_split(sorted, split_position));
            lemma_outgrows_above(
                nodes0.len() as int,
                entries0.len() as int,
                *node_bounding_box,
                active,
                depth_remaining as nat,
                options.max_leaf_size as nat,
                boxes,
                split_axis,
                sorted,
                split_position,
                nodes2,
                entries2,
                difference,
                midpoint,
            );
        }
        return false;
    }
    proof {
        assert(nodes2.subrange(0, nodes0.len() as int + 1) =~= nodes1);
        assert(nodes3 =~= nodes2.update(nodes0.len() as int, inner));
        assert(below_set =~= below_split(sorted, split_position));
        assert(above_set =~= above_split(sorted, split_position));
        lemma_inner_built(
            nodes0,
            entries0,
            nodes2,
            entries2,
            nodes3,
            nodes@,
            linear_triangle_indices@,
            active,
            below_set,
            above_set,
            *node_bounding_box,
            boxes,
            depth_remaining as nat,
            options.max_leaf_size as nat,
            split_axis,
            split_position,
            sorted,
            difference,
            midpoint,
        );
    }
    true
}

/// The bounding boxes of all triangles of a mesh.
pub open spec fn triangle_boxes(data: MeshData) -> Seq<AABB> {
    Seq::new(data.triangles@.len(), |t: int| data.triangle_box(t))
}

/// All triangle indices of a mesh of `n` triangles, in order.
pub open spec fn all_triangles(n: nat) -> Seq<usize> {
    Seq::new(n, |t: int| t as usize)
}

/// True where `tree` is a tree that a build over `data` with `options` and
/// the depth limit `limit` can give: a well-formed tree over the mesh, no
/// deeper than allowed, that follows the rules of the build from the root
/// down and lists every triangle in each leaf region that its box
/// overlaps.
pub open spec fn is_tree_of<D: Fn(Scalar, Scalar) -> Scalar, M: Fn(Scalar, Scalar) -> Scalar>(
    tree: LinearKDTree,
    data: MeshData,
    options: KDTreeOptions,
    limit: nat,
    difference: &D,
    midpoint: &M,
) -> bool {
    &&& tree.wf()
    &&& tree.exactly_listed()
    &&& tree.covers_mesh()
    &&& tree.spec_data() == data
    &&& tree.spec_bounding_box() == bounds_of(data, data.triangles@.len() as int)
    &&& tree.spec_debug() == options.debug
    &&& tree.spec_stack_capacity() == stack_capacity_for(tree.spec_max_depth() as int)
    &&& 1 <= tree.spec_max_depth() <= limit + 1
    &&& follows_policy(
        tree.spec_nodes(),
        tree.spec_entries(),
        0,
        tree.spec_nodes().len() as int,
        tree.spec_bounding_box(),
        all_triangles(data.triangles@.len()),
        limit,
        options.max_leaf_size as nat,
        triangle_boxes(data),
        difference,
        midpoint,
    )
}

/// True where the scratch space of a build over `n` triangles with the
/// depth limit `limit` cannot be counted in a machine word: one list of
/// `n` triangle indices for each level and the root, and two edges for
/// each triangle.
pub open spec fn scratch_overflows(n: nat, limit: nat) -> bool {
    (limit + 1) * n > usize::MAX || limit + 1 > usize::MAX || 2 * n > usize::MAX
}

/// True where a build over `data` with `options` and the depth limit
/// `limit` can give up: its scratch space cannot be counted, or the tree
/// that the rules give can outgrow the node format.
pub open spec fn gives_up<D: Fn(Scalar, Scalar) -> Scalar, M: Fn(Scalar, Scalar) -> Scalar>(
    data: MeshData,
    options: KDTreeOptions,
    limit: nat,
    difference: &D,
    midpoint: &M,
) -> bool {
    ||| scratch_overflows(data.triangles@.len(), limit)
    ||| outgrows(
        0,
        0,
        bounds_of(data, data.triangles@.len() as int),
        all_triangles(data.triangles@.len()),
        limit,
        options.max_leaf_size as nat,
        triangle_boxes(data),
        difference,
        midpoint,
    )
}

/// True where `limit` is the depth limit a build works with: the one the
/// options name, or else the default for the number of triangles.
pub open spec fn is_depth_limit(options: KDTreeOptions, triangle_count: nat, limit: nat) -> bool {
    match options.max_depth {
        Some(depth) => limit == depth,
        None => is_default_depth(triangle_count, limit),
    }
}

proof fn lemma_pow2_exceeds(d: nat)
    ensures
        d < pow2(d),
    decreases d,
{
    if d == 0 {
        vstd::arithmetic::power2::lemma2_to64();
    } else {
        lemma_pow2_exceeds((d - 1) as nat);
        lemma_pow2_step(d);
    }
}

/// The box of a triangle with numeric corners is ordered, and joining it
/// to a numeric box gives a numeric box that holds it and all the box held
/// before.
proof fn lemma_union_holds(bounds: AABB, tbox: AABB, held: AABB)
    requires
        bounds.is_numeric(),
        tbox.ordered(),
        bounds.contains(held) || held == tbox,
    ensures
        bounds.spec_union(tbox).is_numeric(),
        bounds.spec_union(tbox).contains(held),
{
}

impl LinearKDTree {
    /// Builds the tree over the triangles of `data`.
    ///
    /// `difference(a, b)` supplies `a - b` and `midpoint(a, b)` the number
    /// halfway between `a` and `b`; the library itself only compares
    /// numbers. Each node is split along the axis of its region's longest
    /// extent, at the midpoint of the two central positions among the ends
    /// of its triangles' boxes, until it holds no more than
    /// `options.max_leaf_size` triangles or the depth limit is reached.
    /// Where the options name no depth limit, it is 8 + 1.3 log2(n),
    /// rounded, for a mesh of n triangles.
    ///
    /// Returns `None` only where the scratch space cannot be counted in a
    /// machine word or the tree outgrows the node format: a node index of
    /// 2^30 or more, a leaf of 2^30 triangles or more, or a leaf whose
    /// first entry lies past 2^32 - 1.
    pub fn build<D: Fn(Scalar, Scalar) -> Scalar, M: Fn(Scalar, Scalar) -> Scalar>(
        data: MeshData,
        options: &KDTreeOptions,
        difference: &D,
        midpoint: &M,
    ) -> (tree: Option<LinearKDTree>)
        requires
            data.wf(),
            options.max_leaf_size >= 1,
            forall|a: Scalar, b: Scalar| difference.requires((a, b)),
            forall|a: Scalar, b: Scalar| midpoint.requires((a, b)),
        ensures
            exists|limit: nat|
                {
                    &&& #[trigger] is_depth_limit(*options, data.triangles@.len(), limit)
                    &&& tree matches Some(tree) ==> is_tree_of(
                        tree,
                        data,
                        *options,
                        limit,
                        difference,
                        midpoint,
                    )
                    &&& tree is None ==> gives_up(data, *options, limit, difference, midpoint)
                    &&& sure_to_fit(0, 0, data.triangles@.len() as int, limit) ==> tree is Some
                },
    {
        let triangle_count: usize = data.triangles.len();
        let max_depth: usize = match options.max_depth {
            Some(depth) => depth,
            None => default_max_depth(triangle_count),
        };
        assert(is_depth_limit(*options, data.triangles@.len(), max_depth as nat));
        let ghost fit = sure_to_fit(0, 0, triangle_count as int, max_depth as nat);
        proof {
            lemma_pow2_exceeds(max_depth as nat);
            vstd::arithmetic::power2::lemma_pow2_unfold((max_depth + 1) as nat);
            vstd::arithmetic::power2::lemma2_to64();
            assert(fit ==> (max_depth + 1) * triangle_count <= triangle_count * pow2(
                max_depth as nat,
            )) by (nonlinear_arith)
                requires
                    max_depth + 1 <= pow2(max_depth as nat),
                    0 <= triangle_count,
            ;
        }

        let mut root_bounding_box = AABB::empty();
        let mut triangle_bounding_boxes: Vec<AABB> = Vec::with_capacity(triangle_count);
        let mut t: usize = 0;
        while t < triangle_count
            invariant
                t <= triangle_count,
                triangle_count == data.triangles@.len(),
                data.wf(),
                triangle_bounding_boxes@.len() == t,
                root_bounding_box == bounds_of(data, t as int),
                root_bounding_box.is_numeric(),
                forall|i: int|
                    0 <= i < t ==> (#[trigger] triangle_bounding_boxes@[i]) == data.triangle_box(i),
                forall|i: int| 0 <= i < t ==> (#[trigger] triangle_bounding_boxes@[i]).ordered(),
                forall|i: int|
                    0 <= i < t ==> root_bounding_box.contains(#[trigger] triangle_bounding_boxes@[i]),
            decreases triangle_count - t,
        {
            let triangle = &data.triangles[t];
            assert(data.triangles@[t as int].in_bounds(
                data.vertex_positions@.len() as int,
                data.vertex_normals@.len() as int,
                data.vertex_tex_coords@.len() as int,
            ));
            let v0 = data.get_vertex_position(triangle.position_indices.0);
            let v1 = data.get_vertex_position(triangle.position_indices.1);
            let v2 = data.get_vertex_position(triangle.position_indices.2);
            let bounding_box = AABB::from_triangle(&v0, &v1, &v2);
            proof {
                assert(v0.is_numeric() && v1.is_numeric() && v2.is_numeric());
                assert(bounding_box.ordered());
                let ghost joined = root_bounding_box.spec_union(bounding_box);
                lemma_union_holds(root_bounding_box, bounding_box, bounding_box);
                assert forall|i: int| 0 <= i < t implies joined.contains(
                    #[trigger] triangle_bounding_boxes@[i],
                ) by {
                    lemma_union_holds(root_bounding_box, bounding_box, triangle_bounding_boxes@[i]);
                }
            }
            root_bounding_box = root_bounding_box.union(&bounding_box);
            triangle_bounding_boxes.push(bounding_box);
            t += 1;
        }

        // All working memory is set up before the first node is built.
        let mut indices_below: Vec<usize> = Vec::with_capacity(triangle_count);
        let mut i: usize = 0;
        while i < triangle_count
            invariant
                i <= triangle_count,
                indices_below@.len() == i,
                forall|k: int| 0 <= k < i ==> indices_below@[k] == k,
            decreases triangle_count - i,
        {
            indices_below.push(i);
            i += 1;
        }
        let levels: usize = match max_depth.checked_add(1) {
            Some(levels) => levels,
            None => {
                return None;
            },
        };
        let above_len: usize = match levels.checked_mul(triangle_count) {
            Some(above_len) => above_len,
            None => {
                return None;
            },
        };
        let mut indices_above: Vec<usize> = vec![0usize; above_len];
        let mut edges: Vec<BoundEdge> = match triangle_count.checked_mul(2) {
            Some(capacity) => Vec::with_capacity(capacity),
            None => {
                proof {
                    vstd::arithmetic::power2::lemma_pow2_pos(max_depth as nat);
                    assert(triangle_count <= triangle_count * pow2(max_depth as nat))
                        by (nonlinear_arith)
                        requires
                            pow2(max_depth as nat) >= 1,
                    ;
                }
                return None;
            },
        };

        let mut nodes: Vec<LinearKDTreeNode> = Vec::new();
        let mut linear_triangle_indices: Vec<usize> = Vec::new();

        proof {
            assert forall|k: int| 0 <= k < triangle_count implies (#[trigger] active_set(
                indices_below@,
                indices_above@,
                0,
                false,
                triangle_count as int,
            )[k]) < triangle_bounding_boxes@.len() by {}
        }
        let ghost below0 = indices_below@;
        let ghost above0 = indices_above@;
        proof {
            assert(triangle_bounding_boxes@ =~= triangle_boxes(data));
            assert(active_set(below0, above0, 0, false, triangle_count as int) =~= all_triangles(
                triangle_count as nat,
            ));
        }
        let complete = build_node(
            &mut nodes,
            &mut linear_triangle_indices,
            &mut indices_below,
            &mut indices_above,
            0,
            false,
            triangle_count,
            &root_bounding_box,
            &triangle_bounding_boxes,
            max_depth,
            options,
            &mut edges,
            difference,
            midpoint,
        );
        if !complete {
            return None;
        }
        let depth: usize = Self::max_depth_recursive(
            &nodes,
            0,
            Ghost(linear_triangle_indices@.len() as int),
            Ghost(nodes@.len() as int),
        );
        let intersect_stack_capacity: usize = stack_capacity(depth);

        let ghost mesh = data;
        let tree = LinearKDTree::assemble(
            nodes,
            linear_triangle_indices,
            root_bounding_box,
            data,
            options.debug,
            intersect_stack_capacity,
        );
        proof {
            assert(tree.spec_data() == mesh);
            assert forall|t: int| 0 <= t < tree.spec_data().triangles@.len() implies leaf_holds(
                tree.spec_nodes(),
                tree.spec_entries(),
                0,
                tree.spec_nodes().len() as int,
                tree.spec_bounding_box(),
                t,
                #[trigger] tree.spec_data().triangle_box(t),
            ) by {
                let tbox = triangle_bounding_boxes@[t];
                assert(tbox == mesh.triangle_box(t));
                assert(root_bounding_box.contains(tbox));
                assert(tbox.ordered());
                assert(root_bounding_box.overlaps(tbox));
                assert(active_set(below0, above0, 0, false, triangle_count as int)[t] == t);
            }
        }
        Some(tree)
    }
}

} // verus!
