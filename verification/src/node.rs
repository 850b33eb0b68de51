//! The packed eight-byte node of the linear k-d tree.

use vstd::prelude::*;
use crate::math_util::Axis;
use crate::scalar::Scalar;

verus! {

/// Largest value the 30-bit part of a node can hold.
pub const MAX_PAYLOAD: u32 = 0x3FFF_FFFFu32;

/// A node of the tree in its mathematical form.
pub enum NodeView {
    /// A splitting plane. The child below the plane is the next node in the
    /// vector; `above_child` is the index of the child above it.
    Inner { axis: Axis, above_child: nat, split_position: Scalar },
    /// `count` triangle indices, stored from `start` on.
    Leaf { count: nat, start: nat },
}

/// Two 32-bit fields.
///
/// Leaf: the two low bits of the first field are `0b11`, its 30 high bits
/// hold the number of triangles; the second field is the index of the
/// leaf's first entry in the tree's triangle index list.
///
/// Inner node: the two low bits of the first field hold the split axis
/// (0 to 2), its 30 high bits the index of the child above the split; the
/// second field is the bit pattern of the split position.
#[derive(Clone, Copy, Debug)]
pub struct LinearKDTreeNode {
    first_field: u32,
    second_field: u32,
}

/// The axis with the given position, for positions below 3.
pub open spec fn axis_at(index: int) -> Axis {
    if index == 0 {
        Axis::X
    } else if index == 1 {
        Axis::Y
    } else {
        Axis::Z
    }
}

impl View for LinearKDTreeNode {
    type V = NodeView;

    closed spec fn view(&self) -> NodeView {
        if self.first_field & 3 == 3 {
            NodeView::Leaf { count: (self.first_field >> 2) as nat, start: self.second_field as nat }
        } else {
            NodeView::Inner {
                axis: axis_at((self.first_field & 3) as int),
                above_child: (self.first_field >> 2) as nat,
                split_position: Scalar { bits: self.second_field },
            }
        }
    }
}

impl LinearKDTreeNode {
    /// A leaf of `triangle_count` entries. Only the low 30 bits of the
    /// count fit into the node.
    pub fn new_leaf(triangle_count: u32, triangles_start_index: u32) -> (node: LinearKDTreeNode)
        ensures
            node@ == (NodeView::Leaf {
                count: (triangle_count & MAX_PAYLOAD) as nat,
                start: triangles_start_index as nat,
            }),
            triangle_count <= MAX_PAYLOAD ==> node@ == (NodeView::Leaf {
                count: triangle_count as nat,
                start: triangles_start_index as nat,
            }),
    {
        assert(((triangle_count << 2) | 3) & 3 == 3) by (bit_vector);
        assert(((triangle_count << 2) | 3) >> 2 == triangle_count & 0x3FFF_FFFF) by (bit_vector);
        assert(triangle_count <= 0x3FFF_FFFF ==> triangle_count & 0x3FFF_FFFF == triangle_count)
            by (bit_vector);
        LinearKDTreeNode {
            first_field: (triangle_count << 2) | 3,
            second_field: triangles_start_index,
        }
    }

    /// An inner node. Only the low 30 bits of the child index fit into the
    /// node.
    pub fn new_inner(above_child_index: u32, split_axis: Axis, split_position: Scalar) -> (node:
        LinearKDTreeNode)
        ensures
            node@ == (NodeView::Inner {
                axis: split_axis,
                above_child: (above_child_index & MAX_PAYLOAD) as nat,
                split_position,
            }),
            above_child_index <= MAX_PAYLOAD ==> node@ == (NodeView::Inner {
                axis: split_axis,
                above_child: above_child_index as nat,
                split_position,
            }),
    {
        let axis_bits: u32 = split_axis.index();
        assert(axis_bits < 3 ==> ((above_child_index << 2) | axis_bits) & 3 == axis_bits)
            by (bit_vector);
        assert(axis_bits < 3 ==> ((above_child_index << 2) | axis_bits) >> 2 == above_child_index
            & 0x3FFF_FFFF) by (bit_vector);
        assert(above_child_index <= 0x3FFF_FFFF ==> above_child_index & 0x3FFF_FFFF
            == above_child_index) by (bit_vector);
        let node = LinearKDTreeNode {
            first_field: (above_child_index << 2) | axis_bits,
            second_field: split_position.to_bits(),
        };
        assert(node@ is Inner);
        assert(node@->split_position == split_position);
        node
    }

    /// True for an inner node, false for a leaf.
    pub fn is_inner(&self) -> (r: bool)
        ensures
            r == (self@ is Inner),
    {
        self.first_field & 3 != 3
    }

    /// The axis an inner node splits along.
    pub fn split_axis(&self) -> (axis: Axis)
        requires
            self@ is Inner,
        ensures
            axis == self@->axis,
    {
        let first: u32 = self.first_field;
        let low: u32 = first & 3;
        assert(first & 3 <= 3) by (bit_vector);
        Axis::from_u32(low)
    }

    /// Index of the child above the split of an inner node.
    pub fn above_child_index(&self) -> (index: u32)
        requires
            self@ is Inner,
        ensures
            index == self@->above_child,
            index <= MAX_PAYLOAD,
    {
        let first: u32 = self.first_field;
        assert(first >> 2 <= 0x3FFF_FFFF) by (bit_vector);
        first >> 2
    }

    /// Replaces the index of the child above the split and keeps the rest.
    pub fn set_above_child_index(&mut self, above_child_index: u32)
        requires
            old(self)@ is Inner,
        ensures
            final(self)@ == (NodeView::Inner {
                axis: old(self)@->axis,
                above_child: (above_child_index & MAX_PAYLOAD) as nat,
                split_position: old(self)@->split_position,
            }),
            above_child_index <= MAX_PAYLOAD ==> final(self)@ == (NodeView::Inner {
                axis: old(self)@->axis,
                above_child: above_child_index as nat,
                split_position: old(self)@->split_position,
            }),
    {
        let first: u32 = self.first_field;
        let low: u32 = first & 3;
        assert(((above_child_index << 2) | low) & 3 == low) by (bit_vector)
            requires
                low == first & 3,
        ;
        assert(((above_child_index << 2) | low) >> 2 == above_child_index & 0x3FFF_FFFF)
            by (bit_vector)
            requires
                low == first & 3,
        ;
        assert(above_child_index <= 0x3FFF_FFFF ==> above_child_index & 0x3FFF_FFFF
            == above_child_index) by (bit_vector);
        self.first_field = (above_child_index << 2) | low;
    }

    /// Number of triangles a leaf lists.
    pub fn triangle_count(&self) -> (count: u32)
        requires
            self@ is Leaf,
        ensures
            count == self@->count,
            count <= MAX_PAYLOAD,
    {
        let first: u32 = self.first_field;
        assert(first >> 2 <= 0x3FFF_FFFF) by (bit_vector);
        first >> 2
    }

    /// Index of a leaf's first entry in the tree's list of triangle indices.
    pub fn triangles_start_index(&self) -> (start: u32)
        requires
            self@ is Leaf,
        ensures
            start == self@->start,
    {
        self.second_field
    }

    /// The split position, as the bit pattern it was stored with.
    pub fn split_position(&self) -> (position: Scalar)
        requires
            self@ is Inner,
        ensures
            position == self@->split_position,
    {
        Scalar::from_bits(self.second_field)
    }
}

} // verus!
