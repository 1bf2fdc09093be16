//! Axis-aligned bounding boxes and the kd-tree built over them.
//!
//! The tree is the renderer's acceleration structure: primitives are
//! summarized by axis-aligned boxes, the box list is split recursively along
//! coordinate medians, and a leaf stores the indices of the boxes that touch
//! its cell. All of that is exact comparison, counting and partitioning, so
//! it is done here on integer (fixed-point) coordinates, with the guarantees
//! a traversal needs stated and proved: a leaf lists every box that touches
//! its cell, and the leaves together hold exactly the input indices. The
//! application layer converts floating-point geometry to this grid outward
//! (minima rounded down, maxima up), so a box here always encloses the real
//! one, and walks the finished tree with its own ray arithmetic.

use vstd::prelude::*;

verus! {

/// Coordinates live in `[-COORD_LIMIT, COORD_LIMIT]` so that sums and
/// differences of two coordinates never overflow an `i64`.
pub const COORD_LIMIT: i64 = 0x2000_0000_0000_0000;

/// A point on the integer coordinate grid.
#[derive(Clone, Copy, Debug, PartialEq, Eq, Structural)]
pub struct Vec3i {
    /// The x coordinate
    pub x: i64,
    /// The y coordinate
    pub y: i64,
    /// The z coordinate
    pub z: i64,
}

impl Vec3i {
    /// The coordinate along `axis` (0 is x, 1 is y, 2 is z).
    pub open spec fn spec_axis(self, axis: int) -> i64 {
        if axis == 0 {
            self.x
        } else if axis == 1 {
            self.y
        } else {
            self.z
        }
    }

    /// All coordinates lie on the legal grid.
    pub open spec fn in_range(self) -> bool {
        &&& -COORD_LIMIT <= self.x <= COORD_LIMIT
        &&& -COORD_LIMIT <= self.y <= COORD_LIMIT
        &&& -COORD_LIMIT <= self.z <= COORD_LIMIT
    }

    /// Read the coordinate along `axis`.
    pub fn axis(&self, axis: usize) -> (c: i64)
        requires
            axis < 3,
        ensures
            c == self.spec_axis(axis as int),
    {
        if axis == 0 {
            self.x
        } else if axis == 1 {
            self.y
        } else {
            self.z
        }
    }

    /// The point with the coordinate along `axis` replaced by `value`.
    pub open spec fn spec_with_axis(self, axis: int, value: i64) -> Vec3i {
        if axis == 0 {
            Vec3i { x: value, ..self }
        } else if axis == 1 {
            Vec3i { y: value, ..self }
        } else {
            Vec3i { z: value, ..self }
        }
    }

    /// Replace the coordinate along `axis` by `value`.
    pub fn with_axis(&self, axis: usize, value: i64) -> (p: Vec3i)
        requires
            axis < 3,
        ensures
            p == self.spec_with_axis(axis as int, value),
    {
        if axis == 0 {
            Vec3i { x: value, ..*self }
        } else if axis == 1 {
            Vec3i { y: value, ..*self }
        } else {
            Vec3i { z: value, ..*self }
        }
    }
}

/// A 3D axis-aligned bounding box on the integer grid.
#[derive(Clone, Copy, Debug, PartialEq, Eq, Structural)]
pub struct BoundingBox {
    /// The componentwise minimum corner
    pub p_min: Vec3i,
    /// The componentwise maximum corner
    pub p_max: Vec3i,
}

/// The smaller of two coordinates.
pub open spec fn min_i64(a: i64, b: i64) -> i64 {
    if a <= b {
        a
    } else {
        b
    }
}

/// The larger of two coordinates.
pub open spec fn max_i64(a: i64, b: i64) -> i64 {
    if a >= b {
        a
    } else {
        b
    }
}

impl BoundingBox {
    /// A proper (nonempty) box: the minimum corner is below the maximum
    /// corner on every axis. The default box is inverted and thus empty.
    pub open spec fn wf(self) -> bool {
        &&& self.p_min.x <= self.p_max.x
        &&& self.p_min.y <= self.p_max.y
        &&& self.p_min.z <= self.p_max.z
    }

    /// Both corners lie on the legal grid.
    pub open spec fn in_range(self) -> bool {
        self.p_min.in_range() && self.p_max.in_range()
    }

    /// The box contains the grid point `p`.
    pub open spec fn contains_point(self, p: Vec3i) -> bool {
        &&& self.p_min.x <= p.x <= self.p_max.x
        &&& self.p_min.y <= p.y <= self.p_max.y
        &&& self.p_min.z <= p.z <= self.p_max.z
    }

    /// Every point of `other` is a point of `self`.
    pub open spec fn contains_box(self, other: BoundingBox) -> bool {
        &&& self.p_min.x <= other.p_min.x && other.p_max.x <= self.p_max.x
        &&& self.p_min.y <= other.p_min.y && other.p_max.y <= self.p_max.y
        &&& self.p_min.z <= other.p_min.z && other.p_max.z <= self.p_max.z
    }

    /// The boxes share at least one point: their closed coordinate
    /// intervals overlap on every axis.
    pub open spec fn intersects(self, other: BoundingBox) -> bool {
        &&& self.p_min.x <= other.p_max.x && other.p_min.x <= self.p_max.x
        &&& self.p_min.y <= other.p_max.y && other.p_min.y <= self.p_max.y
        &&& self.p_min.z <= other.p_max.z && other.p_min.z <= self.p_max.z
    }

    /// The union box: componentwise minimum and maximum of the corners.
    pub open spec fn spec_merge(self, other: BoundingBox) -> BoundingBox {
        BoundingBox {
            p_min: Vec3i {
                x: min_i64(self.p_min.x, other.p_min.x),
                y: min_i64(self.p_min.y, other.p_min.y),
                z: min_i64(self.p_min.z, other.p_min.z),
            },
            p_max: Vec3i {
                x: max_i64(self.p_max.x, other.p_max.x),
                y: max_i64(self.p_max.y, other.p_max.y),
                z: max_i64(self.p_max.z, other.p_max.z),
            },
        }
    }

    /// Combine two bounding boxes together, to form their union.
    pub fn merge(&self, other: &BoundingBox) -> (r: BoundingBox)
        ensures
            r == self.spec_merge(*other),
    {
        BoundingBox {
            p_min: Vec3i {
                x: if self.p_min.x <= other.p_min.x {
                    self.p_min.x
                } else {
                    other.p_min.x
                },
                y: if self.p_min.y <= other.p_min.y {
                    self.p_min.y
                } else {
                    other.p_min.y
                },
                z: if self.p_min.z <= other.p_min.z {
                    self.p_min.z
                } else {
                    other.p_min.z
                },
            },
            p_max: Vec3i {
                x: if self.p_max.x >= other.p_max.x {
                    self.p_max.x
                } else {
                    other.p_max.x
                },
                y: if self.p_max.y >= other.p_max.y {
                    self.p_max.y
                } else {
                    other.p_max.y
                },
                z: if self.p_max.z >= other.p_max.z {
                    self.p_max.z
                } else {
                    other.p_max.z
                },
            },
        }
    }

    /// The part of the box on the low side of the plane `axis = value`:
    /// the maximum corner is clamped down to the plane.
    pub open spec fn clamp_below(self, axis: int, value: i64) -> BoundingBox {
        BoundingBox {
            p_min: self.p_min,
            p_max: self.p_max.spec_with_axis(axis, min_i64(self.p_max.spec_axis(axis), value)),
        }
    }

    /// The part of the box on the high side of the plane `axis = value`:
    /// the minimum corner is clamped up to the plane.
    pub open spec fn clamp_above(self, axis: int, value: i64) -> BoundingBox {
        BoundingBox {
            p_min: self.p_min.spec_with_axis(axis, max_i64(self.p_min.spec_axis(axis), value)),
            p_max: self.p_max,
        }
    }

    /// Splits the bounding box with respect to the plane `axis = value`,
    /// as a traversal does: each half keeps the far corner and has the
    /// near corner placed exactly on the plane.
    pub fn split(&self, axis: usize, value: i64) -> (r: (BoundingBox, BoundingBox))
        requires
            axis < 3,
        ensures
            r.0 == (BoundingBox { p_min: self.p_min, p_max: self.p_max.spec_with_axis(axis as int, value) }),
            r.1 == (BoundingBox { p_min: self.p_min.spec_with_axis(axis as int, value), p_max: self.p_max }),
    {
        (
            BoundingBox { p_min: self.p_min, p_max: self.p_max.with_axis(axis, value) },
            BoundingBox { p_min: self.p_min.with_axis(axis, value), p_max: self.p_max },
        )
    }
}

impl Default for BoundingBox {
    /// The empty box: inverted corners, the identity of `merge`.
    fn default() -> (r: Self)
        ensures
            r.p_min.x == i64::MAX && r.p_min.y == i64::MAX && r.p_min.z == i64::MAX,
            r.p_max.x == i64::MIN && r.p_max.y == i64::MIN && r.p_max.z == i64::MIN,
    {
        BoundingBox {
            p_min: Vec3i { x: i64::MAX, y: i64::MAX, z: i64::MAX },
            p_max: Vec3i { x: i64::MIN, y: i64::MIN, z: i64::MIN },
        }
    }
}

/// The union of two boxes contains both of them, whatever the boxes.
pub proof fn lemma_merge_contains(b1: BoundingBox, b2: BoundingBox)
    ensures
        b1.spec_merge(b2).contains_box(b1),
        b1.spec_merge(b2).contains_box(b2),
{
}

/// A box clipped to either side of a plane only shrinks, so whatever
/// intersects a clipped box intersects the original.
pub proof fn lemma_clamp_intersects(cell: BoundingBox, b: BoundingBox, axis: int, value: i64)
    requires
        0 <= axis < 3,
    ensures
        b.intersects(cell.clamp_below(axis, value)) ==> b.intersects(cell),
        b.intersects(cell.clamp_above(axis, value)) ==> b.intersects(cell),
{
}

} // verus!

verus! {

/// Fewer boxes than this always make a leaf.
pub const LEAF_SIZE: usize = 16;

/// A split is only worth it when the larger side would hold less than
/// `SCORE_THRESHOLD_NUM / SCORE_THRESHOLD_DEN` of the node's boxes.
pub const SCORE_THRESHOLD_NUM: usize = 85;

/// Denominator of the split-score threshold ratio.
pub const SCORE_THRESHOLD_DEN: usize = 100;

/// A node of the kd-tree: a splitting plane along one axis with two
/// children, or a leaf storing indices into the box list.
pub enum KdNode {
    /// Split by the plane `x = value`
    SplitX(i64, Box<KdNode>, Box<KdNode>),
    /// Split by the plane `y = value`
    SplitY(i64, Box<KdNode>, Box<KdNode>),
    /// Split by the plane `z = value`
    SplitZ(i64, Box<KdNode>, Box<KdNode>),
    /// Indices of the boxes that reached this leaf
    Leaf(Vec<usize>),
}

/// All indices stored in the leaves below `node`.
pub open spec fn index_set(node: KdNode) -> Set<usize>
    decreases node,
{
    match node {
        KdNode::Leaf(idxs) => idxs@.to_set(),
        KdNode::SplitX(_, l, r) => index_set(*l).union(index_set(*r)),
        KdNode::SplitY(_, l, r) => index_set(*l).union(index_set(*r)),
        KdNode::SplitZ(_, l, r) => index_set(*l).union(index_set(*r)),
    }
}

/// `idxs` names every box of `boxes` that touches the cell.
pub open spec fn seeds(boxes: Seq<BoundingBox>, idxs: Seq<usize>, cell: BoundingBox) -> bool {
    forall|i: usize|
        i < boxes.len() && (#[trigger] boxes[i as int]).intersects(cell) ==> idxs.contains(i)
}

/// The guarantee a traversal lives on: walking down from `cell` and
/// clipping it at every splitting plane, each leaf reached lists every box
/// that still touches the clipped cell.
pub open spec fn covers(node: KdNode, cell: BoundingBox, boxes: Seq<BoundingBox>) -> bool
    decreases node,
{
    match node {
        KdNode::Leaf(idxs) => seeds(boxes, idxs@, cell),
        KdNode::SplitX(v, l, r) => covers(*l, cell.clamp_below(0, v), boxes) && covers(
            *r,
            cell.clamp_above(0, v),
            boxes,
        ),
        KdNode::SplitY(v, l, r) => covers(*l, cell.clamp_below(1, v), boxes) && covers(
            *r,
            cell.clamp_above(1, v),
            boxes,
        ),
        KdNode::SplitZ(v, l, r) => covers(*l, cell.clamp_below(2, v), boxes) && covers(
            *r,
            cell.clamp_above(2, v),
            boxes,
        ),
    }
}

/// Every splitting plane below `node` lies within the extent of `bb` on
/// its own axis: the tree never splits outside the space its boxes occupy.
pub open spec fn splits_within(node: KdNode, bb: BoundingBox) -> bool
    decreases node,
{
    match node {
        KdNode::Leaf(_) => true,
        KdNode::SplitX(v, l, r) => bb.p_min.x <= v <= bb.p_max.x && splits_within(*l, bb)
            && splits_within(*r, bb),
        KdNode::SplitY(v, l, r) => bb.p_min.y <= v <= bb.p_max.y && splits_within(*l, bb)
            && splits_within(*r, bb),
        KdNode::SplitZ(v, l, r) => bb.p_min.z <= v <= bb.p_max.z && splits_within(*l, bb)
            && splits_within(*r, bb),
    }
}

/// Below `node`, walking down from `cell` and clipping it at every plane,
/// some branch keeps touching box `i` all the way down to a leaf that
/// lists `i`.
pub open spec fn some_leaf_lists(
    node: KdNode,
    cell: BoundingBox,
    boxes: Seq<BoundingBox>,
    i: usize,
) -> bool
    decreases node,
{
    match node {
        KdNode::Leaf(idxs) => idxs@.contains(i),
        KdNode::SplitX(v, l, r) => (boxes[i as int].intersects(cell.clamp_below(0, v))
            && some_leaf_lists(*l, cell.clamp_below(0, v), boxes, i)) || (boxes[
            i as int
        ].intersects(cell.clamp_above(0, v)) && some_leaf_lists(
            *r,
            cell.clamp_above(0, v),
            boxes,
            i,
        )),
        KdNode::SplitY(v, l, r) => (boxes[i as int].intersects(cell.clamp_below(1, v))
            && some_leaf_lists(*l, cell.clamp_below(1, v), boxes, i)) || (boxes[
            i as int
        ].intersects(cell.clamp_above(1, v)) && some_leaf_lists(
            *r,
            cell.clamp_above(1, v),
            boxes,
            i,
        )),
        KdNode::SplitZ(v, l, r) => (boxes[i as int].intersects(cell.clamp_below(2, v))
            && some_leaf_lists(*l, cell.clamp_below(2, v), boxes, i)) || (boxes[
            i as int
        ].intersects(cell.clamp_above(2, v)) && some_leaf_lists(
            *r,
            cell.clamp_above(2, v),
            boxes,
            i,
        )),
    }
}

/// Why a kd-tree walk finds everything a brute-force scan over the boxes
/// would: whenever a box touches the query cell, one side of every split
/// keeps touching it, so the walk that follows the touched sides ends in
/// a leaf listing the box's index. Together with the leaves holding no
/// index outside the box list, walking the tree and scanning the list
/// consider exactly the same candidates.
pub proof fn lemma_box_reaches_leaf(
    node: KdNode,
    cell: BoundingBox,
    boxes: Seq<BoundingBox>,
    i: usize,
)
    requires
        covers(node, cell, boxes),
        i < boxes.len(),
        boxes[i as int].wf(),
        boxes[i as int].intersects(cell),
    ensures
        some_leaf_lists(node, cell, boxes, i),
    decreases node,
{
    match node {
        KdNode::Leaf(idxs) => {
        },
        KdNode::SplitX(v, l, r) => {
            if boxes[i as int].p_min.x <= v {
                assert(boxes[i as int].intersects(cell.clamp_below(0, v)));
                lemma_box_reaches_leaf(*l, cell.clamp_below(0, v), boxes, i);
            } else {
                assert(boxes[i as int].intersects(cell.clamp_above(0, v)));
                lemma_box_reaches_leaf(*r, cell.clamp_above(0, v), boxes, i);
            }
        },
        KdNode::SplitY(v, l, r) => {
            if boxes[i as int].p_min.y <= v {
                assert(boxes[i as int].intersects(cell.clamp_below(1, v)));
                lemma_box_reaches_leaf(*l, cell.clamp_below(1, v), boxes, i);
            } else {
                assert(boxes[i as int].intersects(cell.clamp_above(1, v)));
                lemma_box_reaches_leaf(*r, cell.clamp_above(1, v), boxes, i);
            }
        },
        KdNode::SplitZ(v, l, r) => {
            if boxes[i as int].p_min.z <= v {
                assert(boxes[i as int].intersects(cell.clamp_below(2, v)));
                lemma_box_reaches_leaf(*l, cell.clamp_below(2, v), boxes, i);
            } else {
                assert(boxes[i as int].intersects(cell.clamp_above(2, v)));
                lemma_box_reaches_leaf(*r, cell.clamp_above(2, v), boxes, i);
            }
        },
    }
}

/// `bb` contains the box of every index in `idxs`.
pub open spec fn enclosed(boxes: Seq<BoundingBox>, idxs: Seq<usize>, bb: BoundingBox) -> bool {
    forall|i: usize| #[trigger]
        idxs.contains(i) ==> i < boxes.len() && bb.contains_box(boxes[i as int])
}

/// How many boxes have their minimum corner at or below `value` on `axis`.
pub open spec fn count_low(s: Seq<BoundingBox>, axis: int, value: i64) -> nat
    decreases s.len(),
{
    if s.len() == 0 {
        0
    } else {
        count_low(s.drop_last(), axis, value) + if s.last().p_min.spec_axis(axis) <= value {
            1nat
        } else {
            0nat
        }
    }
}

/// How many boxes have their maximum corner at or above `value` on `axis`.
pub open spec fn count_high(s: Seq<BoundingBox>, axis: int, value: i64) -> nat
    decreases s.len(),
{
    if s.len() == 0 {
        0
    } else {
        count_high(s.drop_last(), axis, value) + if s.last().p_max.spec_axis(axis) >= value {
            1nat
        } else {
            0nat
        }
    }
}

/// The size of the larger side of a partition at `axis = value`, boxes
/// touching the plane counted on both sides.
pub open spec fn partition_score_spec(s: Seq<BoundingBox>, axis: int, value: i64) -> nat {
    if count_low(s, axis, value) >= count_high(s, axis, value) {
        count_low(s, axis, value)
    } else {
        count_high(s, axis, value)
    }
}

/// The ordering by which coordinates are sorted.
pub open spec fn coord_leq() -> spec_fn(i64, i64) -> bool {
    |a: i64, b: i64| a <= b
}

/// The middle element of the sorted rearrangement of `s`, or the floor
/// average of its two middle elements when the length is even.
pub open spec fn spec_median(s: Seq<i64>) -> i64
    recommends
        s.len() >= 1,
{
    let t = s.sort_by(coord_leq());
    if s.len() % 2 == 1 {
        t[s.len() as int / 2]
    } else {
        ((t[s.len() as int / 2 - 1] + (t[s.len() as int / 2] - t[s.len() as int / 2 - 1])
            / 2) as i64)
    }
}

/// The boxes of `idxs`, in order.
pub open spec fn gathered(boxes: Seq<BoundingBox>, idxs: Seq<usize>) -> Seq<BoundingBox>
    decreases idxs.len(),
{
    if idxs.len() == 0 {
        Seq::empty()
    } else {
        gathered(boxes, idxs.drop_last()).push(boxes[idxs.last() as int])
    }
}

/// The minimum and maximum coordinates of the boxes of `idxs` along
/// `axis`, in order: two entries per box.
pub open spec fn axis_coords(boxes: Seq<BoundingBox>, idxs: Seq<usize>, axis: int) -> Seq<i64>
    decreases idxs.len(),
{
    if idxs.len() == 0 {
        Seq::empty()
    } else {
        axis_coords(boxes, idxs.drop_last(), axis) + seq![
            boxes[idxs.last() as int].p_min.spec_axis(axis),
            boxes[idxs.last() as int].p_max.spec_axis(axis),
        ]
    }
}

/// The indices of `idxs` whose box (same position in `bxs`) reaches at or
/// below the plane `axis = value`, in order.
pub open spec fn low_side(idxs: Seq<usize>, bxs: Seq<BoundingBox>, axis: int, value: i64) -> Seq<
    usize,
>
    recommends
        idxs.len() == bxs.len(),
    decreases idxs.len(),
{
    if idxs.len() == 0 {
        Seq::empty()
    } else {
        let rest = low_side(idxs.drop_last(), bxs.drop_last(), axis, value);
        if bxs.last().p_min.spec_axis(axis) <= value {
            rest.push(idxs.last())
        } else {
            rest
        }
    }
}

/// The indices of `idxs` whose box reaches at or above the plane
/// `axis = value`, in order.
pub open spec fn high_side(idxs: Seq<usize>, bxs: Seq<BoundingBox>, axis: int, value: i64) -> Seq<
    usize,
>
    recommends
        idxs.len() == bxs.len(),
    decreases idxs.len(),
{
    if idxs.len() == 0 {
        Seq::empty()
    } else {
        let rest = high_side(idxs.drop_last(), bxs.drop_last(), axis, value);
        if bxs.last().p_max.spec_axis(axis) >= value {
            rest.push(idxs.last())
        } else {
            rest
        }
    }
}

/// The inverted box that is the identity of `merge`.
pub open spec fn empty_box() -> BoundingBox {
    BoundingBox {
        p_min: Vec3i { x: i64::MAX, y: i64::MAX, z: i64::MAX },
        p_max: Vec3i { x: i64::MIN, y: i64::MIN, z: i64::MIN },
    }
}

/// The union of a list of boxes, folded left to right from the empty box.
pub open spec fn merge_all(s: Seq<BoundingBox>) -> BoundingBox
    decreases s.len(),
{
    if s.len() == 0 {
        empty_box()
    } else {
        merge_all(s.drop_last()).spec_merge(s.last())
    }
}

/// The score at or above which a split is not worth it.
pub open spec fn split_threshold(n: nat) -> nat {
    (n * SCORE_THRESHOLD_NUM as nat) / (SCORE_THRESHOLD_DEN as nat)
}

/// The median coordinate of the boxes of `idxs` along `axis`.
pub open spec fn axis_median(boxes: Seq<BoundingBox>, idxs: Seq<usize>, axis: int) -> i64 {
    spec_median(axis_coords(boxes, idxs, axis))
}

/// The partition score of `idxs` along `axis` at its median coordinate.
pub open spec fn axis_score(boxes: Seq<BoundingBox>, idxs: Seq<usize>, axis: int) -> nat {
    partition_score_spec(gathered(boxes, idxs), axis, axis_median(boxes, idxs, axis))
}

/// When construction stops and stores a leaf: too few boxes, or even the
/// best axis would leave at least the threshold share on one side.
pub open spec fn makes_leaf(boxes: Seq<BoundingBox>, idxs: Seq<usize>) -> bool {
    ||| idxs.len() < LEAF_SIZE as nat
    ||| {
        let s0 = axis_score(boxes, idxs, 0);
        let s1 = axis_score(boxes, idxs, 1);
        let s2 = axis_score(boxes, idxs, 2);
        let smin = if s0 <= s1 && s0 <= s2 {
            s0
        } else if s1 <= s2 {
            s1
        } else {
            s2
        };
        smin >= split_threshold(idxs.len())
    }
}

/// Which axis a splitting node splits on: the axis of greatest extent if
/// its score beats the threshold, otherwise the axis of best score.
pub open spec fn chosen_axis(boxes: Seq<BoundingBox>, idxs: Seq<usize>) -> int {
    let b = merge_all(gathered(boxes, idxs));
    let ex = b.p_max.x - b.p_min.x;
    let ey = b.p_max.y - b.p_min.y;
    let ez = b.p_max.z - b.p_min.z;
    let s0 = axis_score(boxes, idxs, 0);
    let s1 = axis_score(boxes, idxs, 1);
    let s2 = axis_score(boxes, idxs, 2);
    let th = split_threshold(idxs.len());
    let preferred: int = if ex > ey && ex > ez {
        if s0 < th {
            0
        } else {
            3
        }
    } else if ey > ez {
        if s1 < th {
            1
        } else {
            3
        }
    } else if s2 < th {
        2
    } else {
        3
    };
    if preferred != 3 {
        preferred
    } else if s0 < s1 && s0 < s2 {
        0
    } else if s1 < s2 {
        1
    } else {
        2
    }
}

/// The structure construction prescribes, node by node: a leaf holding
/// exactly `idxs` when `makes_leaf` says so, and otherwise a split on the
/// chosen axis at the median coordinate, whose children are built from
/// exactly the indices whose boxes reach each side of the plane.
pub open spec fn builds(boxes: Seq<BoundingBox>, idxs: Seq<usize>, node: KdNode) -> bool
    decreases node,
{
    if makes_leaf(boxes, idxs) {
        match node {
            KdNode::Leaf(l) => l@ == idxs,
            _ => false,
        }
    } else {
        let d = chosen_axis(boxes, idxs);
        let bxs = gathered(boxes, idxs);
        match node {
            KdNode::SplitX(v, l, r) => d == 0 && v == axis_median(boxes, idxs, 0) && builds(
                boxes,
                low_side(idxs, bxs, 0, v),
                *l,
            ) && builds(boxes, high_side(idxs, bxs, 0, v), *r),
            KdNode::SplitY(v, l, r) => d == 1 && v == axis_median(boxes, idxs, 1) && builds(
                boxes,
                low_side(idxs, bxs, 1, v),
                *l,
            ) && builds(boxes, high_side(idxs, bxs, 1, v), *r),
            KdNode::SplitZ(v, l, r) => d == 2 && v == axis_median(boxes, idxs, 2) && builds(
                boxes,
                low_side(idxs, bxs, 2, v),
                *l,
            ) && builds(boxes, high_side(idxs, bxs, 2, v), *r),
            KdNode::Leaf(_) => false,
        }
    }
}

/// A list with the same contents as a sorted list, sorted by the
/// coordinate order, is that sorted list.
proof fn lemma_sorted_version(raw: Seq<i64>, srt: Seq<i64>)
    requires
        raw.to_multiset() == srt.to_multiset(),
        forall|i: int, j: int| 0 <= i <= j < srt.len() ==> srt[i] <= srt[j],
    ensures
        raw.sort_by(coord_leq()) == srt,
{
    let leq = coord_leq();
    assert(vstd::relations::total_ordering(leq)) by {
        assert forall|a: i64, b: i64| #[trigger] leq(a, b) || leq(b, a) by {}
    }
    raw.lemma_sort_by_ensures(leq);
    assert(vstd::relations::sorted_by(srt, leq));
    assert(raw.sort_by(leq).to_multiset() == srt.to_multiset());
    vstd::seq_lib::lemma_sorted_unique(raw.sort_by(leq), srt, leq);
    assert(raw.sort_by(leq) =~= srt);
}

/// Relies on `<[i64]>::sort_unstable`: it sorts the slice in place, so the
/// new contents are the old values rearranged into nondecreasing order.
#[verifier::external_body]
fn sort_coords(v: &mut Vec<i64>)
    ensures
        final(v)@.len() == old(v)@.len(),
        final(v)@.to_multiset() == old(v)@.to_multiset(),
        forall|i: int, j: int| 0 <= i <= j < final(v)@.len() ==> final(v)@[i] <= final(v)@[j],
        forall|i: int| 0 <= i < final(v)@.len() ==> old(v)@.contains(#[trigger] final(v)@[i]),
{
    v.sort_unstable();
}

/// The middle element of a sorted list, or the floor average of the two
/// middle elements when the length is even.
fn median(sorted: &Vec<i64>) -> (m: i64)
    requires
        sorted@.len() >= 1,
        forall|i: int, j: int| 0 <= i <= j < sorted@.len() ==> sorted@[i] <= sorted@[j],
        forall|i: int| 0 <= i < sorted@.len() ==> -COORD_LIMIT <= #[trigger] sorted@[i] <= COORD_LIMIT,
    ensures
        sorted@[(sorted@.len() - 1) as int / 2] <= m <= sorted@[sorted@.len() as int / 2],
        sorted@.len() % 2 == 1 ==> m == sorted@[sorted@.len() as int / 2],
        sorted@.len() % 2 == 0 ==> m == ((sorted@[sorted@.len() as int / 2 - 1] + (sorted@[
            sorted@.len() as int / 2
        ] - sorted@[sorted@.len() as int / 2 - 1]) / 2) as i64),
{
    let n = sorted.len();
    if n % 2 == 1 {
        sorted[n / 2]
    } else {
        let a = sorted[n / 2 - 1];
        let b = sorted[n / 2];
        a + (b - a) / 2
    }
}

/// Count both sides of the partition at `axis = value` and return the size
/// of the larger one.
fn partition_score(bxs: &Vec<BoundingBox>, axis: usize, value: i64) -> (s: usize)
    requires
        axis < 3,
    ensures
        s == partition_score_spec(bxs@, axis as int, value),
{
    let mut lo: usize = 0;
    let mut hi: usize = 0;
    let n = bxs.len();
    let mut k: usize = 0;
    while k < n
        invariant
            k <= n,
            n == bxs@.len(),
            axis < 3,
            lo == count_low(bxs@.take(k as int), axis as int, value),
            hi == count_high(bxs@.take(k as int), axis as int, value),
            lo <= k,
            hi <= k,
        decreases n - k,
    {
        proof {
            assert(bxs@.take(k + 1).drop_last() =~= bxs@.take(k as int));
            assert(bxs@.take(k + 1).last() == bxs@[k as int]);
        }
        if bxs[k].p_min.axis(axis) <= value {
            lo = lo + 1;
        }
        if bxs[k].p_max.axis(axis) >= value {
            hi = hi + 1;
        }
        k = k + 1;
    }
    proof {
        assert(bxs@.take(n as int) =~= bxs@);
    }
    if lo >= hi {
        lo
    } else {
        hi
    }
}

/// Pushing onto a sequence keeps every element it had and adds the new one.
proof fn lemma_push_keeps_elements(s: Seq<usize>, v: usize)
    ensures
        s.push(v).contains(v),
        forall|x: usize| s.contains(x) ==> #[trigger] s.push(v).contains(x),
{
    assert(s.push(v)[s.len() as int] == v);
    assert forall|x: usize| s.contains(x) implies s.push(v).contains(x) by {
        let w = choose|w: int| 0 <= w < s.len() && s[w] == x;
        assert(s.push(v)[w] == x);
    }
}

/// Pushing two coordinates onto a list keeps the old entries in place and
/// appends the new pair at the end.
proof fn lemma_push_pair(s: Seq<i64>, a: i64, b: i64)
    ensures
        s.push(a).push(b).len() == s.len() + 2,
        forall|j: int| 0 <= j < s.len() ==> #[trigger] s.push(a).push(b)[j] == s[j],
        s.push(a).push(b)[s.len() as int] == a,
        s.push(a).push(b)[s.len() as int + 1] == b,
{
}

/// Send every index whose box reaches at or below the plane to the left
/// list and every index whose box reaches at or above it to the right
/// list; a box touching the plane is sent to both.
fn partition(indices: &Vec<usize>, bxs: &Vec<BoundingBox>, axis: usize, value: i64) -> (lr: (
    Vec<usize>,
    Vec<usize>,
))
    requires
        axis < 3,
        bxs@.len() == indices@.len(),
    ensures
        lr.0@ == low_side(indices@, bxs@, axis as int, value),
        lr.1@ == high_side(indices@, bxs@, axis as int, value),
        lr.0@.len() == count_low(bxs@, axis as int, value),
        lr.1@.len() == count_high(bxs@, axis as int, value),
        forall|j: int|
            0 <= j < indices@.len() && (#[trigger] bxs@[j]).p_min.spec_axis(axis as int) <= value
                ==> lr.0@.contains(indices@[j]),
        forall|j: int|
            0 <= j < indices@.len() && (#[trigger] bxs@[j]).p_max.spec_axis(axis as int) >= value
                ==> lr.1@.contains(indices@[j]),
        forall|i: usize| lr.0@.contains(i) ==> indices@.contains(i),
        forall|i: usize| lr.1@.contains(i) ==> indices@.contains(i),
{
    let mut left: Vec<usize> = Vec::new();
    let mut right: Vec<usize> = Vec::new();
    let n = indices.len();
    let mut k: usize = 0;
    while k < n
        invariant
            k <= n,
            n == indices@.len(),
            bxs@.len() == indices@.len(),
            axis < 3,
            left@ == low_side(indices@.take(k as int), bxs@.take(k as int), axis as int, value),
            right@ == high_side(indices@.take(k as int), bxs@.take(k as int), axis as int, value),
            left@.len() == count_low(bxs@.take(k as int), axis as int, value),
            right@.len() == count_high(bxs@.take(k as int), axis as int, value),
            forall|j: int|
                0 <= j < k && (#[trigger] bxs@[j]).p_min.spec_axis(axis as int) <= value
                    ==> left@.contains(indices@[j]),
            forall|j: int|
                0 <= j < k && (#[trigger] bxs@[j]).p_max.spec_axis(axis as int) >= value
                    ==> right@.contains(indices@[j]),
            forall|i: usize| left@.contains(i) ==> indices@.contains(i),
            forall|i: usize| right@.contains(i) ==> indices@.contains(i),
        decreases n - k,
    {
        proof {
            assert(bxs@.take(k + 1).drop_last() =~= bxs@.take(k as int));
            assert(bxs@.take(k + 1).last() == bxs@[k as int]);
            assert(indices@.take(k + 1).drop_last() =~= indices@.take(k as int));
            assert(indices@.take(k + 1).last() == indices@[k as int]);
            assert(indices@.contains(indices@[k as int]));
        }
        let ghost prev_left = left@;
        let ghost prev_right = right@;
        if bxs[k].p_min.axis(axis) <= value {
            left.push(indices[k]);
            proof {
                lemma_push_keeps_elements(prev_left, indices@[k as int]);
            }
        }
        if bxs[k].p_max.axis(axis) >= value {
            right.push(indices[k]);
            proof {
                lemma_push_keeps_elements(prev_right, indices@[k as int]);
            }
        }
        k = k + 1;
    }
    proof {
        assert(bxs@.take(n as int) =~= bxs@);
        assert(indices@.take(n as int) =~= indices@);
    }
    (left, right)
}

} // verus!

verus! {

/// Elements drawn from a list whose members all lie within bounds lie
/// within those bounds themselves.
proof fn lemma_drawn_bounded(s: Seq<i64>, t: Seq<i64>, lo: i64, hi: i64)
    requires
        forall|i: int| 0 <= i < s.len() ==> lo <= #[trigger] s[i] <= hi,
        forall|i: int| 0 <= i < t.len() ==> s.contains(#[trigger] t[i]),
    ensures
        forall|i: int| 0 <= i < t.len() ==> lo <= #[trigger] t[i] <= hi,
{
    assert forall|i: int| 0 <= i < t.len() implies lo <= #[trigger] t[i] <= hi by {
        let w = choose|w: int| 0 <= w < s.len() && s[w] == t[i];
    }
}

/// Every coordinate gathered from well-formed boxes inside `bb` lies
/// within `bb`'s extent on that axis.
proof fn lemma_axis_coords_in_extent(
    boxes: Seq<BoundingBox>,
    idxs: Seq<usize>,
    axis: int,
    bb: BoundingBox,
)
    requires
        0 <= axis < 3,
        enclosed(boxes, idxs, bb),
        forall|i: usize| #[trigger] idxs.contains(i) ==> i < boxes.len() && boxes[i as int].wf(),
    ensures
        forall|t: int|
            0 <= t < axis_coords(boxes, idxs, axis).len() ==> bb.p_min.spec_axis(axis)
                <= #[trigger] axis_coords(boxes, idxs, axis)[t] <= bb.p_max.spec_axis(axis),
    decreases idxs.len(),
{
    if idxs.len() > 0 {
        let prev = axis_coords(boxes, idxs.drop_last(), axis);
        let cur = axis_coords(boxes, idxs, axis);
        assert forall|i: usize| #[trigger] idxs.drop_last().contains(i) implies idxs.contains(
            i,
        ) by {
            let w = choose|w: int| 0 <= w < idxs.drop_last().len() && idxs.drop_last()[w] == i;
            assert(idxs[w] == i);
        }
        lemma_axis_coords_in_extent(boxes, idxs.drop_last(), axis, bb);
        assert(idxs.contains(idxs.last())) by {
            assert(idxs[idxs.len() - 1] == idxs.last());
        }
        let b = boxes[idxs.last() as int];
        assert forall|t: int|
            0 <= t < cur.len() implies bb.p_min.spec_axis(axis) <= #[trigger] cur[t]
            <= bb.p_max.spec_axis(axis) by {
            if t < prev.len() {
                assert(cur[t] == prev[t]);
            } else if t == prev.len() {
                assert(cur[t] == b.p_min.spec_axis(axis));
            } else {
                assert(cur[t] == b.p_max.spec_axis(axis));
            }
        }
    }
}

/// Build the node over `indices`: few boxes make a leaf; otherwise the
/// boxes are partitioned at a median coordinate along a well-scoring axis
/// and the two sides are built recursively, with boxes that touch the
/// plane going to both sides. A split that would leave almost everything
/// on one side is not worth its traversal cost, so such a node stays a
/// leaf.
#[verifier::loop_isolation(false)]
#[verifier::rlimit(100)]
pub fn construct(boxes: &Vec<BoundingBox>, indices: Vec<usize>) -> (node: Box<KdNode>)
    requires
        forall|i: usize| #[trigger]
            indices@.contains(i) ==> i < boxes@.len() && boxes@[i as int].wf()
                && boxes@[i as int].in_range(),
        indices@.len() * SCORE_THRESHOLD_NUM as int <= usize::MAX as int,
    ensures
        builds(boxes@, indices@, *node),
        index_set(*node) == indices@.to_set(),
        forall|cell: BoundingBox| #[trigger]
            seeds(boxes@, indices@, cell) ==> covers(*node, cell, boxes@),
        forall|bb: BoundingBox| #[trigger]
            enclosed(boxes@, indices@, bb) ==> splits_within(*node, bb),
    decreases indices@.len(),
{
    if indices.len() < LEAF_SIZE {
        proof {
            assert(makes_leaf(boxes@, indices@));
        }
        return Box::new(KdNode::Leaf(indices));
    }
    let n = indices.len();
    let mut xs: Vec<i64> = Vec::new();
    let mut ys: Vec<i64> = Vec::new();
    let mut zs: Vec<i64> = Vec::new();
    let mut bxs: Vec<BoundingBox> = Vec::new();
    let mut k: usize = 0;
    while k < n
        invariant
            k <= n,
            bxs@.len() == k,
            xs@.len() == 2 * k,
            ys@.len() == 2 * k,
            zs@.len() == 2 * k,
            forall|j: int| 0 <= j < k ==> #[trigger] bxs@[j] == boxes@[indices@[j] as int],
            forall|j: int| 0 <= j < k ==> (#[trigger] bxs@[j]).wf() && bxs@[j].in_range(),
            bxs@ == gathered(boxes@, indices@.take(k as int)),
            xs@ == axis_coords(boxes@, indices@.take(k as int), 0),
            ys@ == axis_coords(boxes@, indices@.take(k as int), 1),
            zs@ == axis_coords(boxes@, indices@.take(k as int), 2),
            forall|j: int| 0 <= j < xs@.len() ==> -COORD_LIMIT <= #[trigger] xs@[j] <= COORD_LIMIT,
            forall|j: int| 0 <= j < ys@.len() ==> -COORD_LIMIT <= #[trigger] ys@[j] <= COORD_LIMIT,
            forall|j: int| 0 <= j < zs@.len() ==> -COORD_LIMIT <= #[trigger] zs@[j] <= COORD_LIMIT,
        decreases n - k,
    {
        proof {
            assert(indices@.contains(indices@[k as int]));
        }
        let idx = indices[k];
        let b = boxes[idx];
        let ghost prev_xs = xs@;
        let ghost prev_ys = ys@;
        let ghost prev_zs = zs@;
        xs.push(b.p_min.x);
        xs.push(b.p_max.x);
        ys.push(b.p_min.y);
        ys.push(b.p_max.y);
        zs.push(b.p_min.z);
        zs.push(b.p_max.z);
        bxs.push(b);
        proof {
            lemma_push_pair(prev_xs, b.p_min.x, b.p_max.x);
            lemma_push_pair(prev_ys, b.p_min.y, b.p_max.y);
            lemma_push_pair(prev_zs, b.p_min.z, b.p_max.z);
            assert(xs@ == prev_xs.push(b.p_min.x).push(b.p_max.x));
            assert(ys@ == prev_ys.push(b.p_min.y).push(b.p_max.y));
            assert(zs@ == prev_zs.push(b.p_min.z).push(b.p_max.z));
            assert(indices@.take(k + 1).drop_last() =~= indices@.take(k as int));
            assert(indices@.take(k + 1).last() == indices@[k as int]);
            assert(xs@ =~= axis_coords(boxes@, indices@.take(k as int), 0) + seq![
                b.p_min.x,
                b.p_max.x,
            ]);
            assert(ys@ =~= axis_coords(boxes@, indices@.take(k as int), 1) + seq![
                b.p_min.y,
                b.p_max.y,
            ]);
            assert(zs@ =~= axis_coords(boxes@, indices@.take(k as int), 2) + seq![
                b.p_min.z,
                b.p_max.z,
            ]);
            assert(xs@ == axis_coords(boxes@, indices@.take(k + 1), 0));
            assert(ys@ == axis_coords(boxes@, indices@.take(k + 1), 1));
            assert(zs@ == axis_coords(boxes@, indices@.take(k + 1), 2));
            assert(bxs@ == gathered(boxes@, indices@.take(k + 1)));
        }
        k = k + 1;
    }
    let ghost raw_xs = xs@;
    let ghost raw_ys = ys@;
    let ghost raw_zs = zs@;
    sort_coords(&mut xs);
    sort_coords(&mut ys);
    sort_coords(&mut zs);
    proof {
        lemma_drawn_bounded(raw_xs, xs@, (-COORD_LIMIT) as i64, COORD_LIMIT);
        lemma_drawn_bounded(raw_ys, ys@, (-COORD_LIMIT) as i64, COORD_LIMIT);
        lemma_drawn_bounded(raw_zs, zs@, (-COORD_LIMIT) as i64, COORD_LIMIT);
    }
    let mx = median(&xs);
    let my = median(&ys);
    let mz = median(&zs);
    let sx = partition_score(&bxs, 0, mx);
    let sy = partition_score(&bxs, 1, my);
    let sz = partition_score(&bxs, 2, mz);
    let threshold = n * SCORE_THRESHOLD_NUM / SCORE_THRESHOLD_DEN;
    proof {
        assert(indices@.take(n as int) =~= indices@);
        assert(bxs@ == gathered(boxes@, indices@));
        assert(raw_xs == axis_coords(boxes@, indices@, 0));
        assert(raw_ys == axis_coords(boxes@, indices@, 1));
        assert(raw_zs == axis_coords(boxes@, indices@, 2));
        lemma_sorted_version(raw_xs, xs@);
        lemma_sorted_version(raw_ys, ys@);
        lemma_sorted_version(raw_zs, zs@);
        assert(mx == axis_median(boxes@, indices@, 0));
        assert(my == axis_median(boxes@, indices@, 1));
        assert(mz == axis_median(boxes@, indices@, 2));
        assert(sx == axis_score(boxes@, indices@, 0));
        assert(sy == axis_score(boxes@, indices@, 1));
        assert(sz == axis_score(boxes@, indices@, 2));
        assert(threshold == split_threshold(indices@.len()));
    }
    let smin = if sx <= sy && sx <= sz {
        sx
    } else if sy <= sz {
        sy
    } else {
        sz
    };
    if smin >= threshold {
        proof {
            assert(makes_leaf(boxes@, indices@));
        }
        return Box::new(KdNode::Leaf(indices));
    }
    // The merged bounds of this node's boxes, for the extent heuristic
    let mut bounds = bxs[0];
    proof {
        assert(bxs@.take(1).drop_last() =~= bxs@.take(0));
        assert(bxs@.take(1).last() == bxs@[0]);
        assert(bxs@.take(0).len() == 0);
        assert(merge_all(bxs@.take(0)) == empty_box());
        assert(empty_box().spec_merge(bxs@[0]) == bxs@[0]);
        assert(merge_all(bxs@.take(1)) == bxs@[0]);
    }
    let mut k2: usize = 1;
    while k2 < n
        invariant
            1 <= k2 <= n,
            bounds.in_range(),
            bounds == merge_all(bxs@.take(k2 as int)),
        decreases n - k2,
    {
        proof {
            assert(bxs@.take(k2 + 1).drop_last() =~= bxs@.take(k2 as int));
            assert(bxs@.take(k2 + 1).last() == bxs@[k2 as int]);
        }
        bounds = bounds.merge(&bxs[k2]);
        k2 = k2 + 1;
    }
    proof {
        assert(bxs@.take(n as int) =~= bxs@);
        assert(bounds == merge_all(gathered(boxes@, indices@)));
    }
    let ex = bounds.p_max.x - bounds.p_min.x;
    let ey = bounds.p_max.y - bounds.p_min.y;
    let ez = bounds.p_max.z - bounds.p_min.z;
    // First try the axis of greatest extent, then fall back to the axis
    // with the best score; 3 marks "not chosen yet".
    let mut split_axis: usize = 3;
    if ex > ey && ex > ez {
        if sx < threshold {
            split_axis = 0;
        }
    } else if ey > ez {
        if sy < threshold {
            split_axis = 1;
        }
    } else if sz < threshold {
        split_axis = 2;
    }
    if split_axis == 3 {
        if sx < sy && sx < sz {
            split_axis = 0;
        } else if sy < sz {
            split_axis = 1;
        } else {
            split_axis = 2;
        }
    }
    let m = if split_axis == 0 {
        mx
    } else if split_axis == 1 {
        my
    } else {
        mz
    };
    proof {
        assert(!makes_leaf(boxes@, indices@));
        assert(chosen_axis(boxes@, indices@) == split_axis as int);
        assert(m == axis_median(boxes@, indices@, split_axis as int));
        assert(partition_score_spec(bxs@, split_axis as int, m) < threshold);
        assert(100 * (n * 85 / 100) <= 85 * n);
        assert(threshold < n);
    }
    let (left, right) = partition(&indices, &bxs, split_axis, m);
    let ghost left_view = left@;
    let ghost right_view = right@;
    proof {
        assert(count_low(bxs@, split_axis as int, m) <= partition_score_spec(
            bxs@,
            split_axis as int,
            m,
        ));
        assert(count_high(bxs@, split_axis as int, m) <= partition_score_spec(
            bxs@,
            split_axis as int,
            m,
        ));
        assert forall|i: usize| #[trigger]
            left_view.contains(i) implies i < boxes@.len() && boxes@[i as int].wf()
            && boxes@[i as int].in_range() by {
            assert(indices@.contains(i));
        }
        assert forall|i: usize| #[trigger]
            right_view.contains(i) implies i < boxes@.len() && boxes@[i as int].wf()
            && boxes@[i as int].in_range() by {
            assert(indices@.contains(i));
        }
    }
    let lnode = construct(boxes, left);
    let rnode = construct(boxes, right);
    let ghost ln = *lnode;
    let ghost rn = *rnode;
    let node: Box<KdNode> = if split_axis == 0 {
        Box::new(KdNode::SplitX(m, lnode, rnode))
    } else if split_axis == 1 {
        Box::new(KdNode::SplitY(m, lnode, rnode))
    } else {
        Box::new(KdNode::SplitZ(m, lnode, rnode))
    };
    proof {
        assert(index_set(*node) == index_set(ln).union(index_set(rn)));
        assert forall|i: usize| indices@.to_set().contains(i) implies index_set(*node).contains(
            i,
        ) by {
            let j = choose|j: int| 0 <= j < indices@.len() && indices@[j] == i;
            if bxs@[j].p_min.spec_axis(split_axis as int) <= m {
                assert(left_view.contains(indices@[j]));
            } else {
                assert(bxs@[j].p_max.spec_axis(split_axis as int) >= m);
                assert(right_view.contains(indices@[j]));
            }
        }
        assert forall|i: usize| index_set(*node).contains(i) implies indices@.to_set().contains(
            i,
        ) by {
            if left_view.to_set().contains(i) {
                assert(left_view.contains(i));
            } else {
                assert(right_view.contains(i));
            }
        }
        assert(index_set(*node) =~= indices@.to_set());
        assert forall|cell: BoundingBox| #[trigger]
            seeds(boxes@, indices@, cell) implies covers(*node, cell, boxes@) by {
            let cl = cell.clamp_below(split_axis as int, m);
            let cr = cell.clamp_above(split_axis as int, m);
            assert forall|i: usize|
                i < boxes@.len() && (#[trigger] boxes@[i as int]).intersects(
                    cl,
                ) implies left_view.contains(i) by {
                lemma_clamp_intersects(cell, boxes@[i as int], split_axis as int, m);
                assert(indices@.contains(i));
                let j = choose|j: int| 0 <= j < indices@.len() && indices@[j] == i;
                assert(bxs@[j] == boxes@[i as int]);
                assert(boxes@[i as int].p_min.spec_axis(split_axis as int) <= m);
                assert(left_view.contains(indices@[j]));
            }
            assert forall|i: usize|
                i < boxes@.len() && (#[trigger] boxes@[i as int]).intersects(
                    cr,
                ) implies right_view.contains(i) by {
                lemma_clamp_intersects(cell, boxes@[i as int], split_axis as int, m);
                assert(indices@.contains(i));
                let j = choose|j: int| 0 <= j < indices@.len() && indices@[j] == i;
                assert(bxs@[j] == boxes@[i as int]);
                assert(boxes@[i as int].p_max.spec_axis(split_axis as int) >= m);
                assert(right_view.contains(indices@[j]));
            }
            assert(seeds(boxes@, left_view, cl));
            assert(seeds(boxes@, right_view, cr));
            assert(covers(ln, cl, boxes@));
            assert(covers(rn, cr, boxes@));
        }
        assert(builds(boxes@, left_view, ln));
        assert(builds(boxes@, right_view, rn));
        assert(left_view == low_side(indices@, gathered(boxes@, indices@), split_axis as int, m));
        assert(right_view == high_side(indices@, gathered(boxes@, indices@), split_axis as int, m));
        if split_axis == 0 {
            assert(builds(boxes@, indices@, *node));
        } else if split_axis == 1 {
            assert(builds(boxes@, indices@, *node));
        } else {
            assert(builds(boxes@, indices@, *node));
        }
        assert forall|bb: BoundingBox| #[trigger]
            enclosed(boxes@, indices@, bb) implies splits_within(*node, bb) by {
            lemma_axis_coords_in_extent(boxes@, indices@, 0, bb);
            lemma_axis_coords_in_extent(boxes@, indices@, 1, bb);
            lemma_axis_coords_in_extent(boxes@, indices@, 2, bb);
            assert forall|t: int|
                0 <= t < raw_xs.len() implies bb.p_min.x <= #[trigger] raw_xs[t]
                <= bb.p_max.x by {
                assert(axis_coords(boxes@, indices@, 0)[t] == raw_xs[t]);
            }
            assert forall|t: int|
                0 <= t < raw_ys.len() implies bb.p_min.y <= #[trigger] raw_ys[t]
                <= bb.p_max.y by {
                assert(axis_coords(boxes@, indices@, 1)[t] == raw_ys[t]);
            }
            assert forall|t: int|
                0 <= t < raw_zs.len() implies bb.p_min.z <= #[trigger] raw_zs[t]
                <= bb.p_max.z by {
                assert(axis_coords(boxes@, indices@, 2)[t] == raw_zs[t]);
            }
            lemma_drawn_bounded(raw_xs, xs@, bb.p_min.x, bb.p_max.x);
            lemma_drawn_bounded(raw_ys, ys@, bb.p_min.y, bb.p_max.y);
            lemma_drawn_bounded(raw_zs, zs@, bb.p_min.z, bb.p_max.z);
            assert(bb.p_min.x <= mx <= bb.p_max.x);
            assert(bb.p_min.y <= my <= bb.p_max.y);
            assert(bb.p_min.z <= mz <= bb.p_max.z);
            assert forall|i: usize| #[trigger] left_view.contains(i) implies i < boxes@.len()
                && bb.contains_box(boxes@[i as int]) by {
                assert(indices@.contains(i));
            }
            assert forall|i: usize| #[trigger] right_view.contains(i) implies i < boxes@.len()
                && bb.contains_box(boxes@[i as int]) by {
                assert(indices@.contains(i));
            }
            assert(enclosed(boxes@, left_view, bb));
            assert(enclosed(boxes@, right_view, bb));
            assert(splits_within(ln, bb));
            assert(splits_within(rn, bb));
        }
    }
    node
}

} // verus!

verus! {

/// A kd-tree over a collection of bounding boxes, used to accelerate ray
/// intersections: the box list, the node tree over indices into it, and
/// the merged bounds of everything.
pub struct KdTree {
    /// One bounding box per object; the leaves index into this list
    pub boxes: Vec<BoundingBox>,
    /// The root node
    pub root: Box<KdNode>,
    /// The union of all the boxes
    pub bounds: BoundingBox,
}

impl KdTree {
    /// What construction establishes and a traversal relies on: the leaves
    /// below any chain of clipped cells list every box touching the final
    /// cell, the leaves together hold exactly the indices `0..len`, and
    /// `bounds` contains every box. The first two parts are what make a
    /// tree walk equivalent to a brute-force scan of the boxes: no index
    /// is lost, and none is missed by the leaf that a ray's cell reaches.
    pub open spec fn wf(self) -> bool {
        &&& builds(self.boxes@, Seq::new(self.boxes@.len(), |i: int| i as usize), *self.root)
        &&& forall|cell: BoundingBox| covers(*self.root, cell, self.boxes@)
        &&& index_set(*self.root) == Set::new(|i: usize| i < self.boxes@.len())
        &&& forall|i: int|
            0 <= i < self.boxes@.len() ==> self.bounds.contains_box(#[trigger] self.boxes@[i])
        &&& splits_within(*self.root, self.bounds)
    }

    /// The kd-tree sees exactly what a brute-force scan of its box list
    /// sees: every index is stored somewhere in the tree, and for any
    /// query cell a box touches, a walk that follows the touched side of
    /// each split ends in a leaf listing that box.
    pub proof fn lemma_scan_equivalence(self, cell: BoundingBox, i: usize)
        requires
            self.wf(),
            i < self.boxes@.len(),
            self.boxes@[i as int].wf(),
            self.boxes@[i as int].intersects(cell),
        ensures
            index_set(*self.root).contains(i),
            some_leaf_lists(*self.root, cell, self.boxes@, i),
    {
        lemma_box_reaches_leaf(*self.root, cell, self.boxes@, i);
    }

    /// Construct a new kd-tree from a collection of bounding boxes.
    #[verifier::loop_isolation(false)]
    pub fn new(boxes: Vec<BoundingBox>) -> (t: KdTree)
        requires
            forall|i: int|
                0 <= i < boxes@.len() ==> (#[trigger] boxes@[i]).wf() && boxes@[i].in_range(),
            boxes@.len() * SCORE_THRESHOLD_NUM as int <= usize::MAX as int,
        ensures
            t.boxes == boxes,
            t.bounds == merge_all(boxes@),
            t.wf(),
    {
        let n = boxes.len();
        let mut indices: Vec<usize> = Vec::new();
        let mut k: usize = 0;
        while k < n
            invariant
                k <= n,
                indices@.len() == k,
                forall|j: int| 0 <= j < k ==> #[trigger] indices@[j] == j,
            decreases n - k,
        {
            indices.push(k);
            k = k + 1;
        }
        let mut bounds = BoundingBox::default();
        proof {
            assert(boxes@.take(0).len() == 0);
            assert(bounds == merge_all(boxes@.take(0)));
        }
        let mut k2: usize = 0;
        while k2 < n
            invariant
                k2 <= n,
                bounds == merge_all(boxes@.take(k2 as int)),
                forall|j: int| 0 <= j < k2 ==> bounds.contains_box(#[trigger] boxes@[j]),
            decreases n - k2,
        {
            proof {
                assert(boxes@.take(k2 + 1).drop_last() =~= boxes@.take(k2 as int));
                assert(boxes@.take(k2 + 1).last() == boxes@[k2 as int]);
            }
            bounds = bounds.merge(&boxes[k2]);
            k2 = k2 + 1;
        }
        proof {
            assert(boxes@.take(n as int) =~= boxes@);
        }
        let ghost indices_view = indices@;
        proof {
            assert forall|i: usize| #[trigger]
                indices_view.contains(i) implies i < boxes@.len() && boxes@[i as int].wf()
                && boxes@[i as int].in_range() by {
                let w = choose|w: int| 0 <= w < indices_view.len() && indices_view[w] == i;
            }
        }
        let root = construct(&boxes, indices);
        proof {
            assert forall|cell: BoundingBox| covers(*root, cell, boxes@) by {
                assert forall|i: usize|
                    i < boxes@.len() && (#[trigger] boxes@[i as int]).intersects(
                        cell,
                    ) implies indices_view.contains(i) by {
                    assert(indices_view[i as int] == i);
                }
                assert(seeds(boxes@, indices_view, cell));
            }
            assert forall|i: usize| indices_view.to_set().contains(i) implies i
                < boxes@.len() by {
                let w = choose|w: int| 0 <= w < indices_view.len() && indices_view[w] == i;
            }
            assert forall|i: usize| i < boxes@.len() implies indices_view.to_set().contains(
                i,
            ) by {
                assert(indices_view[i as int] == i);
            }
            assert(indices_view.to_set() =~= Set::new(|i: usize| i < boxes@.len()));
            assert forall|i: usize| #[trigger]
                indices_view.contains(i) implies i < boxes@.len() && bounds.contains_box(
                boxes@[i as int],
            ) by {
                let w = choose|w: int| 0 <= w < indices_view.len() && indices_view[w] == i;
            }
            assert(enclosed(boxes@, indices_view, bounds));
            assert(splits_within(*root, bounds));
            assert(indices_view =~= Seq::new(boxes@.len(), |i: int| i as usize));
            assert(builds(boxes@, Seq::new(boxes@.len(), |i: int| i as usize), *root));
        }
        KdTree { boxes, root, bounds }
    }
}

} // verus!
