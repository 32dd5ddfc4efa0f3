//! The bounding volume hierarchy: a flat array of nodes in pre-order over
//! a reordered array of primitives, and the queries that walk it.

use vstd::prelude::*;

use crate::aabb::AABB;
use crate::aggregate::lemma_unreached;
use crate::aggregate::reaches;
use crate::geometry::as_found;
use crate::geometry::first_hit_in;
use crate::geometry::hit_of;
use crate::geometry::hull;
use crate::geometry::lemma_hull_contains;
use crate::geometry::lemma_hull_same;
use crate::geometry::lemma_hull_split;
use crate::geometry::lemma_scan_any_order;
use crate::geometry::lemma_scan_hit;
use crate::geometry::lemma_scan_in_hull;
use crate::geometry::lemma_scan_minimal;
use crate::geometry::lemma_scan_skip;
use crate::geometry::lemma_scan_some_iff_any;
use crate::geometry::lemma_scan_stable;
use crate::geometry::scan_any;
use crate::geometry::scan_hit;
use crate::geometry::scan_range;
use crate::geometry::Geometry;
use crate::geometry::HitResult;
use crate::ratio::lemma_product_bound;
use crate::ratio::Ratio;
use crate::ray::Ray;
use crate::sah::back_of;
use crate::sah::count_if;
use crate::sah::front_of;
use crate::sah::hull_if;
use crate::sah::in_step;
use crate::sah::lemma_decision_same;
use crate::sah::lemma_layout_carries;
use crate::sah::lemma_layout_same;
use crate::sah::lemma_same_boxes_equal;
use crate::sah::lemma_same_boxes_trans;
use crate::sah::lemma_sides_same;
use crate::sah::partition_range;
use crate::sah::sah_decision;
use crate::sah::same_boxes;
use crate::sah::same_outside;
use crate::sah::split_layout;
use crate::sah::union_range;
use crate::sah::MAX_LEN;

verus! {

/// One node of the hierarchy.
///
/// The primitives of a leaf are those from its own `primitive_offset` up
/// to that of the node behind it in the array; for an inner node that
/// range is empty, because its first child follows it.
#[derive(Debug, Clone, Copy, PartialEq, Eq)]
pub struct Node {
    /// The box around every primitive below this node.
    pub bbox: AABB,
    /// The index of the first node behind this node's subtree.
    pub miss_index: u32,
    /// The index of the first primitive below this node.
    pub primitive_offset: u32,
}

/// What one test of a ray against a primitive costs, against what one
/// step through a node costs.
#[derive(Debug, Clone, Copy, PartialEq, Eq)]
pub struct HitCost {
    pub hit: u16,
    pub traversal: u16,
}

/// How the builder splits a run of primitives.
#[derive(Debug, Clone, Copy, PartialEq, Eq)]
pub enum Partition {
    /// By the binned surface-area heuristic.
    Sah,
    /// Not at all: the tree is a single leaf.
    Never,
}

/// A bounding volume hierarchy over primitives of type `T`.
///
/// The tree is built once and never changed: every query reads it alone.
pub struct AABBTree<T: Geometry> {
    objs: Vec<T>,
    nodes: Vec<Node>,
}

/// The offset of node `j` of a run of nodes that ends before `hi`, where
/// the node behind the run counts as starting at primitive `end`.
pub open spec fn offset_at(nodes: Seq<Node>, j: int, hi: int, end: int) -> int {
    if j < hi {
        nodes[j].primitive_offset as int
    } else {
        end
    }
}

/// Node `j` is an inner node: its first child follows it and starts at the
/// same primitive, its second child stands at the miss index of the first
/// and starts at a later primitive, and the second child's subtree ends
/// where the node's own does. Neither child is empty.
pub open spec fn has_children(nodes: Seq<Node>, j: int, hi: int, end: int) -> bool {
    let miss = nodes[j].miss_index as int;
    let second = nodes[j + 1].miss_index as int;
    &&& j + 1 < second < miss
    &&& nodes[second].miss_index == miss
    &&& nodes[j + 1].primitive_offset == nodes[j].primitive_offset
    &&& nodes[j].primitive_offset < nodes[second].primitive_offset < offset_at(
        nodes,
        miss,
        hi,
        end,
    )
}

/// Node `j` of a run of nodes that ends before `hi` and covers the
/// primitives before `end` is sound: its miss index lies behind it and
/// within the run, its offset is not behind that of the next node, its
/// box is the hull of the primitives from its offset up to that of the
/// node at its miss index, and it is a leaf, with no node below it, or
/// has two children.
pub open spec fn node_ok<T: Geometry>(
    nodes: Seq<Node>,
    prims: Seq<T>,
    j: int,
    hi: int,
    end: int,
) -> bool {
    let off = nodes[j].primitive_offset as int;
    let miss = nodes[j].miss_index as int;
    &&& j < miss <= hi
    &&& 0 <= off <= offset_at(nodes, j + 1, hi, end) <= end
    &&& off <= offset_at(nodes, miss, hi, end) <= end
    &&& nodes[j].bbox == hull(prims, off, offset_at(nodes, miss, hi, end))
    &&& miss == j + 1 || has_children(nodes, j, hi, end)
}

/// The nodes `[lo, hi)` are the pre-order of a subtree over the
/// primitives `[begin, end)`.
pub open spec fn run_wf<T: Geometry>(
    nodes: Seq<Node>,
    prims: Seq<T>,
    lo: int,
    hi: int,
    begin: int,
    end: int,
) -> bool {
    &&& 0 <= lo < hi <= nodes.len()
    &&& 0 <= begin <= end <= prims.len()
    &&& nodes[lo].primitive_offset == begin
    &&& nodes[lo].miss_index == hi
    &&& forall|j: int| lo <= j < hi ==> #[trigger] node_ok(nodes, prims, j, hi, end)
}

/// The nodes are a hierarchy over the primitives: the pre-order of one
/// tree over all of them, closed by a sentinel node whose offset is the
/// number of primitives.
pub open spec fn tree_wf<T: Geometry>(nodes: Seq<Node>, prims: Seq<T>) -> bool {
    let last = nodes.len() - 1;
    &&& 2 <= nodes.len() <= u32::MAX
    &&& prims.len() <= MAX_LEN
    &&& run_wf(nodes, prims, 0, last, 0, prims.len() as int)
    &&& nodes[last].primitive_offset == prims.len()
    &&& nodes[last].miss_index == last
    &&& nodes[last].bbox == AABB::spec_new()
}

/// The most nodes a subtree over `k` primitives can have.
pub open spec fn node_budget(k: int) -> int {
    if k <= 1 {
        1
    } else {
        2 * k - 1
    }
}

/// Whether, by the surface-area estimate, splitting a run is cheaper than
/// leaving it one leaf. A ray that passes through the run's box passes
/// through the box of a side with the probability that the two areas give,
/// so the split costs one step plus the hits expected on each side.
pub open spec fn prefers_split(
    cost: HitCost,
    lsize: int,
    larea: int,
    rsize: int,
    rarea: int,
    area: int,
) -> bool {
    cost.traversal * area + cost.hit * (larea * lsize + rarea * rsize) < cost.hit * ((lsize
        + rsize) * area)
}

/// Whether the builder splits the run `boxes[lo..hi]`: the heuristic
/// proposes a split, and by the estimate over the two sides of that split
/// the split is cheaper than a leaf.
pub open spec fn splits(
    boxes: Seq<AABB>,
    lo: int,
    hi: int,
    partition: Partition,
    cost: HitCost,
) -> bool {
    partition is Sah && match sah_decision(boxes, lo, hi) {
        None => false,
        Some(d) => {
            let front = hull_if(boxes, lo, hi, front_of(boxes, lo, hi, d));
            let back = hull_if(boxes, lo, hi, back_of(boxes, lo, hi, d));
            let s = count_if(boxes, lo, hi, front_of(boxes, lo, hi, d));
            prefers_split(
                cost,
                s,
                front.spec_surface_area(),
                hi - lo - s,
                back.spec_surface_area(),
                front.spec_union(back).spec_surface_area(),
            )
        },
    }
}

/// Whether splitting is cheaper than a leaf.
pub fn split_is_cheaper(
    cost: HitCost,
    lsize: usize,
    larea: i128,
    rsize: usize,
    rarea: i128,
    area: i128,
) -> (b: bool)
    requires
        lsize + rsize <= MAX_LEN,
        -0x10_0000_0000_0000_0000 <= larea <= 0x10_0000_0000_0000_0000,
        -0x10_0000_0000_0000_0000 <= rarea <= 0x10_0000_0000_0000_0000,
        -0x10_0000_0000_0000_0000 <= area <= 0x10_0000_0000_0000_0000,
    ensures
        b == prefers_split(cost, lsize as int, larea as int, rsize as int, rarea as int, area as int),
{
    proof {
        lemma_product_bound(cost.traversal as int, area as int, 0x1_0000, 0x10_0000_0000_0000_0000);
        lemma_product_bound(larea as int, lsize as int, 0x10_0000_0000_0000_0000, 0x8000_0000);
        lemma_product_bound(rarea as int, rsize as int, 0x10_0000_0000_0000_0000, 0x8000_0000);
        lemma_product_bound(
            lsize + rsize,
            area as int,
            0x8000_0000,
            0x10_0000_0000_0000_0000,
        );
    }
    let step: i128 = (cost.traversal as i128) * area;
    let sides: i128 = larea * (lsize as i128) + rarea * (rsize as i128);
    let whole: i128 = ((lsize + rsize) as i128) * area;
    proof {
        lemma_product_bound(
            cost.hit as int,
            sides as int,
            0x1_0000,
            0x10_0000_0000_0000_0000_0000_0000,
        );
        lemma_product_bound(
            cost.hit as int,
            whole as int,
            0x1_0000,
            0x8_0000_0000_0000_0000_0000_0000,
        );
    }
    step + (cost.hit as i128) * sides < (cost.hit as i128) * whole
}

/// Boxes that are in step with primitives have the hulls of the
/// primitives.
pub proof fn lemma_union_is_hull<T: Geometry>(bbox: Seq<AABB>, prims: Seq<T>, lo: int, hi: int)
    requires
        in_step(bbox, prims),
        0 <= lo <= hi <= bbox.len(),
    ensures
        union_range(bbox, lo, hi) == hull(prims, lo, hi),
    decreases hi - lo,
{
    if lo < hi {
        lemma_union_is_hull(bbox, prims, lo, hi - 1);
    }
}

/// The box around `bbox[begin..end]`.
pub fn union_of(bbox: &[AABB], begin: usize, end: usize) -> (b: AABB)
    requires
        begin <= end <= bbox@.len(),
    ensures
        b == union_range(bbox@, begin as int, end as int),
{
    let mut b = AABB::new();
    let mut k: usize = begin;
    while k < end
        invariant
            begin <= k <= end <= bbox@.len(),
            b == union_range(bbox@, begin as int, k as int),
        decreases end - k,
    {
        b = b.union(bbox[k]);
        k = k + 1;
    }
    b
}


/// The bounding boxes of `prims`, in the same order.
pub open spec fn boxes_of<T: Geometry>(prims: Seq<T>) -> Seq<AABB> {
    Seq::new(prims.len(), |k: int| prims[k].spec_bounding_box())
}

/// `now` starts with all of `before`.
pub open spec fn extends(now: Seq<Node>, before: Seq<Node>) -> bool {
    &&& before.len() <= now.len()
    &&& forall|k: int| 0 <= k < before.len() ==> #[trigger] now[k] == before[k]
}

/// A sound node stays sound when the nodes and primitives that it does
/// not look at change: later nodes may be added and primitives at or
/// behind `end` may move.
pub proof fn lemma_node_ok_frame<T: Geometry>(
    nodes: Seq<Node>,
    prims: Seq<T>,
    j: int,
    hi: int,
    end: int,
    nodes2: Seq<Node>,
    prims2: Seq<T>,
    hi2: int,
    end2: int,
)
    requires
        0 <= j < hi <= nodes.len(),
        node_ok(nodes, prims, j, hi, end),
        0 <= end <= end2 <= prims.len(),
        prims2.len() == prims.len(),
        forall|k: int| 0 <= k < end ==> #[trigger] prims2[k] == prims[k],
        hi <= hi2 <= nodes2.len(),
        forall|k: int| j <= k < hi ==> #[trigger] nodes2[k] == nodes[k],
        hi < hi2 ==> nodes2[hi].primitive_offset == end,
        hi == hi2 ==> end == end2,
    ensures
        node_ok(nodes2, prims2, j, hi2, end2),
{
    let off = nodes[j].primitive_offset as int;
    let miss = nodes[j].miss_index as int;
    assert(nodes2[j] == nodes[j]);
    assert(offset_at(nodes2, j + 1, hi2, end2) == offset_at(nodes, j + 1, hi, end)) by {
        if j + 1 < hi {
            assert(nodes2[j + 1] == nodes[j + 1]);
        }
    }
    assert(offset_at(nodes2, miss, hi2, end2) == offset_at(nodes, miss, hi, end)) by {
        if miss < hi {
            assert(nodes2[miss] == nodes[miss]);
        }
    }
    lemma_hull_same(prims, prims2, off, offset_at(nodes, miss, hi, end));
    if miss != j + 1 {
        assert(nodes2[j + 1] == nodes[j + 1]);
        assert(nodes2[nodes[j + 1].miss_index as int] == nodes[nodes[j + 1].miss_index as int]);
    }
}

/// Whether the builder splits a run depends on the boxes of the run
/// alone, not on their order.
pub proof fn lemma_splits_same(
    now: Seq<AABB>,
    before: Seq<AABB>,
    lo: int,
    hi: int,
    partition: Partition,
    cost: HitCost,
)
    requires
        0 <= lo <= hi <= now.len(),
        hi <= before.len(),
        same_boxes(now, before, lo, hi),
    ensures
        splits(now, lo, hi, partition, cost) == splits(before, lo, hi, partition, cost),
{
    lemma_decision_same(now, before, lo, hi);
    match sah_decision(before, lo, hi) {
        Some(d) => {
            lemma_sides_same(now, before, lo, hi, d);
        },
        None => {},
    }
}

/// Node `j` of a run of nodes that ends before `hi` and covers the
/// primitives before `end` has children exactly where the builder splits
/// the run of its primitives, and the two children then hold the two
/// sides of the split that the heuristic decides for, the front side
/// first.
pub open spec fn node_shape<T: Geometry>(
    nodes: Seq<Node>,
    prims: Seq<T>,
    j: int,
    hi: int,
    end: int,
    partition: Partition,
    cost: HitCost,
) -> bool {
    let off = nodes[j].primitive_offset as int;
    let skip = offset_at(nodes, nodes[j].miss_index as int, hi, end);
    &&& (nodes[j].miss_index != j + 1) == splits(boxes_of(prims), off, skip, partition, cost)
    &&& nodes[j].miss_index != j + 1 ==> match sah_decision(boxes_of(prims), off, skip) {
        Some(d) => split_layout(
            boxes_of(prims),
            boxes_of(prims),
            off,
            skip,
            d,
            nodes[nodes[j + 1].miss_index as int].primitive_offset - off,
        ),
        None => false,
    }
}

/// Every node of the run `[lo, hi)` has children exactly where the
/// builder splits the run of its primitives.
pub open spec fn run_shape<T: Geometry>(
    nodes: Seq<Node>,
    prims: Seq<T>,
    lo: int,
    hi: int,
    end: int,
    partition: Partition,
    cost: HitCost,
) -> bool {
    forall|j: int| lo <= j < hi ==> #[trigger] node_shape(nodes, prims, j, hi, end, partition, cost)
}

/// The shape of a node stays as it is when the nodes and primitives that
/// it does not look at change.
pub proof fn lemma_node_shape_frame<T: Geometry>(
    nodes: Seq<Node>,
    prims: Seq<T>,
    j: int,
    hi: int,
    end: int,
    nodes2: Seq<Node>,
    prims2: Seq<T>,
    hi2: int,
    end2: int,
    partition: Partition,
    cost: HitCost,
)
    requires
        0 <= j < hi <= nodes.len(),
        node_ok(nodes, prims, j, hi, end),
        node_shape(nodes, prims, j, hi, end, partition, cost),
        0 <= end <= end2 <= prims.len(),
        prims2.len() == prims.len(),
        forall|k: int| 0 <= k < end ==> #[trigger] prims2[k] == prims[k],
        hi <= hi2 <= nodes2.len(),
        forall|k: int| j <= k < hi ==> #[trigger] nodes2[k] == nodes[k],
        hi < hi2 ==> nodes2[hi].primitive_offset == end,
        hi == hi2 ==> end == end2,
    ensures
        node_shape(nodes2, prims2, j, hi2, end2, partition, cost),
{
    let off = nodes[j].primitive_offset as int;
    let miss = nodes[j].miss_index as int;
    let skip = offset_at(nodes, miss, hi, end);
    assert(nodes2[j] == nodes[j]);
    assert(offset_at(nodes2, miss, hi2, end2) == skip) by {
        if miss < hi {
            assert(nodes2[miss] == nodes[miss]);
        }
    }
    lemma_same_boxes_equal(boxes_of(prims2), boxes_of(prims), off, skip);
    lemma_splits_same(boxes_of(prims2), boxes_of(prims), off, skip, partition, cost);
    lemma_decision_same(boxes_of(prims2), boxes_of(prims), off, skip);
    if miss != j + 1 {
        let second = nodes[j + 1].miss_index as int;
        assert(nodes2[j + 1] == nodes[j + 1]);
        assert(nodes2[second] == nodes[second]);
        lemma_layout_same(
            boxes_of(prims2),
            boxes_of(prims),
            off,
            skip,
            sah_decision(boxes_of(prims), off, skip).unwrap(),
            nodes[second].primitive_offset - off,
        );
    }
}

/// What building the two children leaves of a split: the run still holds
/// the boxes that it held, it is still laid out as the split asks, and the
/// heuristic still decides for that split.
pub proof fn lemma_split_survives<T: Geometry>(
    bbox0: Seq<AABB>,
    bbox1: Seq<AABB>,
    bbox2: Seq<AABB>,
    bbox3: Seq<AABB>,
    objs1: Seq<T>,
    objs2: Seq<T>,
    objs3: Seq<T>,
    begin: int,
    mid: int,
    end: int,
    partition: Partition,
    cost: HitCost,
)
    requires
        0 <= begin <= mid <= end <= bbox0.len(),
        in_step(bbox1, objs1),
        in_step(bbox2, objs2),
        in_step(bbox3, objs3),
        bbox1.len() == bbox0.len(),
        same_boxes(bbox1, bbox0, begin, end),
        sah_decision(bbox0, begin, end) is Some,
        split_layout(
            bbox1,
            bbox0,
            begin,
            end,
            sah_decision(bbox0, begin, end).unwrap(),
            mid - begin,
        ),
        same_outside(objs2, objs1, begin, mid),
        same_boxes(bbox2, bbox1, begin, mid),
        same_outside(objs3, objs2, mid, end),
        same_boxes(bbox3, bbox2, mid, end),
    ensures
        same_boxes(bbox3, bbox0, begin, end),
        splits(bbox3, begin, end, partition, cost) == splits(bbox0, begin, end, partition, cost),
        sah_decision(bbox3, begin, end) == sah_decision(bbox0, begin, end),
        split_layout(
            bbox3,
            bbox3,
            begin,
            end,
            sah_decision(bbox0, begin, end).unwrap(),
            mid - begin,
        ),
{
    let d = sah_decision(bbox0, begin, end).unwrap();
    lemma_same_boxes_equal(bbox3, bbox2, begin, mid);
    lemma_same_boxes_trans(bbox3, bbox2, bbox1, begin, mid);
    lemma_same_boxes_equal(bbox2, bbox1, mid, end);
    lemma_same_boxes_trans(bbox3, bbox2, bbox1, mid, end);
    lemma_layout_carries(bbox3, bbox1, bbox0, begin, mid, end, d);
    lemma_splits_same(bbox3, bbox0, begin, end, partition, cost);
    lemma_decision_same(bbox3, bbox0, begin, end);
}

impl<T: Geometry> AABBTree<T> {
    /// Builds the subtree over the primitives `[begin, end)` and appends
    /// its nodes, in pre-order, to `nodes`.
    ///
    /// The run is split where the heuristic proposes a split and the
    /// surface-area estimate finds it cheaper than a leaf; both halves are
    /// then built the same way, the front half first. Primitives move
    /// only within the run, each together with its box.
    #[verifier::rlimit(40)]
    pub fn construct_node(
        bbox: &mut [AABB],
        objs: &mut [T],
        begin: usize,
        end: usize,
        nodes: &mut Vec<Node>,
        partition: Partition,
        hit_cost: HitCost,
    )
        requires
            in_step(old(bbox)@, old(objs)@),
            begin <= end <= old(objs)@.len() <= MAX_LEN,
            old(nodes)@.len() + node_budget(end - begin) < u32::MAX,
        ensures
            in_step(final(bbox)@, final(objs)@),
            same_outside(final(objs)@, old(objs)@, begin as int, end as int),
            final(objs)@.to_multiset() == old(objs)@.to_multiset(),
            extends(final(nodes)@, old(nodes)@),
            final(nodes)@.len() <= old(nodes)@.len() + node_budget(end - begin),
            run_wf(
                final(nodes)@,
                final(objs)@,
                old(nodes)@.len() as int,
                final(nodes)@.len() as int,
                begin as int,
                end as int,
            ),
            partition is Never || sah_decision(old(bbox)@, begin as int, end as int) is None ==> {
                &&& final(nodes)@.len() == old(nodes)@.len() + 1
                &&& final(objs)@ == old(objs)@
            },
            splits(old(bbox)@, begin as int, end as int, partition, hit_cost) <==> final(nodes)@[old(
                nodes,
            )@.len() as int].miss_index != old(nodes)@.len() + 1,
            same_boxes(final(bbox)@, old(bbox)@, begin as int, end as int),
            run_shape(
                final(nodes)@,
                final(objs)@,
                old(nodes)@.len() as int,
                final(nodes)@.len() as int,
                end as int,
                partition,
                hit_cost,
            ),
        decreases end - begin,
    {
        let ghost nodes0 = nodes@;
        let ghost objs0 = objs@;
        let ghost bbox0 = bbox@;
        let index = nodes.len();
        nodes.push(Node { bbox: AABB::new(), miss_index: u32::MAX, primitive_offset: u32::MAX });
        proof {
            lemma_same_boxes_equal(bbox0, bbox0, begin as int, end as int);
        }
        let split = match partition {
            Partition::Sah => partition_range(bbox, objs, begin, end),
            Partition::Never => None,
        };
        let ghost objs1 = objs@;
        let ghost bbox1 = bbox@;
        let mut bb = AABB::new();
        let mut is_leaf = true;
        match split {
            Some(len) => {
                let mid = begin + len;
                let lbox = union_of(bbox, begin, mid);
                let rbox = union_of(bbox, mid, end);
                bb = lbox.union(rbox);
                proof {
                    lemma_union_is_hull(bbox@, objs@, begin as int, mid as int);
                    lemma_union_is_hull(bbox@, objs@, mid as int, end as int);
                    lemma_hull_split(objs@, begin as int, mid as int, end as int);
                }
                if split_is_cheaper(
                    hit_cost,
                    len,
                    lbox.surface_area(),
                    end - mid,
                    rbox.surface_area(),
                    bb.surface_area(),
                ) {
                    is_leaf = false;
                    Self::construct_node(bbox, objs, begin, mid, nodes, partition, hit_cost);
                    let ghost nodes2 = nodes@;
                    let ghost objs2 = objs@;
                    let ghost bbox2 = bbox@;
                    let right = nodes.len();
                    Self::construct_node(bbox, objs, mid, end, nodes, partition, hit_cost);
                    let ghost nodes3 = nodes@;
                    let ghost objs3 = objs@;
                    let ghost bbox3 = bbox@;
                    let past = nodes.len();
                    proof {
                        lemma_split_survives(
                            bbox0,
                            bbox1,
                            bbox2,
                            bbox3,
                            objs1,
                            objs2,
                            objs3,
                            begin as int,
                            mid as int,
                            end as int,
                            partition,
                            hit_cost,
                        );
                        assert(boxes_of(objs3) =~= bbox3);
                    }
                    proof {
                        assert(node_ok(nodes2, objs2, index + 1, right as int, mid as int));
                        lemma_node_ok_frame(
                            nodes2,
                            objs2,
                            index + 1,
                            right as int,
                            mid as int,
                            nodes3,
                            objs3,
                            past as int,
                            end as int,
                        );
                        assert(node_ok(nodes3, objs3, right as int, past as int, end as int));
                        lemma_hull_split(objs3, begin as int, mid as int, end as int);
                    }
                    bb = nodes[index + 1].bbox.union(nodes[right].bbox);
                    nodes[index] =
                    Node { bbox: bb, miss_index: past as u32, primitive_offset: begin as u32 };
                    proof {
                        let nodes4 = nodes@;
                        assert forall|j: int| index <= j < past implies #[trigger] node_ok(
                            nodes4,
                            objs3,
                            j,
                            past as int,
                            end as int,
                        ) by {
                            if j == index {
                                assert(nodes4[index + 1] == nodes2[index + 1]);
                            } else if j < right {
                                assert(node_ok(nodes2, objs2, j, right as int, mid as int));
                                lemma_node_ok_frame(
                                    nodes2,
                                    objs2,
                                    j,
                                    right as int,
                                    mid as int,
                                    nodes4,
                                    objs3,
                                    past as int,
                                    end as int,
                                );
                            } else {
                                assert(node_ok(nodes3, objs3, j, past as int, end as int));
                                lemma_node_ok_frame(
                                    nodes3,
                                    objs3,
                                    j,
                                    past as int,
                                    end as int,
                                    nodes4,
                                    objs3,
                                    past as int,
                                    end as int,
                                );
                            }
                        }
                        assert forall|j: int| index <= j < past implies #[trigger] node_shape(
                            nodes4,
                            objs3,
                            j,
                            past as int,
                            end as int,
                            partition,
                            hit_cost,
                        ) by {
                            if j == index {
                            } else if j < right {
                                assert(node_ok(nodes2, objs2, j, right as int, mid as int));
                                assert(node_shape(
                                    nodes2,
                                    objs2,
                                    j,
                                    right as int,
                                    mid as int,
                                    partition,
                                    hit_cost,
                                ));
                                lemma_node_shape_frame(
                                    nodes2,
                                    objs2,
                                    j,
                                    right as int,
                                    mid as int,
                                    nodes4,
                                    objs3,
                                    past as int,
                                    end as int,
                                    partition,
                                    hit_cost,
                                );
                            } else {
                                assert(node_ok(nodes3, objs3, j, past as int, end as int));
                                assert(node_shape(
                                    nodes3,
                                    objs3,
                                    j,
                                    past as int,
                                    end as int,
                                    partition,
                                    hit_cost,
                                ));
                                lemma_node_shape_frame(
                                    nodes3,
                                    objs3,
                                    j,
                                    past as int,
                                    end as int,
                                    nodes4,
                                    objs3,
                                    past as int,
                                    end as int,
                                    partition,
                                    hit_cost,
                                );
                            }
                        }
                    }
                }
            },
            None => {
                bb = union_of(bbox, begin, end);
                proof {
                    lemma_union_is_hull(bbox@, objs@, begin as int, end as int);
                }
            },
        }
        if is_leaf {
            let past = nodes.len();
            nodes[index] =
            Node { bbox: bb, miss_index: past as u32, primitive_offset: begin as u32 };
            proof {
                lemma_same_boxes_equal(bbox@, bbox1, begin as int, end as int);
                lemma_same_boxes_trans(bbox@, bbox1, bbox0, begin as int, end as int);
                lemma_splits_same(bbox@, bbox0, begin as int, end as int, partition, hit_cost);
                assert(boxes_of(objs@) =~= bbox@);
            }
        }
    }
}


impl<T: Geometry> View for AABBTree<T> {
    type V = Seq<T>;

    /// The primitives, in the order in which the tree keeps them.
    closed spec fn view(&self) -> Seq<T> {
        self.objs@
    }
}

impl<T: Geometry> AABBTree<T> {
    /// The nodes, in pre-order, with the sentinel last.
    pub closed spec fn spec_nodes(self) -> Seq<Node> {
        self.nodes@
    }

    /// The nodes are a hierarchy over the primitives.
    #[verifier::type_invariant]
    pub open spec fn wf(self) -> bool {
        tree_wf(self.spec_nodes(), self@)
    }

    /// The tree has the shape that the builder gives it with `partition`
    /// and `cost`: a node has children exactly where the builder splits the
    /// run of the node's primitives, and its children then hold the two
    /// sides of the split. Only the order of the primitives within a leaf
    /// is left open.
    pub open spec fn built_by(self, partition: Partition, cost: HitCost) -> bool {
        run_shape(
            self.spec_nodes(),
            self@,
            0,
            self.spec_nodes().len() - 1,
            self@.len() as int,
            partition,
            cost,
        )
    }

    /// Builds the tree over `objs`, splitting runs as `partition` says and
    /// weighing each proposed split with `hit_cost`.
    ///
    /// The tree keeps the primitives it was given, in an order of its own.
    pub fn with_partition(objs: Vec<T>, partition: Partition, hit_cost: HitCost) -> (tree: Self)
        requires
            objs@.len() <= MAX_LEN,
        ensures
            tree.wf(),
            tree@.len() == objs@.len(),
            tree@.to_multiset() == objs@.to_multiset(),
            partition is Never || sah_decision(boxes_of(objs@), 0, objs@.len() as int) is None ==> {
                &&& tree.spec_nodes().len() == 2
                &&& tree@ == objs@
            },
            splits(boxes_of(objs@), 0, objs@.len() as int, partition, hit_cost)
                <==> tree.spec_nodes()[0].miss_index != 1,
            tree.built_by(partition, hit_cost),
    {
        let mut objs = objs;
        let n = objs.len();
        let mut nodes: Vec<Node> = Vec::new();
        let mut bbox: Vec<AABB> = Vec::new();
        let mut k: usize = 0;
        while k < n
            invariant
                k <= n == objs@.len(),
                bbox@.len() == k,
                forall|j: int| 0 <= j < k ==> #[trigger] bbox@[j] == objs@[j].spec_bounding_box(),
            decreases n - k,
        {
            bbox.push(objs[k].bounding_box());
            k = k + 1;
        }
        assert(bbox@ =~= boxes_of(objs@));
        Self::construct_node(
            bbox.as_mut_slice(),
            objs.as_mut_slice(),
            0,
            n,
            &mut nodes,
            partition,
            hit_cost,
        );
        let m = nodes.len();
        let ghost built = nodes@;
        nodes.push(Node { bbox: AABB::new(), miss_index: m as u32, primitive_offset: n as u32 });
        proof {
            assert forall|j: int| 0 <= j < m implies #[trigger] node_ok(
                nodes@,
                objs@,
                j,
                m as int,
                n as int,
            ) by {
                assert(node_ok(built, objs@, j, m as int, n as int));
                lemma_node_ok_frame(
                    built,
                    objs@,
                    j,
                    m as int,
                    n as int,
                    nodes@,
                    objs@,
                    m as int,
                    n as int,
                );
            }
            assert forall|j: int| 0 <= j < m implies #[trigger] node_shape(
                nodes@,
                objs@,
                j,
                m as int,
                n as int,
                partition,
                hit_cost,
            ) by {
                assert(node_ok(built, objs@, j, m as int, n as int));
                assert(node_shape(built, objs@, j, m as int, n as int, partition, hit_cost));
                lemma_node_shape_frame(
                    built,
                    objs@,
                    j,
                    m as int,
                    n as int,
                    nodes@,
                    objs@,
                    m as int,
                    n as int,
                    partition,
                    hit_cost,
                );
            }
        }
        AABBTree { objs, nodes }
    }

    /// Builds the tree over `objs` with the surface-area heuristic.
    pub fn new(objs: Vec<T>, hit_cost: HitCost) -> (tree: Self)
        requires
            objs@.len() <= MAX_LEN,
        ensures
            tree.wf(),
            tree@.len() == objs@.len(),
            tree@.to_multiset() == objs@.to_multiset(),
            sah_decision(boxes_of(objs@), 0, objs@.len() as int) is None ==> {
                &&& tree.spec_nodes().len() == 2
                &&& tree@ == objs@
            },
            splits(boxes_of(objs@), 0, objs@.len() as int, Partition::Sah, hit_cost)
                <==> tree.spec_nodes()[0].miss_index != 1,
            tree.built_by(Partition::Sah, hit_cost),
    {
        Self::with_partition(objs, Partition::Sah, hit_cost)
    }

    /// The primitives, in the order in which the tree keeps them.
    pub fn primitives(&self) -> (objs: &Vec<T>)
        ensures
            objs@ == self@,
    {
        &self.objs
    }

    /// The nodes, in pre-order, with the sentinel last.
    pub fn nodes(&self) -> (nodes: &Vec<Node>)
        ensures
            nodes@ == self.spec_nodes(),
            tree_wf(nodes@, self@),
    {
        proof {
            use_type_invariant(self);
        }
        &self.nodes
    }

    /// Gives the primitives back, in the order in which the tree kept
    /// them.
    pub fn into_vec(self) -> (objs: Vec<T>)
        ensures
            objs@ == self@,
    {
        self.objs
    }
}


/// The offsets of a hierarchy never fall from one node to a later one.
pub proof fn lemma_offsets_monotone<T: Geometry>(nodes: Seq<Node>, prims: Seq<T>, i: int, j: int)
    requires
        tree_wf(nodes, prims),
        0 <= i <= j < nodes.len(),
    ensures
        nodes[i].primitive_offset <= nodes[j].primitive_offset <= prims.len(),
    decreases j - i,
{
    let last = nodes.len() - 1;
    if j < last {
        assert(node_ok(nodes, prims, j, last, prims.len() as int));
    }
    if i < j {
        lemma_offsets_monotone(nodes, prims, i, j - 1);
        assert(node_ok(nodes, prims, j - 1, last, prims.len() as int));
    }
}

/// The box of a node contains the box of every primitive from the node's
/// offset up to the offset of the node at its miss index.
pub proof fn lemma_node_contains<T: Geometry>(nodes: Seq<Node>, prims: Seq<T>, i: int, k: int)
    requires
        tree_wf(nodes, prims),
        0 <= i < nodes.len() - 1,
        nodes[i].primitive_offset <= k < nodes[nodes[i].miss_index as int].primitive_offset,
    ensures
        0 <= k < prims.len(),
        nodes[i].bbox.contains(prims[k].spec_bounding_box()),
{
    let last = nodes.len() - 1;
    assert(node_ok(nodes, prims, i, last, prims.len() as int));
    lemma_hull_contains(
        prims,
        nodes[i].primitive_offset as int,
        nodes[nodes[i].miss_index as int].primitive_offset as int,
        k,
    );
}

impl<T: Geometry> AABBTree<T> {
    /// Walks the nodes for one query.
    ///
    /// The walk starts at the root. Where the ray does not pass through a
    /// node's box between its origin and the nearest hit so far, the walk
    /// jumps to the node's miss index and so leaves out the whole subtree;
    /// otherwise it asks the node's own primitives in storage order and
    /// steps to the next node. The box test is exact, so it needs no
    /// tolerance at the faces of a box.
    ///
    /// With `exit_immediate` the walk ends at the first primitive that is
    /// hit, asking primitives only whether they are hit: the second result
    /// says whether there was one, and the first is `None`. Without it the
    /// first result is the nearest hit with the index of its primitive, as
    /// the linear scan over the primitives gives them.
    pub fn traverse(&self, ray: &Ray, t_max: Ratio, exit_immediate: bool) -> (r: (
        Option<(usize, HitResult)>,
        bool,
    ))
        requires
            t_max.wf(),
        ensures
            !exit_immediate ==> as_found(r.0) == scan_hit(self@, *ray, t_max) && r.1 == (r.0
                is Some),
            exit_immediate ==> r.0 is None && r.1 == scan_any(self@, *ray, t_max),
    {
        proof {
            use_type_invariant(self);
        }
        let last = self.nodes.len() - 1;
        let mag = ray.dir_magnitude();
        let neg = ray.dir_sign();
        let mut best: Option<(usize, HitResult)> = None;
        let mut i: usize = 0;
        proof {
            assert(self.objs@.take(0) =~= Seq::<T>::empty());
            assert(ray.matches(ray.pos, mag, neg));
        }
        while i < last
            invariant
                i <= last == self.nodes@.len() - 1,
                tree_wf(self.nodes@, self.objs@),
                t_max.wf(),
                ray.matches(ray.pos, mag, neg),
                forall|j: int| 0 <= j < 3 ==> 0 <= #[trigger] mag.at(j) <= 0x8000_0000,
                !exit_immediate ==> as_found(best) == scan_hit(
                    self.objs@.take(self.nodes@[i as int].primitive_offset as int),
                    *ray,
                    t_max,
                ),
                exit_immediate ==> best is None && forall|k: int|
                    0 <= k < self.nodes@[i as int].primitive_offset ==> (
                    #[trigger] self.objs@[k]).spec_hit(*ray, t_max) is None,
            decreases last - i,
        {
            let node = &self.nodes[i];
            let ghost off = node.primitive_offset as int;
            let ghost skip = self.nodes@[node.miss_index as int].primitive_offset as int;
            proof {
                assert(node_ok(self.nodes@, self.objs@, i as int, last as int, self.objs@.len() as int));
                lemma_offsets_monotone(self.nodes@, self.objs@, i as int, i + 1);
                lemma_offsets_monotone(self.nodes@, self.objs@, i as int, node.miss_index as int);
                lemma_scan_hit(self.objs@.take(off), *ray, t_max);
            }
            let bound = match best {
                Some((_, h)) => h.t,
                None => t_max,
            };
            let reached = match node.bbox.fast_intersect_ray(ray.pos, mag, neg) {
                Some((t_in, t_out)) => {
                    proof {
                        node.bbox.lemma_intersect_some(*ray, t_max);
                    }
                    t_in.is_le(bound) && Ratio::zero().is_le(t_out)
                },
                None => false,
            };
            assert(reached == reaches(node.bbox, *ray, bound));
            if reached {
                let begin = node.primitive_offset as usize;
                let end = self.nodes[i + 1].primitive_offset as usize;
                if exit_immediate {
                    if first_hit_in(&self.objs, begin, end, ray, t_max).is_some() {
                        return (None, true);
                    }
                } else {
                    best = scan_range(&self.objs, begin, end, ray, t_max, best);
                }
                i = i + 1;
            } else {
                proof {
                    assert forall|k: int| off <= k < skip implies (#[trigger] self.objs@[k]).spec_hit(
                        *ray,
                        bound,
                    ) is None by {
                        lemma_node_contains(self.nodes@, self.objs@, i as int, k);
                        lemma_unreached(node.bbox, self.objs@[k], *ray, bound);
                    }
                    if !exit_immediate {
                        lemma_scan_skip(self.objs@, *ray, t_max, off, skip);
                    }
                }
                i = node.miss_index as usize;
            }
        }
        proof {
            assert(self.objs@.take(self.objs@.len() as int) =~= self.objs@);
        }
        (best, best.is_some())
    }

    /// The nearest hit of `ray` below `t_max`, with the index of the
    /// primitive that is hit: what the linear scan over the tree's
    /// primitives gives.
    pub fn nearest_hit(&self, ray: &Ray, t_max: Ratio) -> (r: Option<(usize, HitResult)>)
        requires
            t_max.wf(),
        ensures
            as_found(r) == scan_hit(self@, *ray, t_max),
    {
        self.traverse(ray, t_max, false).0
    }

    /// Whether `ray` hits any primitive below `t_max`.
    pub fn any_hit(&self, ray: &Ray, t_max: Ratio) -> (b: bool)
        requires
            t_max.wf(),
        ensures
            b == scan_any(self@, *ray, t_max),
    {
        self.traverse(ray, t_max, true).1
    }
}

impl<T: Geometry> Geometry for AABBTree<T> {
    open spec fn spec_bounding_box(&self) -> AABB {
        hull(self@, 0, self@.len() as int)
    }

    open spec fn spec_hit(&self, ray: Ray, t_max: Ratio) -> Option<HitResult> {
        hit_of(scan_hit(self@, ray, t_max))
    }

    proof fn lemma_hit_in_box(&self, ray: Ray, t_max: Ratio) {
        lemma_scan_in_hull(self@, ray, t_max);
    }

    proof fn lemma_hit_stable(&self, ray: Ray, t_max: Ratio, t_other: Ratio) {
        lemma_scan_stable(self@, ray, t_max, t_other);
    }

    /// The box of the root.
    fn bounding_box(&self) -> (b: AABB) {
        proof {
            use_type_invariant(self);
            assert(node_ok(
                self.nodes@,
                self.objs@,
                0,
                self.nodes@.len() - 1,
                self.objs@.len() as int,
            ));
        }
        self.nodes[0].bbox
    }

    fn hit(&self, ray: &Ray, t_max: Ratio) -> (r: Option<HitResult>) {
        match self.nearest_hit(ray, t_max) {
            Some((_, h)) => Some(h),
            None => None,
        }
    }

    fn is_hit(&self, ray: &Ray, t_max: Ratio) -> (b: bool) {
        proof {
            lemma_scan_some_iff_any(self@, *ray, t_max);
        }
        self.any_hit(ray, t_max)
    }
}


/// Every primitive lies in the leaf range of exactly one node: the offsets
/// of neighbouring nodes cut the primitives into ranges without gaps or
/// overlaps. The result is the node whose range holds primitive `k`.
pub proof fn lemma_leaf_ranges<T: Geometry>(nodes: Seq<Node>, prims: Seq<T>, k: int) -> (i: int)
    requires
        tree_wf(nodes, prims),
        0 <= k < prims.len(),
    ensures
        nodes[0].primitive_offset == 0,
        nodes[nodes.len() - 1].primitive_offset == prims.len(),
        forall|j: int|
            0 <= j < nodes.len() - 1 ==> (#[trigger] nodes[j]).primitive_offset <= nodes[j
                + 1].primitive_offset,
        0 <= i < nodes.len() - 1,
        nodes[i].primitive_offset <= k < nodes[i + 1].primitive_offset,
        forall|j: int|
            0 <= j < nodes.len() - 1 && (#[trigger] nodes[j]).primitive_offset <= k < nodes[j
                + 1].primitive_offset ==> j == i,
{
    let last = nodes.len() - 1;
    assert forall|j: int| 0 <= j < last implies (#[trigger] nodes[j]).primitive_offset <= nodes[j
        + 1].primitive_offset by {
        lemma_offsets_monotone(nodes, prims, j, j + 1);
    }
    let i = lemma_find_leaf(nodes, prims, k, last);
    assert forall|j: int|
        0 <= j < last && (#[trigger] nodes[j]).primitive_offset <= k < nodes[j
            + 1].primitive_offset implies j == i by {
        if j < i {
            lemma_offsets_monotone(nodes, prims, j + 1, i);
        } else if i < j {
            lemma_offsets_monotone(nodes, prims, i + 1, j);
        }
    }
    i
}

/// Among the nodes before `hi`, whose offset lies behind `k`, the last one
/// whose offset does not.
proof fn lemma_find_leaf<T: Geometry>(nodes: Seq<Node>, prims: Seq<T>, k: int, hi: int) -> (i: int)
    requires
        tree_wf(nodes, prims),
        0 <= k,
        0 < hi < nodes.len(),
        k < nodes[hi].primitive_offset,
    ensures
        0 <= i < hi,
        nodes[i].primitive_offset <= k < nodes[i + 1].primitive_offset,
    decreases hi,
{
    if nodes[hi - 1].primitive_offset <= k {
        hi - 1
    } else {
        lemma_find_leaf(nodes, prims, k, hi - 1)
    }
}

impl<T: Geometry> AABBTree<T> {
    /// The box of the root is the hull of the primitives, and it contains
    /// the box of every primitive that the tree was built from.
    pub proof fn lemma_root_contains(self, objs: Seq<T>, i: int)
        requires
            self.wf(),
            self@.to_multiset() == objs.to_multiset(),
            0 <= i < objs.len(),
        ensures
            self.spec_nodes()[0].bbox == self.spec_bounding_box(),
            self.spec_bounding_box().contains(objs[i].spec_bounding_box()),
    {
        broadcast use vstd::seq_lib::to_multiset_contains;

        assert(node_ok(
            self.spec_nodes(),
            self@,
            0,
            self.spec_nodes().len() - 1,
            self@.len() as int,
        ));
        assert(objs.contains(objs[i]));
        assert(self@.to_multiset().count(objs[i]) > 0);
        assert(self@.contains(objs[i]));
        let k = choose|k: int| 0 <= k < self@.len() && self@[k] == objs[i];
        lemma_hull_contains(self@, 0, self@.len() as int, k);
    }

    /// The nearest hit is the nearest: it is the hit of the primitive that
    /// the query names, no primitive of the tree is hit nearer, and none
    /// that the tree keeps before that primitive is hit as near. Where the
    /// query finds nothing, no primitive is hit.
    pub proof fn lemma_nearest_is_minimal(self, ray: Ray, t_max: Ratio)
        requires
            t_max.wf(),
        ensures
            match scan_hit(self@, ray, t_max) {
                Some((i, h)) => {
                    &&& 0 <= i < self@.len()
                    &&& self@[i].spec_hit(ray, t_max) == Some(h)
                    &&& Ratio::spec_from_int(0).lt(h.t)
                    &&& h.t.lt(t_max)
                    &&& forall|j: int|
                        0 <= j < self@.len() ==> match (#[trigger] self@[j]).spec_hit(ray, t_max) {
                            Some(other) => h.t.le(other.t) && (j < i ==> h.t.lt(other.t)),
                            None => true,
                        }
                },
                None => forall|j: int|
                    0 <= j < self@.len() ==> (#[trigger] self@[j]).spec_hit(ray, t_max) is None,
            },
    {
        lemma_scan_minimal(self@, ray, t_max);
        lemma_scan_hit(self@, ray, t_max);
    }

    /// The tree answers as the linear scan over a list of the same
    /// primitives does: with the same hit where the list keeps the tree's
    /// order, and with a hit at the same distance, or none, whatever the
    /// order of the list.
    pub proof fn lemma_same_as_linear_scan(self, list: Seq<T>, ray: Ray, t_max: Ratio)
        requires
            t_max.wf(),
            self@.to_multiset() == list.to_multiset(),
        ensures
            list == self@ ==> self.spec_hit(ray, t_max) == hit_of(scan_hit(list, ray, t_max)),
            self.spec_hit(ray, t_max) is Some <==> scan_hit(list, ray, t_max) is Some,
            self.spec_hit(ray, t_max) is Some ==> self.spec_hit(ray, t_max).unwrap().t.same(
                scan_hit(list, ray, t_max).unwrap().1.t,
            ),
            scan_any(self@, ray, t_max) <==> scan_any(list, ray, t_max),
    {
        lemma_scan_any_order(self@, list, ray, t_max);
        lemma_scan_some_iff_any(self@, ray, t_max);
        lemma_scan_some_iff_any(list, ray, t_max);
    }

    /// A query is a function of the tree, the ray and the bound: asked
    /// twice, it answers the same.
    pub proof fn lemma_query_repeatable(
        self,
        ray: Ray,
        t_max: Ratio,
        first: Option<(usize, HitResult)>,
        second: Option<(usize, HitResult)>,
        any_first: bool,
        any_second: bool,
    )
        requires
            as_found(first) == scan_hit(self@, ray, t_max),
            as_found(second) == scan_hit(self@, ray, t_max),
            any_first == scan_any(self@, ray, t_max),
            any_second == scan_any(self@, ray, t_max),
        ensures
            first == second,
            any_first == any_second,
    {
    }
}


/// What a tree looks like: how many primitives and nodes it has, how many
/// of its nodes are leaves that hold primitives, and how many primitives
/// the smallest and the largest of those hold.
#[derive(Debug, Clone, Copy, PartialEq, Eq)]
pub struct TreeStats {
    pub objs: usize,
    /// The number of nodes, the sentinel among them.
    pub nodes: usize,
    pub leafs: usize,
    /// The least number of primitives in a leaf; the number of all
    /// primitives where no leaf holds any.
    pub min_leaf: u32,
    /// The greatest number of primitives in a leaf.
    pub max_leaf: u32,
}

/// The number of primitives in the leaf range of node `i`.
pub open spec fn leaf_size(nodes: Seq<Node>, i: int) -> int {
    nodes[i + 1].primitive_offset - nodes[i].primitive_offset
}

/// How many of the first `k` nodes hold primitives.
pub open spec fn leaf_count(nodes: Seq<Node>, k: int) -> int
    decreases k,
{
    if k <= 0 {
        0
    } else {
        leaf_count(nodes, k - 1) + (if leaf_size(nodes, k - 1) > 0 {
            1int
        } else {
            0int
        })
    }
}

/// The least size among those of the first `k` nodes that hold
/// primitives, and `start` where none does or all hold more.
pub open spec fn leaf_min(nodes: Seq<Node>, k: int, start: int) -> int
    decreases k,
{
    if k <= 0 {
        start
    } else {
        let rest = leaf_min(nodes, k - 1, start);
        let size = leaf_size(nodes, k - 1);
        if 0 < size < rest {
            size
        } else {
            rest
        }
    }
}

/// The greatest size among those of the first `k` nodes; zero where none
/// holds primitives.
pub open spec fn leaf_max(nodes: Seq<Node>, k: int) -> int
    decreases k,
{
    if k <= 0 {
        0
    } else {
        let rest = leaf_max(nodes, k - 1);
        let size = leaf_size(nodes, k - 1);
        if size > rest {
            size
        } else {
            rest
        }
    }
}

impl<T: Geometry> AABBTree<T> {
    /// Counts the leaves and measures their sizes.
    pub fn stats(&self) -> (r: TreeStats)
        ensures
            r.objs == self@.len(),
            r.nodes == self.spec_nodes().len(),
            r.leafs == leaf_count(self.spec_nodes(), self.spec_nodes().len() - 1),
            r.min_leaf == leaf_min(
                self.spec_nodes(),
                self.spec_nodes().len() - 1,
                self@.len() as int,
            ),
            r.max_leaf == leaf_max(self.spec_nodes(), self.spec_nodes().len() - 1),
    {
        proof {
            use_type_invariant(self);
        }
        let last = self.nodes.len() - 1;
        let mut leafs: usize = 0;
        let mut min_leaf: u32 = self.objs.len() as u32;
        let mut max_leaf: u32 = 0;
        let mut i: usize = 0;
        while i < last
            invariant
                i <= last == self.nodes@.len() - 1,
                tree_wf(self.nodes@, self.objs@),
                leafs == leaf_count(self.nodes@, i as int),
                leafs <= i,
                min_leaf == leaf_min(self.nodes@, i as int, self.objs@.len() as int),
                max_leaf == leaf_max(self.nodes@, i as int),
            decreases last - i,
        {
            proof {
                lemma_offsets_monotone(self.nodes@, self.objs@, i as int, i + 1);
            }
            let size: u32 = self.nodes[i + 1].primitive_offset - self.nodes[i].primitive_offset;
            if size > 0 {
                if size < min_leaf {
                    min_leaf = size;
                }
                if size > max_leaf {
                    max_leaf = size;
                }
                leafs = leafs + 1;
            }
            i = i + 1;
        }
        TreeStats { objs: self.objs.len(), nodes: self.nodes.len(), leafs, min_leaf, max_leaf }
    }
}

} // verus!
