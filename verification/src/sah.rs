//! The binned surface-area heuristic: where to split a run of boxes.
//!
//! For each axis the centres of the boxes are sorted into `NUM_BUCKETS`
//! buckets of equal width between the least and the greatest centre. A
//! split between two neighbouring buckets costs the number of boxes on
//! each side times the surface area of the box around that side. The
//! cheapest split wins; among equals, the first in the order of axes and
//! then of boundaries.

use vstd::prelude::*;

use crate::aabb::max_int;
use crate::aabb::min_int;
use crate::aabb::AABB;
use crate::geometry::Geometry;
use crate::ratio::lemma_product_bound;

verus! {

/// The number of buckets along each axis.
pub const NUM_BUCKETS: usize = 16;

/// A run shorter than this is never split. Two boxes are the fewest that
/// leave one on either side; whether a longer run is worth splitting is
/// for the cost estimate of the builder to say.
pub const MIN_SPLIT_LEN: usize = 2;

/// The most boxes a run may hold.
pub const MAX_LEN: usize = 0x7fff_ffff;

/// Above twice every centre; the least centre of an empty run.
pub const CENTROID_INF: i64 = 0x1_0000_0000;

/// The least doubled centre on `axis` among `boxes[lo..hi]`.
pub open spec fn centroid_min(boxes: Seq<AABB>, lo: int, hi: int, axis: int) -> int
    decreases hi - lo,
{
    if hi <= lo {
        CENTROID_INF as int
    } else {
        min_int(centroid_min(boxes, lo, hi - 1, axis), boxes[hi - 1].centroid2(axis))
    }
}

/// The greatest doubled centre on `axis` among `boxes[lo..hi]`.
pub open spec fn centroid_max(boxes: Seq<AABB>, lo: int, hi: int, axis: int) -> int
    decreases hi - lo,
{
    if hi <= lo {
        -(CENTROID_INF as int)
    } else {
        max_int(centroid_max(boxes, lo, hi - 1, axis), boxes[hi - 1].centroid2(axis))
    }
}

/// The bucket of the box `b` on `axis`, for buckets that start at the
/// doubled centre `origin` and together span `span`. The greatest centre
/// falls into the last bucket, and with no span at all every box falls
/// into the first.
pub open spec fn bucket_of(b: AABB, axis: int, origin: int, span: int) -> int {
    let off = b.centroid2(axis) - origin;
    if span <= 0 || off <= 0 {
        0
    } else {
        let q = (NUM_BUCKETS as int * off) / span;
        if q > NUM_BUCKETS as int - 1 {
            NUM_BUCKETS as int - 1
        } else {
            q
        }
    }
}

/// How many of `boxes[lo..hi]` fall into bucket `b`.
pub open spec fn bucket_count(
    boxes: Seq<AABB>,
    lo: int,
    hi: int,
    axis: int,
    origin: int,
    span: int,
    b: int,
) -> int
    decreases hi - lo,
{
    if hi <= lo {
        0
    } else {
        bucket_count(boxes, lo, hi - 1, axis, origin, span, b) + (if bucket_of(
            boxes[hi - 1],
            axis,
            origin,
            span,
        ) == b {
            1int
        } else {
            0int
        })
    }
}

/// The box around those of `boxes[lo..hi]` that fall into bucket `b`.
pub open spec fn bucket_hull(
    boxes: Seq<AABB>,
    lo: int,
    hi: int,
    axis: int,
    origin: int,
    span: int,
    b: int,
) -> AABB
    decreases hi - lo,
{
    if hi <= lo {
        AABB::spec_new()
    } else {
        let rest = bucket_hull(boxes, lo, hi - 1, axis, origin, span, b);
        if bucket_of(boxes[hi - 1], axis, origin, span) == b {
            rest.spec_union(boxes[hi - 1])
        } else {
            rest
        }
    }
}

/// The sum of `sizes[from..to]`.
pub open spec fn sum_range(sizes: Seq<usize>, from: int, to: int) -> int
    decreases to - from,
{
    if to <= from {
        0
    } else {
        sum_range(sizes, from, to - 1) + sizes[to - 1]
    }
}

/// The union of `hulls[from..to]`, folded from the left.
pub open spec fn union_range(hulls: Seq<AABB>, from: int, to: int) -> AABB
    decreases to - from,
{
    if to <= from {
        AABB::spec_new()
    } else {
        union_range(hulls, from, to - 1).spec_union(hulls[to - 1])
    }
}

/// The cost of splitting before bucket `i`, from the size of each bucket
/// and the box around it.
pub open spec fn boundary_cost(sizes: Seq<usize>, hulls: Seq<AABB>, i: int) -> int {
    sum_range(sizes, 0, i) * union_range(hulls, 0, i).spec_surface_area() + sum_range(
        sizes,
        i,
        NUM_BUCKETS as int,
    ) * union_range(hulls, i, NUM_BUCKETS as int).spec_surface_area()
}

/// Splitting before bucket `i` leaves boxes on both sides.
pub open spec fn boundary_valid(sizes: Seq<usize>, i: int) -> bool {
    sum_range(sizes, 0, i) > 0 && sum_range(sizes, i, NUM_BUCKETS as int) > 0
}

/// The size of each bucket of `boxes[lo..hi]` on `axis`.
pub open spec fn bucket_sizes(boxes: Seq<AABB>, lo: int, hi: int, axis: int) -> Seq<usize> {
    let origin = centroid_min(boxes, lo, hi, axis);
    let span = centroid_max(boxes, lo, hi, axis) - origin;
    Seq::new(
        NUM_BUCKETS as nat,
        |b: int| bucket_count(boxes, lo, hi, axis, origin, span, b) as usize,
    )
}

/// The box around each bucket of `boxes[lo..hi]` on `axis`.
pub open spec fn bucket_hulls(boxes: Seq<AABB>, lo: int, hi: int, axis: int) -> Seq<AABB> {
    let origin = centroid_min(boxes, lo, hi, axis);
    let span = centroid_max(boxes, lo, hi, axis) - origin;
    Seq::new(NUM_BUCKETS as nat, |b: int| bucket_hull(boxes, lo, hi, axis, origin, span, b))
}

/// The cost of candidate `c`: the split on axis `c / NUM_BUCKETS` before
/// bucket `c % NUM_BUCKETS`.
pub open spec fn candidate_cost(boxes: Seq<AABB>, lo: int, hi: int, c: int) -> int {
    let axis = c / (NUM_BUCKETS as int);
    boundary_cost(
        bucket_sizes(boxes, lo, hi, axis),
        bucket_hulls(boxes, lo, hi, axis),
        c % (NUM_BUCKETS as int),
    )
}

/// Candidate `c` leaves boxes on both sides.
pub open spec fn candidate_valid(boxes: Seq<AABB>, lo: int, hi: int, c: int) -> bool {
    boundary_valid(bucket_sizes(boxes, lo, hi, c / (NUM_BUCKETS as int)), c % (NUM_BUCKETS as int))
}

/// The best of the candidates below `c`: the first among the valid ones of
/// least cost.
pub open spec fn best_below(boxes: Seq<AABB>, lo: int, hi: int, c: int) -> Option<int>
    decreases c,
{
    if c <= 0 {
        None
    } else {
        let prev = best_below(boxes, lo, hi, c - 1);
        if candidate_valid(boxes, lo, hi, c - 1) && (prev is None || candidate_cost(
            boxes,
            lo,
            hi,
            c - 1,
        ) < candidate_cost(boxes, lo, hi, prev.unwrap())) {
            Some(c - 1)
        } else {
            prev
        }
    }
}

/// What the heuristic decides for `boxes[lo..hi]`: the axis and the bucket
/// before which to split, or `None` where the run is too short or no split
/// leaves boxes on both sides.
pub open spec fn sah_decision(boxes: Seq<AABB>, lo: int, hi: int) -> Option<(int, int)> {
    if hi - lo < MIN_SPLIT_LEN as int {
        None
    } else {
        match best_below(boxes, lo, hi, 3 * NUM_BUCKETS as int) {
            Some(c) => Some((c / (NUM_BUCKETS as int), c % (NUM_BUCKETS as int))),
            None => None,
        }
    }
}

/// The box `b` belongs to the front side of the split that `decision`
/// names among `boxes[lo..hi]`: its bucket is not before the boundary.
pub open spec fn goes_front(boxes: Seq<AABB>, lo: int, hi: int, decision: (int, int), b: AABB) -> bool {
    let origin = centroid_min(boxes, lo, hi, decision.0);
    let span = centroid_max(boxes, lo, hi, decision.0) - origin;
    bucket_of(b, decision.0, origin, span) >= decision.1
}


/// The test for the front side of the split that `decision` names among
/// `boxes[lo..hi]`.
pub open spec fn front_of(boxes: Seq<AABB>, lo: int, hi: int, decision: (int, int)) -> spec_fn(
    AABB,
) -> bool {
    |b: AABB| goes_front(boxes, lo, hi, decision, b)
}

/// The test for the other side of that split.
pub open spec fn back_of(boxes: Seq<AABB>, lo: int, hi: int, decision: (int, int)) -> spec_fn(
    AABB,
) -> bool {
    |b: AABB| !goes_front(boxes, lo, hi, decision, b)
}

/// How many of `boxes[lo..hi]` pass the test `keep`.
pub open spec fn count_if(boxes: Seq<AABB>, lo: int, hi: int, keep: spec_fn(AABB) -> bool) -> int
    decreases hi - lo,
{
    if hi <= lo {
        0
    } else {
        count_if(boxes, lo, hi - 1, keep) + (if keep(boxes[hi - 1]) {
            1int
        } else {
            0int
        })
    }
}

/// The box around those of `boxes[lo..hi]` that pass the test `keep`.
pub open spec fn hull_if(boxes: Seq<AABB>, lo: int, hi: int, keep: spec_fn(AABB) -> bool) -> AABB
    decreases hi - lo,
{
    if hi <= lo {
        AABB::spec_new()
    } else if keep(boxes[hi - 1]) {
        hull_if(boxes, lo, hi - 1, keep).spec_union(boxes[hi - 1])
    } else {
        hull_if(boxes, lo, hi - 1, keep)
    }
}

/// The count and the hull over a run are those of its two parts.
pub proof fn lemma_if_split(
    boxes: Seq<AABB>,
    lo: int,
    mid: int,
    hi: int,
    keep: spec_fn(AABB) -> bool,
)
    requires
        lo <= mid <= hi,
    ensures
        count_if(boxes, lo, hi, keep) == count_if(boxes, lo, mid, keep) + count_if(
            boxes,
            mid,
            hi,
            keep,
        ),
        hull_if(boxes, lo, hi, keep) == hull_if(boxes, lo, mid, keep).spec_union(
            hull_if(boxes, mid, hi, keep),
        ),
    decreases hi - mid,
{
    let left = hull_if(boxes, lo, mid, keep);
    if mid == hi {
        AABB::lemma_ext(left.spec_union(AABB::spec_new()), left);
    } else {
        lemma_if_split(boxes, lo, mid, hi - 1, keep);
        let right = hull_if(boxes, mid, hi - 1, keep);
        let last = boxes[hi - 1];
        AABB::lemma_ext(
            left.spec_union(right).spec_union(last),
            left.spec_union(right.spec_union(last)),
        );
    }
}

/// The count and the hull over a run depend on the boxes of the run
/// alone.
pub proof fn lemma_if_same(
    a: Seq<AABB>,
    b: Seq<AABB>,
    lo: int,
    hi: int,
    keep: spec_fn(AABB) -> bool,
)
    requires
        forall|k: int| lo <= k < hi ==> a[k] == b[k],
    ensures
        count_if(a, lo, hi, keep) == count_if(b, lo, hi, keep),
        hull_if(a, lo, hi, keep) == hull_if(b, lo, hi, keep),
    decreases hi - lo,
{
    if lo < hi {
        lemma_if_same(a, b, lo, hi - 1, keep);
    }
}

/// Exchanging two boxes of a run changes neither the count nor the hull
/// over the run.
pub proof fn lemma_if_swap(
    boxes: Seq<AABB>,
    lo: int,
    hi: int,
    i: int,
    j: int,
    keep: spec_fn(AABB) -> bool,
)
    requires
        0 <= lo <= i < j < hi <= boxes.len(),
    ensures
        count_if(swapped(boxes, i, j), lo, hi, keep) == count_if(boxes, lo, hi, keep),
        hull_if(swapped(boxes, i, j), lo, hi, keep) == hull_if(boxes, lo, hi, keep),
{
    let now = swapped(boxes, i, j);
    // the run in five parts: before i, i, between, j, behind j
    lemma_if_split(boxes, lo, i, hi, keep);
    lemma_if_split(boxes, i, i + 1, hi, keep);
    lemma_if_split(boxes, i + 1, j, hi, keep);
    lemma_if_split(boxes, j, j + 1, hi, keep);
    lemma_if_split(now, lo, i, hi, keep);
    lemma_if_split(now, i, i + 1, hi, keep);
    lemma_if_split(now, i + 1, j, hi, keep);
    lemma_if_split(now, j, j + 1, hi, keep);
    lemma_if_same(now, boxes, lo, i, keep);
    lemma_if_same(now, boxes, i + 1, j, keep);
    lemma_if_same(now, boxes, j + 1, hi, keep);
    let a = hull_if(boxes, lo, i, keep);
    let x = hull_if(boxes, i, i + 1, keep);
    let b = hull_if(boxes, i + 1, j, keep);
    let y = hull_if(boxes, j, j + 1, keep);
    let c = hull_if(boxes, j + 1, hi, keep);
    assert(hull_if(now, i, i + 1, keep) == y) by {
        assert(hull_if(now, i, i, keep) == AABB::spec_new());
        assert(hull_if(boxes, j, j, keep) == AABB::spec_new());
    }
    assert(hull_if(now, j, j + 1, keep) == x) by {
        assert(hull_if(now, j, j, keep) == AABB::spec_new());
        assert(hull_if(boxes, i, i, keep) == AABB::spec_new());
    }
    assert(count_if(now, i, i + 1, keep) == count_if(boxes, j, j + 1, keep)) by {
        assert(count_if(now, i, i, keep) == 0);
        assert(count_if(boxes, j, j, keep) == 0);
    }
    assert(count_if(now, j, j + 1, keep) == count_if(boxes, i, i + 1, keep)) by {
        assert(count_if(now, j, j, keep) == 0);
        assert(count_if(boxes, i, i, keep) == 0);
    }
    AABB::lemma_ext(
        a.spec_union(y.spec_union(b.spec_union(x.spec_union(c)))),
        a.spec_union(x.spec_union(b.spec_union(y.spec_union(c)))),
    );
}

/// In a run whose first part passes the test and whose rest does not,
/// the first part is what is counted, and its boxes are what the hull is
/// around.
pub proof fn lemma_if_front(
    boxes: Seq<AABB>,
    lo: int,
    mid: int,
    hi: int,
    keep: spec_fn(AABB) -> bool,
)
    requires
        lo <= mid <= hi,
        forall|k: int| lo <= k < mid ==> keep(#[trigger] boxes[k]),
        forall|k: int| mid <= k < hi ==> !keep(#[trigger] boxes[k]),
    ensures
        count_if(boxes, lo, hi, keep) == mid - lo,
        hull_if(boxes, lo, hi, keep) == union_range(boxes, lo, mid),
    decreases hi - lo,
{
    if lo < hi {
        if mid == hi {
            lemma_if_front(boxes, lo, mid - 1, hi - 1, keep);
        } else {
            lemma_if_front(boxes, lo, mid, hi - 1, keep);
        }
    }
}

/// In a run whose first part fails the test and whose rest passes it, the
/// rest is what is counted, and its boxes are what the hull is around.
pub proof fn lemma_if_back(
    boxes: Seq<AABB>,
    lo: int,
    mid: int,
    hi: int,
    keep: spec_fn(AABB) -> bool,
)
    requires
        lo <= mid <= hi,
        forall|k: int| lo <= k < mid ==> !keep(#[trigger] boxes[k]),
        forall|k: int| mid <= k < hi ==> keep(#[trigger] boxes[k]),
    ensures
        count_if(boxes, lo, hi, keep) == hi - mid,
        hull_if(boxes, lo, hi, keep) == union_range(boxes, mid, hi),
    decreases hi - lo,
{
    if mid < hi {
        lemma_if_back(boxes, lo, mid, hi - 1, keep);
    } else if lo < hi {
        lemma_if_back(boxes, lo, mid - 1, hi - 1, keep);
    }
}

/// The runs `now[lo..hi]` and `before[lo..hi]` hold the same boxes, in
/// whatever order: whatever test is put to the boxes, as many pass it in
/// the one run as in the other, and the boxes that pass it have the same
/// hull.
#[verifier::opaque]
pub open spec fn same_boxes(now: Seq<AABB>, before: Seq<AABB>, lo: int, hi: int) -> bool {
    forall|keep: spec_fn(AABB) -> bool|
        #![trigger count_if(now, lo, hi, keep)]
        #![trigger hull_if(now, lo, hi, keep)]
        count_if(now, lo, hi, keep) == count_if(before, lo, hi, keep) && hull_if(
            now,
            lo,
            hi,
            keep,
        ) == hull_if(before, lo, hi, keep)
}

/// Runs that agree box by box hold the same boxes.
pub proof fn lemma_same_boxes_equal(now: Seq<AABB>, before: Seq<AABB>, lo: int, hi: int)
    requires
        forall|k: int| lo <= k < hi ==> now[k] == before[k],
    ensures
        same_boxes(now, before, lo, hi),
{
    reveal(same_boxes);
    assert forall|keep: spec_fn(AABB) -> bool|
        count_if(now, lo, hi, keep) == count_if(before, lo, hi, keep) && hull_if(
            now,
            lo,
            hi,
            keep,
        ) == hull_if(before, lo, hi, keep) by {
        lemma_if_same(now, before, lo, hi, keep);
    }
}

/// Exchanging two boxes of a run leaves the run with the same boxes.
pub proof fn lemma_same_boxes_swap(
    now: Seq<AABB>,
    before: Seq<AABB>,
    lo: int,
    hi: int,
    i: int,
    j: int,
)
    requires
        0 <= lo <= i < j < hi <= now.len(),
        same_boxes(now, before, lo, hi),
    ensures
        same_boxes(swapped(now, i, j), before, lo, hi),
{
    reveal(same_boxes);
    let next = swapped(now, i, j);
    assert forall|keep: spec_fn(AABB) -> bool|
        count_if(next, lo, hi, keep) == count_if(before, lo, hi, keep) && hull_if(
            next,
            lo,
            hi,
            keep,
        ) == hull_if(before, lo, hi, keep) by {
        lemma_if_swap(now, lo, hi, i, j, keep);
        assert(count_if(now, lo, hi, keep) == count_if(before, lo, hi, keep));
        assert(hull_if(now, lo, hi, keep) == hull_if(before, lo, hi, keep));
    }
}

/// Holding the same boxes carries over from one arrangement to the next.
pub proof fn lemma_same_boxes_trans(a: Seq<AABB>, b: Seq<AABB>, c: Seq<AABB>, lo: int, hi: int)
    requires
        same_boxes(a, b, lo, hi),
        same_boxes(b, c, lo, hi),
    ensures
        same_boxes(a, c, lo, hi),
{
    reveal(same_boxes);
    assert forall|keep: spec_fn(AABB) -> bool|
        count_if(a, lo, hi, keep) == count_if(c, lo, hi, keep) && hull_if(a, lo, hi, keep)
            == hull_if(c, lo, hi, keep) by {
        assert(count_if(a, lo, hi, keep) == count_if(b, lo, hi, keep));
        assert(count_if(b, lo, hi, keep) == count_if(c, lo, hi, keep));
        assert(hull_if(a, lo, hi, keep) == hull_if(b, lo, hi, keep));
        assert(hull_if(b, lo, hi, keep) == hull_if(c, lo, hi, keep));
    }
}

/// Two runs that hold the same boxes in each of their two parts hold the
/// same boxes.
pub proof fn lemma_same_boxes_join(now: Seq<AABB>, before: Seq<AABB>, lo: int, mid: int, hi: int)
    requires
        lo <= mid <= hi,
        same_boxes(now, before, lo, mid),
        same_boxes(now, before, mid, hi),
    ensures
        same_boxes(now, before, lo, hi),
{
    reveal(same_boxes);
    assert forall|keep: spec_fn(AABB) -> bool|
        count_if(now, lo, hi, keep) == count_if(before, lo, hi, keep) && hull_if(
            now,
            lo,
            hi,
            keep,
        ) == hull_if(before, lo, hi, keep) by {
        lemma_if_split(now, lo, mid, hi, keep);
        lemma_if_split(before, lo, mid, hi, keep);
        assert(count_if(now, lo, mid, keep) == count_if(before, lo, mid, keep));
        assert(count_if(now, mid, hi, keep) == count_if(before, mid, hi, keep));
        assert(hull_if(now, lo, mid, keep) == hull_if(before, lo, mid, keep));
        assert(hull_if(now, mid, hi, keep) == hull_if(before, mid, hi, keep));
    }
}

/// The count and the hull do not tell apart two tests that agree on
/// every box.
pub proof fn lemma_if_agree(
    boxes: Seq<AABB>,
    lo: int,
    hi: int,
    keep: spec_fn(AABB) -> bool,
    other: spec_fn(AABB) -> bool,
)
    requires
        forall|b: AABB| #[trigger] keep(b) == other(b),
    ensures
        count_if(boxes, lo, hi, keep) == count_if(boxes, lo, hi, other),
        hull_if(boxes, lo, hi, keep) == hull_if(boxes, lo, hi, other),
    decreases hi - lo,
{
    if lo < hi {
        lemma_if_agree(boxes, lo, hi - 1, keep, other);
    }
}

/// A count is the number of boxes of the run that pass the test: it is
/// not negative, it is positive exactly when some box passes, and then
/// `k` is such a box.
pub proof fn lemma_count_witness(boxes: Seq<AABB>, lo: int, hi: int, keep: spec_fn(AABB) -> bool) -> (k:
    int)
    ensures
        count_if(boxes, lo, hi, keep) >= 0,
        count_if(boxes, lo, hi, keep) > 0 ==> lo <= k < hi && keep(boxes[k]),
        count_if(boxes, lo, hi, keep) == 0 ==> forall|j: int|
            lo <= j < hi ==> !keep(#[trigger] boxes[j]),
    decreases hi - lo,
{
    if lo < hi {
        let k = lemma_count_witness(boxes, lo, hi - 1, keep);
        if keep(boxes[hi - 1]) {
            hi - 1
        } else {
            k
        }
    } else {
        lo
    }
}

/// Every centre of a run lies between the least and the greatest, and
/// those stay within twice the range of a coordinate.
pub proof fn lemma_centroid_range(boxes: Seq<AABB>, lo: int, hi: int, axis: int)
    requires
        0 <= lo <= hi <= boxes.len(),
    ensures
        -(CENTROID_INF as int) <= centroid_min(boxes, lo, hi, axis) <= CENTROID_INF as int,
        -(CENTROID_INF as int) <= centroid_max(boxes, lo, hi, axis) <= CENTROID_INF as int,
        forall|k: int|
            lo <= k < hi ==> centroid_min(boxes, lo, hi, axis) <= (#[trigger] boxes[k]).centroid2(
                axis,
            ) <= centroid_max(boxes, lo, hi, axis),
        lo < hi ==> centroid_min(boxes, lo, hi, axis) <= centroid_max(boxes, lo, hi, axis),
    decreases hi - lo,
{
    if lo < hi {
        lemma_centroid_range(boxes, lo, hi - 1, axis);
    }
}

/// No bucket holds more boxes than the run has.
pub proof fn lemma_bucket_count_bound(
    boxes: Seq<AABB>,
    lo: int,
    hi: int,
    axis: int,
    origin: int,
    span: int,
    b: int,
)
    requires
        lo <= hi,
    ensures
        0 <= bucket_count(boxes, lo, hi, axis, origin, span, b) <= hi - lo,
    decreases hi - lo,
{
    if lo < hi {
        lemma_bucket_count_bound(boxes, lo, hi - 1, axis, origin, span, b);
    }
}

/// A bucket that is not empty holds some box of the run.
pub proof fn lemma_bucket_witness(
    boxes: Seq<AABB>,
    lo: int,
    hi: int,
    axis: int,
    origin: int,
    span: int,
    b: int,
) -> (k: int)
    requires
        bucket_count(boxes, lo, hi, axis, origin, span, b) > 0,
    ensures
        lo <= k < hi,
        bucket_of(boxes[k], axis, origin, span) == b,
    decreases hi - lo,
{
    if bucket_of(boxes[hi - 1], axis, origin, span) == b {
        hi - 1
    } else {
        lemma_bucket_witness(boxes, lo, hi - 1, axis, origin, span, b)
    }
}

/// A positive sum has a positive term.
pub proof fn lemma_sum_witness(sizes: Seq<usize>, from: int, to: int) -> (b: int)
    requires
        sum_range(sizes, from, to) > 0,
    ensures
        from <= b < to,
        sizes[b] > 0,
    decreases to - from,
{
    if sizes[to - 1] > 0 {
        to - 1
    } else {
        lemma_sum_witness(sizes, from, to - 1)
    }
}

/// The best candidate below `c` is one of them, leaves boxes on both
/// sides, costs no more than any other such candidate, and less than each
/// that comes before it.
pub proof fn lemma_best_below(boxes: Seq<AABB>, lo: int, hi: int, c: int)
    requires
        0 <= c,
    ensures
        match best_below(boxes, lo, hi, c) {
            Some(x) => {
                &&& 0 <= x < c
                &&& candidate_valid(boxes, lo, hi, x)
                &&& forall|y: int|
                    0 <= y < c && candidate_valid(boxes, lo, hi, y) ==> candidate_cost(
                        boxes,
                        lo,
                        hi,
                        x,
                    ) <= #[trigger] candidate_cost(boxes, lo, hi, y)
                &&& forall|y: int|
                    0 <= y < x && candidate_valid(boxes, lo, hi, y) ==> candidate_cost(
                        boxes,
                        lo,
                        hi,
                        x,
                    ) < #[trigger] candidate_cost(boxes, lo, hi, y)
            },
            None => forall|y: int| 0 <= y < c ==> !#[trigger] candidate_valid(boxes, lo, hi, y),
        },
    decreases c,
{
    if c > 0 {
        lemma_best_below(boxes, lo, hi, c - 1);
    }
}

/// A valid split of a run has a box on either side of its boundary.
pub proof fn lemma_split_witnesses(boxes: Seq<AABB>, lo: int, hi: int, axis: int, i: int) -> (w: (
    int,
    int,
))
    requires
        0 <= i <= NUM_BUCKETS as int,
        boundary_valid(bucket_sizes(boxes, lo, hi, axis), i),
    ensures
        lo <= w.0 < hi,
        lo <= w.1 < hi,
        !goes_front(boxes, lo, hi, (axis, i), boxes[w.0]),
        goes_front(boxes, lo, hi, (axis, i), boxes[w.1]),
{
    let origin = centroid_min(boxes, lo, hi, axis);
    let span = centroid_max(boxes, lo, hi, axis) - origin;
    let sizes = bucket_sizes(boxes, lo, hi, axis);
    let bl = lemma_sum_witness(sizes, 0, i);
    let br = lemma_sum_witness(sizes, i, NUM_BUCKETS as int);
    if hi < lo {
        assert(sizes[bl] == 0);
    }
    lemma_bucket_count_bound(boxes, lo, hi, axis, origin, span, bl);
    lemma_bucket_count_bound(boxes, lo, hi, axis, origin, span, br);
    let kl = lemma_bucket_witness(boxes, lo, hi, axis, origin, span, bl);
    let kr = lemma_bucket_witness(boxes, lo, hi, axis, origin, span, br);
    (kl, kr)
}

/// The least and the greatest centre of a run are centres of boxes of
/// the run.
pub proof fn lemma_centroid_attained(boxes: Seq<AABB>, lo: int, hi: int, axis: int) -> (w: (
    int,
    int,
))
    requires
        0 <= lo < hi <= boxes.len(),
    ensures
        lo <= w.0 < hi,
        lo <= w.1 < hi,
        boxes[w.0].centroid2(axis) == centroid_min(boxes, lo, hi, axis),
        boxes[w.1].centroid2(axis) == centroid_max(boxes, lo, hi, axis),
    decreases hi - lo,
{
    lemma_centroid_range(boxes, lo, hi - 1, axis);
    if lo == hi - 1 {
        (lo, lo)
    } else {
        let w = lemma_centroid_attained(boxes, lo, hi - 1, axis);
        let c = boxes[hi - 1].centroid2(axis);
        (
            if c < centroid_min(boxes, lo, hi - 1, axis) {
                hi - 1
            } else {
                w.0
            },
            if centroid_max(boxes, lo, hi - 1, axis) < c {
                hi - 1
            } else {
                w.1
            },
        )
    }
}

/// The bucket of a box of the run holds at least that box.
pub proof fn lemma_bucket_holds(
    boxes: Seq<AABB>,
    lo: int,
    hi: int,
    axis: int,
    origin: int,
    span: int,
    k: int,
)
    requires
        lo <= k < hi,
    ensures
        bucket_count(boxes, lo, hi, axis, origin, span, bucket_of(boxes[k], axis, origin, span))
            >= 1,
    decreases hi - lo,
{
    let b = bucket_of(boxes[k], axis, origin, span);
    lemma_bucket_count_bound(boxes, lo, hi - 1, axis, origin, span, b);
    if k < hi - 1 {
        lemma_bucket_holds(boxes, lo, hi - 1, axis, origin, span, k);
    }
}

/// With no span, every bucket but the first is empty.
pub proof fn lemma_bucket_flat(boxes: Seq<AABB>, lo: int, hi: int, axis: int, origin: int, b: int)
    requires
        b != 0,
    ensures
        bucket_count(boxes, lo, hi, axis, origin, 0, b) == 0,
    decreases hi - lo,
{
    if lo < hi {
        lemma_bucket_flat(boxes, lo, hi - 1, axis, origin, b);
    }
}

/// A sum is at least each of its terms.
pub proof fn lemma_sum_at_least(sizes: Seq<usize>, from: int, to: int, b: int)
    requires
        from <= b < to,
    ensures
        sum_range(sizes, from, to) >= sizes[b],
        sum_range(sizes, from, to) >= 0,
    decreases to - from,
{
    lemma_sum_nonnegative(sizes, from, to - 1);
    if b < to - 1 {
        lemma_sum_at_least(sizes, from, to - 1, b);
    }
}

/// A sum of sizes is not negative.
pub proof fn lemma_sum_nonnegative(sizes: Seq<usize>, from: int, to: int)
    ensures
        sum_range(sizes, from, to) >= 0,
    decreases to - from,
{
    if from < to {
        lemma_sum_nonnegative(sizes, from, to - 1);
    }
}

/// A sum of zeros is zero.
pub proof fn lemma_sum_zero(sizes: Seq<usize>, from: int, to: int)
    requires
        forall|b: int| from <= b < to ==> #[trigger] sizes[b] == 0,
    ensures
        sum_range(sizes, from, to) == 0,
    decreases to - from,
{
    if from < to {
        lemma_sum_zero(sizes, from, to - 1);
    }
}

/// The centres of `boxes[lo..hi]` are the same on every axis.
pub open spec fn centres_coincide(boxes: Seq<AABB>, lo: int, hi: int) -> bool {
    forall|axis: int|
        0 <= axis < 3 ==> #[trigger] centroid_min(boxes, lo, hi, axis) == centroid_max(
            boxes,
            lo,
            hi,
            axis,
        )
}

/// On an axis on which the centres differ, the split behind the first
/// bucket leaves boxes on both sides; on an axis on which they do not, no
/// split does.
pub proof fn lemma_axis_valid(boxes: Seq<AABB>, lo: int, hi: int, axis: int)
    requires
        0 <= lo < hi <= boxes.len(),
        hi - lo <= MAX_LEN,
    ensures
        centroid_min(boxes, lo, hi, axis) < centroid_max(boxes, lo, hi, axis) ==> boundary_valid(
            bucket_sizes(boxes, lo, hi, axis),
            1,
        ),
        centroid_min(boxes, lo, hi, axis) == centroid_max(boxes, lo, hi, axis) ==> forall|i: int|
            0 <= i < NUM_BUCKETS as int ==> !#[trigger] boundary_valid(
                bucket_sizes(boxes, lo, hi, axis),
                i,
            ),
{
    let origin = centroid_min(boxes, lo, hi, axis);
    let span = centroid_max(boxes, lo, hi, axis) - origin;
    let sizes = bucket_sizes(boxes, lo, hi, axis);
    lemma_centroid_range(boxes, lo, hi, axis);
    if span > 0 {
        let w = lemma_centroid_attained(boxes, lo, hi, axis);
        assert(bucket_of(boxes[w.0], axis, origin, span) == 0);
        assert(bucket_of(boxes[w.1], axis, origin, span) == 15) by {
            vstd::arithmetic::div_mod::lemma_div_multiples_vanish(16, span);
            assert(16 * span == span * 16) by (nonlinear_arith);
        }
        lemma_bucket_holds(boxes, lo, hi, axis, origin, span, w.0);
        lemma_bucket_holds(boxes, lo, hi, axis, origin, span, w.1);
        lemma_bucket_count_bound(boxes, lo, hi, axis, origin, span, 0);
        lemma_bucket_count_bound(boxes, lo, hi, axis, origin, span, 15);
        assert(sizes[0] >= 1);
        assert(sizes[15] >= 1);
        lemma_sum_at_least(sizes, 0, 1, 0);
        lemma_sum_at_least(sizes, 1, 16, 15);
    } else {
        assert forall|i: int| 0 <= i < NUM_BUCKETS as int implies !#[trigger] boundary_valid(
            sizes,
            i,
        ) by {
            if i > 0 {
                assert forall|b: int| i <= b < 16 implies #[trigger] sizes[b] == 0 by {
                    lemma_bucket_flat(boxes, lo, hi, axis, origin, b);
                }
                lemma_sum_zero(sizes, i, 16);
            }
        }
    }
}

/// The heuristic declines exactly where the run is too short or the
/// centres of its boxes coincide on every axis.
pub proof fn lemma_declines_iff_degenerate(boxes: Seq<AABB>, lo: int, hi: int)
    requires
        0 <= lo <= hi <= boxes.len(),
        hi - lo <= MAX_LEN,
    ensures
        sah_decision(boxes, lo, hi) is None <==> hi - lo < MIN_SPLIT_LEN as int || centres_coincide(
            boxes,
            lo,
            hi,
        ),
{
    if hi - lo >= MIN_SPLIT_LEN as int {
        lemma_best_below(boxes, lo, hi, 3 * NUM_BUCKETS as int);
        lemma_axis_valid(boxes, lo, hi, 0);
        lemma_axis_valid(boxes, lo, hi, 1);
        lemma_axis_valid(boxes, lo, hi, 2);
        lemma_centroid_range(boxes, lo, hi, 0);
        lemma_centroid_range(boxes, lo, hi, 1);
        lemma_centroid_range(boxes, lo, hi, 2);
        if centres_coincide(boxes, lo, hi) {
            assert(centroid_min(boxes, lo, hi, 0) == centroid_max(boxes, lo, hi, 0));
            assert(centroid_min(boxes, lo, hi, 1) == centroid_max(boxes, lo, hi, 1));
            assert(centroid_min(boxes, lo, hi, 2) == centroid_max(boxes, lo, hi, 2));
            assert forall|c: int| 0 <= c < 48 implies !#[trigger] candidate_valid(
                boxes,
                lo,
                hi,
                c,
            ) by {
                let axis = c / 16;
                let i = c % 16;
                assert(0 <= axis < 3 && 0 <= i < 16);
                assert(!boundary_valid(bucket_sizes(boxes, lo, hi, axis), i));
            }
        } else {
            let axis = choose|axis: int|
                0 <= axis < 3 && #[trigger] centroid_min(boxes, lo, hi, axis) != centroid_max(
                    boxes,
                    lo,
                    hi,
                    axis,
                );
            lemma_centroid_range(boxes, lo, hi, axis);
            let c = axis * 16 + 1;
            assert(c / 16 == axis && c % 16 == 1);
            assert(candidate_valid(boxes, lo, hi, c));
        }
    }
}

/// The test for the boxes of one bucket.
pub open spec fn in_bucket(axis: int, origin: int, span: int, b: int) -> spec_fn(AABB) -> bool {
    |x: AABB| bucket_of(x, axis, origin, span) == b
}

/// The size of a bucket is a count, and the box around it a hull, of the
/// boxes that fall into it.
pub proof fn lemma_bucket_as_if(
    boxes: Seq<AABB>,
    lo: int,
    hi: int,
    axis: int,
    origin: int,
    span: int,
    b: int,
)
    ensures
        bucket_count(boxes, lo, hi, axis, origin, span, b) == count_if(
            boxes,
            lo,
            hi,
            in_bucket(axis, origin, span, b),
        ),
        bucket_hull(boxes, lo, hi, axis, origin, span, b) == hull_if(
            boxes,
            lo,
            hi,
            in_bucket(axis, origin, span, b),
        ),
    decreases hi - lo,
{
    if lo < hi {
        lemma_bucket_as_if(boxes, lo, hi - 1, axis, origin, span, b);
    }
}

/// Runs that hold the same boxes have the same least and the same
/// greatest centre.
pub proof fn lemma_centroid_same(now: Seq<AABB>, before: Seq<AABB>, lo: int, hi: int, axis: int)
    requires
        0 <= lo <= hi <= now.len(),
        hi <= before.len(),
        same_boxes(now, before, lo, hi),
    ensures
        centroid_min(now, lo, hi, axis) == centroid_min(before, lo, hi, axis),
        centroid_max(now, lo, hi, axis) == centroid_max(before, lo, hi, axis),
{
    reveal(same_boxes);
    if lo < hi {
        let least = centroid_min(before, lo, hi, axis);
        let most = centroid_max(before, lo, hi, axis);
        let w = lemma_centroid_attained(before, lo, hi, axis);
        lemma_centroid_range(before, lo, hi, axis);
        let v = lemma_centroid_attained(now, lo, hi, axis);
        lemma_centroid_range(now, lo, hi, axis);
        let below = |b: AABB| b.centroid2(axis) < least;
        let above = |b: AABB| b.centroid2(axis) > most;
        let at_least = |b: AABB| b.centroid2(axis) == least;
        let at_most = |b: AABB| b.centroid2(axis) == most;
        let k1 = lemma_count_witness(before, lo, hi, below);
        let k2 = lemma_count_witness(before, lo, hi, above);
        let k3 = lemma_count_witness(before, lo, hi, at_least);
        let k4 = lemma_count_witness(before, lo, hi, at_most);
        assert(at_least(before[w.0]));
        assert(at_most(before[w.1]));
        assert(count_if(now, lo, hi, below) == count_if(before, lo, hi, below));
        assert(count_if(now, lo, hi, above) == count_if(before, lo, hi, above));
        assert(count_if(now, lo, hi, at_least) == count_if(before, lo, hi, at_least));
        assert(count_if(now, lo, hi, at_most) == count_if(before, lo, hi, at_most));
        let j1 = lemma_count_witness(now, lo, hi, below);
        let j2 = lemma_count_witness(now, lo, hi, above);
        let j3 = lemma_count_witness(now, lo, hi, at_least);
        let j4 = lemma_count_witness(now, lo, hi, at_most);
        assert(!below(now[v.0]));
        assert(!above(now[v.1]));
        assert(at_least(now[j3]));
        assert(at_most(now[j4]));
    }
}

/// Runs that hold the same boxes have the same buckets.
pub proof fn lemma_buckets_same(now: Seq<AABB>, before: Seq<AABB>, lo: int, hi: int, axis: int)
    requires
        0 <= lo <= hi <= now.len(),
        hi <= before.len(),
        same_boxes(now, before, lo, hi),
    ensures
        bucket_sizes(now, lo, hi, axis) == bucket_sizes(before, lo, hi, axis),
        bucket_hulls(now, lo, hi, axis) == bucket_hulls(before, lo, hi, axis),
{
    reveal(same_boxes);
    lemma_centroid_same(now, before, lo, hi, axis);
    let origin = centroid_min(before, lo, hi, axis);
    let span = centroid_max(before, lo, hi, axis) - origin;
    assert forall|b: int| 0 <= b < NUM_BUCKETS as int implies bucket_count(
        now,
        lo,
        hi,
        axis,
        origin,
        span,
        b,
    ) == bucket_count(before, lo, hi, axis, origin, span, b) && bucket_hull(
        now,
        lo,
        hi,
        axis,
        origin,
        span,
        b,
    ) == bucket_hull(before, lo, hi, axis, origin, span, b) by {
        lemma_bucket_as_if(now, lo, hi, axis, origin, span, b);
        lemma_bucket_as_if(before, lo, hi, axis, origin, span, b);
        let keep = in_bucket(axis, origin, span, b);
        assert(count_if(now, lo, hi, keep) == count_if(before, lo, hi, keep));
        assert(hull_if(now, lo, hi, keep) == hull_if(before, lo, hi, keep));
    }
    assert(bucket_sizes(now, lo, hi, axis) =~= bucket_sizes(before, lo, hi, axis));
    assert(bucket_hulls(now, lo, hi, axis) =~= bucket_hulls(before, lo, hi, axis));
}

/// Candidate `x` costs the same, and leaves boxes on both sides or not
/// the same, for the two runs.
pub open spec fn candidate_agrees(
    now: Seq<AABB>,
    before: Seq<AABB>,
    lo: int,
    hi: int,
    x: int,
) -> bool {
    &&& candidate_valid(now, lo, hi, x) == candidate_valid(before, lo, hi, x)
    &&& candidate_cost(now, lo, hi, x) == candidate_cost(before, lo, hi, x)
}

/// Runs that hold the same boxes have the same best candidate.
pub proof fn lemma_best_same(now: Seq<AABB>, before: Seq<AABB>, lo: int, hi: int, c: int)
    requires
        0 <= lo <= hi <= now.len(),
        hi <= before.len(),
        same_boxes(now, before, lo, hi),
        0 <= c <= 3 * NUM_BUCKETS as int,
    ensures
        best_below(now, lo, hi, c) == best_below(before, lo, hi, c),
        forall|x: int| 0 <= x < c ==> #[trigger] candidate_agrees(now, before, lo, hi, x),
    decreases c,
{
    if c > 0 {
        lemma_best_same(now, before, lo, hi, c - 1);
        let axis = (c - 1) / (NUM_BUCKETS as int);
        lemma_buckets_same(now, before, lo, hi, axis);
        lemma_best_below(before, lo, hi, c - 1);
        assert(candidate_agrees(now, before, lo, hi, c - 1));
        match best_below(before, lo, hi, c - 1) {
            Some(x) => {
                assert(candidate_agrees(now, before, lo, hi, x));
            },
            None => {},
        }
    }
}

/// Runs that hold the same boxes get the same decision.
pub proof fn lemma_decision_same(now: Seq<AABB>, before: Seq<AABB>, lo: int, hi: int)
    requires
        0 <= lo <= hi <= now.len(),
        hi <= before.len(),
        same_boxes(now, before, lo, hi),
    ensures
        sah_decision(now, lo, hi) == sah_decision(before, lo, hi),
{
    lemma_best_same(now, before, lo, hi, 3 * NUM_BUCKETS as int);
}

/// Runs that hold the same boxes have the same two sides of a split.
pub proof fn lemma_sides_same(now: Seq<AABB>, before: Seq<AABB>, lo: int, hi: int, d: (int, int))
    requires
        0 <= lo <= hi <= now.len(),
        hi <= before.len(),
        same_boxes(now, before, lo, hi),
    ensures
        count_if(now, lo, hi, front_of(now, lo, hi, d)) == count_if(
            before,
            lo,
            hi,
            front_of(before, lo, hi, d),
        ),
        hull_if(now, lo, hi, front_of(now, lo, hi, d)) == hull_if(
            before,
            lo,
            hi,
            front_of(before, lo, hi, d),
        ),
        hull_if(now, lo, hi, back_of(now, lo, hi, d)) == hull_if(
            before,
            lo,
            hi,
            back_of(before, lo, hi, d),
        ),
{
    reveal(same_boxes);
    lemma_centroid_same(now, before, lo, hi, d.0);
    lemma_if_agree(now, lo, hi, front_of(now, lo, hi, d), front_of(before, lo, hi, d));
    lemma_if_agree(now, lo, hi, back_of(now, lo, hi, d), back_of(before, lo, hi, d));
    let front = front_of(before, lo, hi, d);
    let back = back_of(before, lo, hi, d);
    assert(count_if(now, lo, hi, front) == count_if(before, lo, hi, front));
    assert(hull_if(now, lo, hi, front) == hull_if(before, lo, hi, front));
    assert(hull_if(now, lo, hi, back) == hull_if(before, lo, hi, back));
}

/// A split stays laid out when the boxes of each of its sides are put in
/// another order: every side still holds the boxes that belong to it, and
/// the heuristic still decides for that split.
pub proof fn lemma_layout_carries(
    now: Seq<AABB>,
    split: Seq<AABB>,
    before: Seq<AABB>,
    lo: int,
    mid: int,
    hi: int,
    d: (int, int),
)
    requires
        0 <= lo <= mid <= hi <= now.len(),
        hi <= split.len(),
        hi <= before.len(),
        split_layout(split, before, lo, hi, d, mid - lo),
        same_boxes(split, before, lo, hi),
        same_boxes(now, split, lo, mid),
        same_boxes(now, split, mid, hi),
    ensures
        same_boxes(now, before, lo, hi),
        split_layout(now, now, lo, hi, d, mid - lo),
        split_layout(now, before, lo, hi, d, mid - lo),
{
    lemma_same_boxes_join(now, split, lo, mid, hi);
    lemma_same_boxes_trans(now, split, before, lo, hi);
    lemma_centroid_same(now, before, lo, hi, d.0);
    let front = front_of(before, lo, hi, d);
    let back = back_of(before, lo, hi, d);
    reveal(same_boxes);
    // no box of the front part fails the test, neither before nor now
    let k1 = lemma_count_witness(split, lo, mid, back);
    assert(count_if(now, lo, mid, back) == count_if(split, lo, mid, back));
    let k2 = lemma_count_witness(now, lo, mid, back);
    // and no box of the back part passes it
    let k3 = lemma_count_witness(split, mid, hi, front);
    assert(count_if(now, mid, hi, front) == count_if(split, mid, hi, front));
    let k4 = lemma_count_witness(now, mid, hi, front);
    assert(count_if(split, lo, mid, back) == 0) by {
        if count_if(split, lo, mid, back) > 0 {
            assert(back(split[k1]));
            assert(goes_front(before, lo, hi, d, split[k1]));
        }
    }
    assert(count_if(split, mid, hi, front) == 0) by {
        if count_if(split, mid, hi, front) > 0 {
            assert(front(split[k3]));
            assert(!goes_front(before, lo, hi, d, split[k3]));
        }
    }
    assert forall|k: int| lo <= k < mid implies goes_front(before, lo, hi, d, #[trigger] now[k]) by {
        assert(!back(now[k]));
    }
    assert forall|k: int| mid <= k < hi implies !goes_front(before, lo, hi, d, #[trigger] now[k]) by {
        assert(!front(now[k]));
    }
}

/// Whether a run is laid out as a split asks depends on the boxes of the
/// run alone.
pub proof fn lemma_layout_same(
    now: Seq<AABB>,
    before: Seq<AABB>,
    lo: int,
    hi: int,
    d: (int, int),
    s: int,
)
    requires
        0 <= lo <= hi <= now.len(),
        hi <= before.len(),
        forall|k: int| lo <= k < hi ==> now[k] == before[k],
        0 <= s <= hi - lo,
        split_layout(before, before, lo, hi, d, s),
    ensures
        split_layout(now, now, lo, hi, d, s),
{
    lemma_same_boxes_equal(now, before, lo, hi);
    lemma_centroid_same(now, before, lo, hi, d.0);
    assert forall|k: int| lo <= k < lo + s implies goes_front(now, lo, hi, d, #[trigger] now[k]) by {
        assert(now[k] == before[k]);
        assert(goes_front(before, lo, hi, d, before[k]));
    }
    assert forall|k: int| lo + s <= k < hi implies !goes_front(now, lo, hi, d, #[trigger] now[k]) by {
        assert(now[k] == before[k]);
        assert(!goes_front(before, lo, hi, d, before[k]));
    }
}

/// Twice the centre of `b` on `axis`.
pub fn centroid2_of(b: &AABB, axis: usize) -> (c: i64)
    requires
        axis < 3,
    ensures
        c == b.centroid2(axis as int),
        -CENTROID_INF <= c < CENTROID_INF,
{
    b.min.get(axis) as i64 + b.max.get(axis) as i64
}

/// The bucket of `b` on `axis`.
pub fn bucket_index(b: &AABB, axis: usize, origin: i64, span: i64) -> (r: usize)
    requires
        axis < 3,
        -CENTROID_INF <= origin <= CENTROID_INF,
        span <= 2 * CENTROID_INF,
    ensures
        r == bucket_of(*b, axis as int, origin as int, span as int),
        r < NUM_BUCKETS,
{
    let off: i64 = centroid2_of(b, axis) - origin;
    if span <= 0 || off <= 0 {
        0
    } else {
        let q: i64 = (16 * off) / span;
        if q > 15 {
            15
        } else {
            q as usize
        }
    }
}

/// The least and the greatest doubled centre on `axis` in `bbox[begin..end]`.
pub fn centroid_range(bbox: &[AABB], begin: usize, end: usize, axis: usize) -> (r: (i64, i64))
    requires
        begin <= end <= bbox@.len(),
        axis < 3,
    ensures
        r.0 == centroid_min(bbox@, begin as int, end as int, axis as int),
        r.1 == centroid_max(bbox@, begin as int, end as int, axis as int),
{
    let mut least: i64 = CENTROID_INF;
    let mut most: i64 = -CENTROID_INF;
    let mut k: usize = begin;
    while k < end
        invariant
            begin <= k <= end <= bbox@.len(),
            axis < 3,
            least == centroid_min(bbox@, begin as int, k as int, axis as int),
            most == centroid_max(bbox@, begin as int, k as int, axis as int),
        decreases end - k,
    {
        let c: i64 = centroid2_of(&bbox[k], axis);
        if c < least {
            least = c;
        }
        if most < c {
            most = c;
        }
        k = k + 1;
    }
    (least, most)
}

/// Sorts `bbox[begin..end]` into buckets on `axis`: the size of each
/// bucket, and the box around it.
pub fn fill_buckets(bbox: &[AABB], begin: usize, end: usize, axis: usize) -> (r: (
    [usize; 16],
    [AABB; 16],
))
    requires
        begin <= end <= bbox@.len(),
        axis < 3,
    ensures
        r.0@ == bucket_sizes(bbox@, begin as int, end as int, axis as int),
        r.1@ == bucket_hulls(bbox@, begin as int, end as int, axis as int),
        forall|b: int| 0 <= b < 16 ==> #[trigger] r.0@[b] <= end - begin,
{
    let (origin, most) = centroid_range(bbox, begin, end, axis);
    proof {
        lemma_centroid_range(bbox@, begin as int, end as int, axis as int);
    }
    let span: i64 = most - origin;
    let empty = AABB::new();
    let mut sizes: [usize; 16] = [0; 16];
    let mut hulls: [AABB; 16] = [empty; 16];
    let mut k: usize = begin;
    while k < end
        invariant
            begin <= k <= end <= bbox@.len(),
            axis < 3,
            -CENTROID_INF <= origin <= CENTROID_INF,
            span <= 2 * CENTROID_INF,
            forall|b: int|
                0 <= b < 16 ==> #[trigger] sizes@[b] == bucket_count(
                    bbox@,
                    begin as int,
                    k as int,
                    axis as int,
                    origin as int,
                    span as int,
                    b,
                ),
            forall|b: int|
                0 <= b < 16 ==> #[trigger] hulls@[b] == bucket_hull(
                    bbox@,
                    begin as int,
                    k as int,
                    axis as int,
                    origin as int,
                    span as int,
                    b,
                ),
        decreases end - k,
    {
        let b: usize = bucket_index(&bbox[k], axis, origin, span);
        proof {
            lemma_bucket_count_bound(
                bbox@,
                begin as int,
                k as int,
                axis as int,
                origin as int,
                span as int,
                b as int,
            );
        }
        sizes[b] = sizes[b] + 1;
        hulls[b] = hulls[b].union(bbox[k]);
        k = k + 1;
    }
    proof {
        assert forall|b: int| 0 <= b < 16 implies #[trigger] sizes@[b] <= end - begin
            && sizes@[b] == bucket_sizes(bbox@, begin as int, end as int, axis as int)[b] by {
            lemma_bucket_count_bound(
                bbox@,
                begin as int,
                end as int,
                axis as int,
                origin as int,
                span as int,
                b,
            );
        }
        assert(sizes@ =~= bucket_sizes(bbox@, begin as int, end as int, axis as int));
        assert(hulls@ =~= bucket_hulls(bbox@, begin as int, end as int, axis as int));
    }
    (sizes, hulls)
}

/// The sum of `sizes[from..to]`.
pub fn sum_sizes(sizes: &[usize; 16], from: usize, to: usize) -> (r: u64)
    requires
        from <= to <= 16,
        forall|b: int| 0 <= b < 16 ==> #[trigger] sizes@[b] <= MAX_LEN,
    ensures
        r == sum_range(sizes@, from as int, to as int),
        r <= 16 * MAX_LEN,
{
    let mut total: u64 = 0;
    let mut b: usize = from;
    while b < to
        invariant
            from <= b <= to <= 16,
            forall|j: int| 0 <= j < 16 ==> #[trigger] sizes@[j] <= MAX_LEN,
            total == sum_range(sizes@, from as int, b as int),
            total <= (b - from) * MAX_LEN,
        decreases to - b,
    {
        assert(sizes@[b as int] <= MAX_LEN);
        total = total + sizes[b] as u64;
        b = b + 1;
    }
    total
}

/// The union of `hulls[from..to]`.
pub fn union_hulls(hulls: &[AABB; 16], from: usize, to: usize) -> (r: AABB)
    requires
        from <= to <= 16,
    ensures
        r == union_range(hulls@, from as int, to as int),
{
    let mut acc = AABB::new();
    let mut b: usize = from;
    while b < to
        invariant
            from <= b <= to <= 16,
            acc == union_range(hulls@, from as int, b as int),
        decreases to - b,
    {
        acc = acc.union(hulls[b]);
        b = b + 1;
    }
    acc
}

/// The cost of splitting before bucket `i`, if that leaves boxes on both
/// sides.
pub fn cost_at(sizes: &[usize; 16], hulls: &[AABB; 16], i: usize) -> (r: Option<i128>)
    requires
        i <= 16,
        forall|b: int| 0 <= b < 16 ==> #[trigger] sizes@[b] <= MAX_LEN,
    ensures
        r is Some <==> boundary_valid(sizes@, i as int),
        r is Some ==> r.unwrap() == boundary_cost(sizes@, hulls@, i as int),
{
    let lsize: u64 = sum_sizes(sizes, 0, i);
    let rsize: u64 = sum_sizes(sizes, i, 16);
    if lsize == 0 || rsize == 0 {
        None
    } else {
        let larea: i128 = union_hulls(hulls, 0, i).surface_area();
        let rarea: i128 = union_hulls(hulls, i, 16).surface_area();
        proof {
            lemma_product_bound(
                lsize as int,
                larea as int,
                0x8_0000_0000,
                0x10_0000_0000_0000_0000,
            );
            lemma_product_bound(
                rsize as int,
                rarea as int,
                0x8_0000_0000,
                0x10_0000_0000_0000_0000,
            );
        }
        Some((lsize as i128) * larea + (rsize as i128) * rarea)
    }
}

/// What [`find_split`] found: the axis, the bucket before which to split,
/// and the start and the span of the buckets on that axis.
#[derive(Debug, Clone, Copy)]
pub struct Split {
    pub axis: usize,
    pub boundary: usize,
    pub origin: i64,
    pub span: i64,
    pub cost: i128,
}

impl Split {
    /// The split is the candidate that the heuristic picks for
    /// `boxes[lo..hi]` among the candidates below `c`.
    pub open spec fn is_best_below(self, boxes: Seq<AABB>, lo: int, hi: int, c: int) -> bool {
        &&& self.axis < 3
        &&& self.boundary < NUM_BUCKETS
        &&& best_below(boxes, lo, hi, c) == Some(self.axis * NUM_BUCKETS + self.boundary)
        &&& self.cost == candidate_cost(boxes, lo, hi, self.axis * NUM_BUCKETS + self.boundary)
        &&& self.origin == centroid_min(boxes, lo, hi, self.axis as int)
        &&& self.span == centroid_max(boxes, lo, hi, self.axis as int) - self.origin
    }
}

/// The cheapest split of `bbox[begin..end]` over all axes and boundaries.
pub fn find_split(bbox: &[AABB], begin: usize, end: usize) -> (r: Option<Split>)
    requires
        begin <= end <= bbox@.len(),
        end - begin <= MAX_LEN,
    ensures
        match r {
            Some(s) => s.is_best_below(bbox@, begin as int, end as int, 3 * NUM_BUCKETS as int),
            None => best_below(bbox@, begin as int, end as int, 3 * NUM_BUCKETS as int) is None,
        },
{
    let mut best: Option<Split> = None;
    let mut axis: usize = 0;
    while axis < 3
        invariant
            axis <= 3,
            begin <= end <= bbox@.len(),
            end - begin <= MAX_LEN,
            match best {
                Some(s) => s.is_best_below(bbox@, begin as int, end as int, axis * 16),
                None => best_below(bbox@, begin as int, end as int, axis * 16) is None,
            },
        decreases 3 - axis,
    {
        let (sizes, hulls) = fill_buckets(bbox, begin, end, axis);
        let (origin, most) = centroid_range(bbox, begin, end, axis);
        proof {
            lemma_centroid_range(bbox@, begin as int, end as int, axis as int);
            assert(!candidate_valid(bbox@, begin as int, end as int, axis * 16));
        }
        let mut i: usize = 1;
        while i < 16
            invariant
                1 <= i <= 16,
                axis < 3,
                sizes@ == bucket_sizes(bbox@, begin as int, end as int, axis as int),
                hulls@ == bucket_hulls(bbox@, begin as int, end as int, axis as int),
                forall|b: int| 0 <= b < 16 ==> #[trigger] sizes@[b] <= MAX_LEN,
                origin == centroid_min(bbox@, begin as int, end as int, axis as int),
                most == centroid_max(bbox@, begin as int, end as int, axis as int),
                -CENTROID_INF <= origin <= CENTROID_INF,
                -CENTROID_INF <= most <= CENTROID_INF,
                match best {
                    Some(s) => s.is_best_below(bbox@, begin as int, end as int, axis * 16 + i),
                    None => best_below(bbox@, begin as int, end as int, axis * 16 + i) is None,
                },
            decreases 16 - i,
        {
            let ghost c = axis * 16 + i;
            assert(c / 16 == axis && c % 16 == i);
            match cost_at(&sizes, &hulls, i) {
                Some(cost) => {
                    let better = match best {
                        Some(s) => cost < s.cost,
                        None => true,
                    };
                    if better {
                        best = Some(Split { axis, boundary: i, origin, span: most - origin, cost });
                    }
                },
                None => {},
            }
            i = i + 1;
        }
        axis = axis + 1;
    }
    best
}


/// `<[T]>::swap` of the standard library: the elements at `a` and `b`
/// change places and every other element stays. It panics on an index out
/// of bounds, which `requires` rules out.
pub assume_specification<E>[ <[E]>::swap ](s: &mut [E], a: usize, b: usize)
    requires
        a < old(s)@.len(),
        b < old(s)@.len(),
    ensures
        final(s)@ == old(s)@.update(a as int, old(s)@[b as int]).update(b as int, old(s)@[a as int]),
;

/// The sequence `s` with the elements at `i` and `j` exchanged.
pub open spec fn swapped<A>(s: Seq<A>, i: int, j: int) -> Seq<A> {
    s.update(i, s[j]).update(j, s[i])
}

/// Exchanging two elements keeps the elements, counted with repeats.
pub proof fn lemma_swap_multiset<A>(s: Seq<A>, i: int, j: int)
    requires
        0 <= i < s.len(),
        0 <= j < s.len(),
    ensures
        swapped(s, i, j).to_multiset() == s.to_multiset(),
{
    broadcast use vstd::multiset::group_multiset_axioms;
    broadcast use vstd::seq_lib::to_multiset_contains;

    let s1 = s.update(i, s[j]);
    vstd::seq_lib::to_multiset_update(s, i, s[j]);
    vstd::seq_lib::to_multiset_update(s1, j, s[i]);
    assert(s.contains(s[i]));
    assert(s.contains(s[j]));
    assert(swapped(s, i, j).to_multiset() =~= s.to_multiset());
}

/// Each box is the bounding box of the primitive at the same index.
pub open spec fn in_step<T: Geometry>(bbox: Seq<AABB>, objs: Seq<T>) -> bool {
    &&& bbox.len() == objs.len()
    &&& forall|k: int| 0 <= k < bbox.len() ==> #[trigger] bbox[k] == objs[k].spec_bounding_box()
}

/// `now` is `before` outside `[begin, end)`.
pub open spec fn same_outside<A>(now: Seq<A>, before: Seq<A>, begin: int, end: int) -> bool {
    &&& now.len() == before.len()
    &&& forall|k: int| 0 <= k < begin || end <= k < before.len() ==> #[trigger] now[k] == before[k]
}

/// The boxes `now[begin..end]` are laid out as the split `d` of
/// `before[begin..end]` asks: the front side in the first `s` places, the
/// other side behind it.
pub open spec fn split_layout(
    now: Seq<AABB>,
    before: Seq<AABB>,
    begin: int,
    end: int,
    d: (int, int),
    s: int,
) -> bool {
    &&& forall|k: int|
        begin <= k < begin + s ==> goes_front(before, begin, end, d, #[trigger] now[k])
    &&& forall|k: int|
        begin + s <= k < end ==> !goes_front(before, begin, end, d, #[trigger] now[k])
}

/// The two sides of the split `d` of `before[begin..end]` are what
/// `now[begin..end]` holds in its first `s` places and behind them: `s` is
/// the number of boxes of the front side, and the boxes around the two
/// parts of `now` are the boxes around the two sides.
pub open spec fn split_sides(
    now: Seq<AABB>,
    before: Seq<AABB>,
    begin: int,
    end: int,
    d: (int, int),
    s: int,
) -> bool {
    &&& s == count_if(before, begin, end, front_of(before, begin, end, d))
    &&& union_range(now, begin, begin + s) == hull_if(
        before,
        begin,
        end,
        front_of(before, begin, end, d),
    )
    &&& union_range(now, begin + s, end) == hull_if(
        before,
        begin,
        end,
        back_of(before, begin, end, d),
    )
}

/// Splits the run `[begin, end)` of boxes and primitives where the
/// heuristic decides, moving boxes and primitives together.
///
/// Where the heuristic declines, nothing moves and the result is `None`.
/// Otherwise the run is reordered so that the boxes whose bucket is at or
/// behind the chosen boundary come first, and the result is their number,
/// which is neither zero nor the length of the run. Nothing outside the
/// run moves.
#[verifier::rlimit(40)]
pub fn partition_range<T: Geometry>(
    bbox: &mut [AABB],
    objs: &mut [T],
    begin: usize,
    end: usize,
) -> (r: Option<usize>)
    requires
        old(bbox)@.len() == old(objs)@.len(),
        begin <= end <= old(bbox)@.len(),
        end - begin <= MAX_LEN,
    ensures
        same_outside(final(bbox)@, old(bbox)@, begin as int, end as int),
        same_outside(final(objs)@, old(objs)@, begin as int, end as int),
        final(bbox)@.to_multiset() == old(bbox)@.to_multiset(),
        final(objs)@.to_multiset() == old(objs)@.to_multiset(),
        in_step(old(bbox)@, old(objs)@) ==> in_step(final(bbox)@, final(objs)@),
        same_boxes(final(bbox)@, old(bbox)@, begin as int, end as int),
        r is None <==> sah_decision(old(bbox)@, begin as int, end as int) is None,
        r is None ==> final(bbox)@ == old(bbox)@ && final(objs)@ == old(objs)@,
        match r {
            Some(s) => {
                &&& 0 < s < end - begin
                &&& split_layout(
                    final(bbox)@,
                    old(bbox)@,
                    begin as int,
                    end as int,
                    sah_decision(old(bbox)@, begin as int, end as int).unwrap(),
                    s as int,
                )
                &&& split_sides(
                    final(bbox)@,
                    old(bbox)@,
                    begin as int,
                    end as int,
                    sah_decision(old(bbox)@, begin as int, end as int).unwrap(),
                    s as int,
                )
            },
            None => true,
        },
{
    proof {
        lemma_same_boxes_equal(bbox@, bbox@, begin as int, end as int);
    }
    if end - begin < MIN_SPLIT_LEN {
        return None;
    }
    let split = match find_split(bbox, begin, end) {
        Some(split) => split,
        None => {
            return None;
        },
    };
    let ghost before_b = bbox@;
    let ghost before_o = objs@;
    let ghost d = (split.axis as int, split.boundary as int);
    proof {
        lemma_best_below(before_b, begin as int, end as int, 3 * NUM_BUCKETS as int);
        let c = split.axis * NUM_BUCKETS + split.boundary;
        assert(c / 16 == split.axis && c % 16 == split.boundary);
    }
    let ghost w = lemma_split_witnesses(
        before_b,
        begin as int,
        end as int,
        split.axis as int,
        split.boundary as int,
    );
    let ghost mut behind = w.0;
    let ghost mut ahead = w.1;
    let ghost mut perm: Seq<int> = Seq::new(before_b.len(), |k: int| k);
    let ghost front = front_of(before_b, begin as int, end as int, d);
    let ghost back = back_of(before_b, begin as int, end as int, d);
    proof {
        lemma_centroid_range(before_b, begin as int, end as int, split.axis as int);
        assert(sah_decision(before_b, begin as int, end as int) == Some(d));
    }
    let mut i: usize = begin;
    let mut j: usize = end;
    while i < j
        invariant
            begin <= i <= j <= end <= before_b.len(),
            bbox@.len() == before_b.len(),
            objs@.len() == before_b.len(),
            before_o.len() == before_b.len(),
            split.axis < 3,
            split.boundary < NUM_BUCKETS,
            d == (split.axis as int, split.boundary as int),
            split.origin == centroid_min(before_b, begin as int, end as int, split.axis as int),
            split.span == centroid_max(before_b, begin as int, end as int, split.axis as int)
                - split.origin,
            -CENTROID_INF <= split.origin <= CENTROID_INF,
            split.span <= 2 * CENTROID_INF,
            same_outside(bbox@, before_b, begin as int, end as int),
            same_outside(objs@, before_o, begin as int, end as int),
            bbox@.to_multiset() == before_b.to_multiset(),
            objs@.to_multiset() == before_o.to_multiset(),
            perm.len() == before_b.len(),
            forall|k: int|
                0 <= k < perm.len() ==> 0 <= #[trigger] perm[k] < perm.len() && bbox@[k]
                    == before_b[perm[k]] && objs@[k] == before_o[perm[k]],
            forall|k: int|
                begin <= k < i ==> goes_front(
                    before_b,
                    begin as int,
                    end as int,
                    d,
                    #[trigger] bbox@[k],
                ),
            forall|k: int|
                j <= k < end ==> !goes_front(
                    before_b,
                    begin as int,
                    end as int,
                    d,
                    #[trigger] bbox@[k],
                ),
            begin <= behind < end,
            begin <= ahead < end,
            !goes_front(before_b, begin as int, end as int, d, bbox@[behind]),
            goes_front(before_b, begin as int, end as int, d, bbox@[ahead]),
            front == front_of(before_b, begin as int, end as int, d),
            back == back_of(before_b, begin as int, end as int, d),
            same_boxes(bbox@, before_b, begin as int, end as int),
        decreases j - i,
    {
        if bucket_index(&bbox[i], split.axis, split.origin, split.span) >= split.boundary {
            i = i + 1;
        } else if bucket_index(&bbox[j - 1], split.axis, split.origin, split.span)
            < split.boundary {
            j = j - 1;
        } else {
            let ghost mid_b = bbox@;
            let ghost mid_o = objs@;
            bbox.swap(i, j - 1);
            objs.swap(i, j - 1);
            proof {
                lemma_swap_multiset(mid_b, i as int, j - 1);
                lemma_swap_multiset(mid_o, i as int, j - 1);
                lemma_same_boxes_swap(mid_b, before_b, begin as int, end as int, i as int, j - 1);
                perm = swapped(perm, i as int, j - 1);
                if behind == i {
                    behind = j - 1;
                } else if behind == j - 1 {
                    behind = i as int;
                }
                if ahead == i {
                    ahead = j - 1;
                } else if ahead == j - 1 {
                    ahead = i as int;
                }
            }
            i = i + 1;
            j = j - 1;
        }
    }
    proof {
        if in_step(before_b, before_o) {
            assert forall|k: int| 0 <= k < bbox@.len() implies #[trigger] bbox@[k]
                == objs@[k].spec_bounding_box() by {
                assert(before_b[perm[k]] == before_o[perm[k]].spec_bounding_box());
            }
        }
        lemma_if_front(bbox@, begin as int, i as int, end as int, front);
        lemma_if_back(bbox@, begin as int, i as int, end as int, back);
        reveal(same_boxes);
        assert(count_if(bbox@, begin as int, end as int, front) == count_if(
            before_b,
            begin as int,
            end as int,
            front,
        ));
        assert(hull_if(bbox@, begin as int, end as int, front) == hull_if(
            before_b,
            begin as int,
            end as int,
            front,
        ));
        assert(hull_if(bbox@, begin as int, end as int, back) == hull_if(
            before_b,
            begin as int,
            end as int,
            back,
        ));
    }
    Some(i - begin)
}

/// Splits a run of boxes and primitives where the heuristic decides,
/// moving boxes and primitives together: [`partition_range`] on the whole
/// of both slices.
pub fn partition_sah<T: Geometry>(bbox: &mut [AABB], objs: &mut [T]) -> (r: Option<usize>)
    requires
        old(bbox)@.len() == old(objs)@.len(),
        old(bbox)@.len() <= MAX_LEN,
    ensures
        final(bbox)@.len() == old(bbox)@.len(),
        final(objs)@.len() == old(objs)@.len(),
        final(bbox)@.to_multiset() == old(bbox)@.to_multiset(),
        final(objs)@.to_multiset() == old(objs)@.to_multiset(),
        in_step(old(bbox)@, old(objs)@) ==> in_step(final(bbox)@, final(objs)@),
        same_boxes(final(bbox)@, old(bbox)@, 0, old(bbox)@.len() as int),
        r is None <==> sah_decision(old(bbox)@, 0, old(bbox)@.len() as int) is None,
        r is None ==> final(bbox)@ == old(bbox)@ && final(objs)@ == old(objs)@,
        match r {
            Some(s) => {
                &&& 0 < s < old(bbox)@.len()
                &&& split_layout(
                    final(bbox)@,
                    old(bbox)@,
                    0,
                    old(bbox)@.len() as int,
                    sah_decision(old(bbox)@, 0, old(bbox)@.len() as int).unwrap(),
                    s as int,
                )
                &&& split_sides(
                    final(bbox)@,
                    old(bbox)@,
                    0,
                    old(bbox)@.len() as int,
                    sah_decision(old(bbox)@, 0, old(bbox)@.len() as int).unwrap(),
                    s as int,
                )
            },
            None => true,
        },
{
    let n = bbox.len();
    partition_range(bbox, objs, 0, n)
}

} // verus!
