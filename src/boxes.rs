use vstd::prelude::*;

verus! {

/// A point or corner in 3D integer space.
pub type Vec3 = [i32; 3];

/// An axis-aligned box given by its (min, max) corners, both inclusive.
pub type BoxPair = (Vec3, Vec3);

/// The smallest coordinate a box corner may carry.
pub const COORD_MIN: i32 = -2147483648;

/// The largest coordinate a box corner may carry.
pub const COORD_MAX: i32 = 2147483647;

pub open spec fn min_int(a: int, b: int) -> int {
    if a <= b { a } else { b }
}

pub open spec fn max_int(a: int, b: int) -> int {
    if a <= b { b } else { a }
}

/// `min[i] <= max[i]` on every axis.
pub open spec fn is_normalized(b: BoxPair) -> bool {
    &&& b.0[0] <= b.1[0]
    &&& b.0[1] <= b.1[1]
    &&& b.0[2] <= b.1[2]
}

pub open spec fn all_normalized(bs: Seq<BoxPair>) -> bool {
    forall|i: int| 0 <= i < bs.len() ==> is_normalized(#[trigger] bs[i])
}

/// The box with the per-axis minimum and maximum of two corners.
pub open spec fn normalize_spec(c1: Vec3, c2: Vec3) -> BoxPair {
    (
        [
            min_int(c1[0] as int, c2[0] as int) as i32,
            min_int(c1[1] as int, c2[1] as int) as i32,
            min_int(c1[2] as int, c2[2] as int) as i32,
        ],
        [
            max_int(c1[0] as int, c2[0] as int) as i32,
            max_int(c1[1] as int, c2[1] as int) as i32,
            max_int(c1[2] as int, c2[2] as int) as i32,
        ],
    )
}

/// Two boxes overlap on all three axes.
pub open spec fn overlaps(a: BoxPair, b: BoxPair) -> bool {
    &&& a.0[0] <= b.1[0] && a.1[0] >= b.0[0]
    &&& a.0[1] <= b.1[1] && a.1[1] >= b.0[1]
    &&& a.0[2] <= b.1[2] && a.1[2] >= b.0[2]
}

/// The candidate intersection box: per-axis max of mins and min of maxes.
pub open spec fn meet(a: BoxPair, b: BoxPair) -> BoxPair {
    (
        [
            max_int(a.0[0] as int, b.0[0] as int) as i32,
            max_int(a.0[1] as int, b.0[1] as int) as i32,
            max_int(a.0[2] as int, b.0[2] as int) as i32,
        ],
        [
            min_int(a.1[0] as int, b.1[0] as int) as i32,
            min_int(a.1[1] as int, b.1[1] as int) as i32,
            min_int(a.1[2] as int, b.1[2] as int) as i32,
        ],
    )
}

pub open spec fn intersect_spec(a: BoxPair, b: BoxPair) -> Option<BoxPair> {
    if is_normalized(meet(a, b)) {
        Some(meet(a, b))
    } else {
        None
    }
}

/// Appends `b` to `s` when the condition holds.
pub open spec fn push_if(s: Seq<BoxPair>, c: bool, b: BoxPair) -> Seq<BoxPair> {
    if c { s.push(b) } else { s }
}

/// The pieces of `a` left after removing `b`, split in the fixed order
/// -X, +X, -Y, +Y, -Z, +Z; `a` itself when the two do not overlap.
pub open spec fn subtract_spec(a: BoxPair, b: BoxPair) -> Seq<BoxPair> {
    if !overlaps(a, b) {
        seq![a]
    } else {
        let (amin, amax) = a;
        let (bmin, bmax) = b;
        let x_min = max_int(amin[0] as int, bmin[0] as int) as i32;
        let x_max = min_int(amax[0] as int, bmax[0] as int) as i32;
        let y_min = max_int(amin[1] as int, bmin[1] as int) as i32;
        let y_max = min_int(amax[1] as int, bmax[1] as int) as i32;
        let s0 = Seq::<BoxPair>::empty();
        let s1 = push_if(s0, amin[0] < bmin[0], (amin, [(bmin[0] - 1) as i32, amax[1], amax[2]]));
        let s2 = push_if(s1, amax[0] > bmax[0], ([(bmax[0] + 1) as i32, amin[1], amin[2]], amax));
        let s3 = push_if(
            s2,
            amin[1] < bmin[1],
            ([x_min, amin[1], amin[2]], [x_max, (bmin[1] - 1) as i32, amax[2]]),
        );
        let s4 = push_if(
            s3,
            amax[1] > bmax[1],
            ([x_min, (bmax[1] + 1) as i32, amin[2]], [x_max, amax[1], amax[2]]),
        );
        let s5 = push_if(
            s4,
            amin[2] < bmin[2],
            ([x_min, y_min, amin[2]], [x_max, y_max, (bmin[2] - 1) as i32]),
        );
        push_if(s5, amax[2] > bmax[2], ([x_min, y_min, (bmax[2] + 1) as i32], [x_max, y_max, amax[2]]))
    }
}

/// Every piece of every box in `ps`, with `b` removed, in order.
pub open spec fn subtract_each(ps: Seq<BoxPair>, b: BoxPair) -> Seq<BoxPair>
    decreases ps.len(),
{
    if ps.len() == 0 {
        Seq::empty()
    } else {
        subtract_each(ps.drop_last(), b) + subtract_spec(ps.last(), b)
    }
}

/// What is left of `ps` after removing each box of `rs` in turn.
pub open spec fn subtract_all(ps: Seq<BoxPair>, rs: Seq<BoxPair>) -> Seq<BoxPair>
    decreases rs.len(),
{
    if rs.len() == 0 {
        ps
    } else {
        subtract_each(subtract_all(ps, rs.drop_last()), rs.last())
    }
}

/// `left - right`: for each box of `left`, in order, what remains after removing `right`.
pub open spec fn difference_spec(left: Seq<BoxPair>, right: Seq<BoxPair>) -> Seq<BoxPair>
    decreases left.len(),
{
    if left.len() == 0 {
        Seq::empty()
    } else {
        difference_spec(left.drop_last(), right) + subtract_all(seq![left.last()], right)
    }
}

/// The intersections of `a` with each box of `rs` that it meets, in order.
pub open spec fn intersect_row(a: BoxPair, rs: Seq<BoxPair>) -> Seq<BoxPair>
    decreases rs.len(),
{
    if rs.len() == 0 {
        Seq::empty()
    } else {
        match intersect_spec(a, rs.last()) {
            Some(m) => intersect_row(a, rs.drop_last()).push(m),
            None => intersect_row(a, rs.drop_last()),
        }
    }
}

/// All pairwise intersections, left box major.
pub open spec fn intersection_spec(left: Seq<BoxPair>, right: Seq<BoxPair>) -> Seq<BoxPair>
    decreases left.len(),
{
    if left.len() == 0 {
        Seq::empty()
    } else {
        intersection_spec(left.drop_last(), right) + intersect_row(left.last(), right)
    }
}

/// `(left - right) ++ (right - left)`.
pub open spec fn xor_spec(left: Seq<BoxPair>, right: Seq<BoxPair>) -> Seq<BoxPair> {
    difference_spec(left, right) + difference_spec(right, left)
}

/// A coordinate at either extreme of the 32-bit range.
pub open spec fn is_extreme(v: i32) -> bool {
    v == COORD_MIN || v == COORD_MAX
}

pub open spec fn box_in_bounds(b: BoxPair) -> bool {
    &&& !is_extreme(b.0[0]) && !is_extreme(b.0[1]) && !is_extreme(b.0[2])
    &&& !is_extreme(b.1[0]) && !is_extreme(b.1[1]) && !is_extreme(b.1[2])
}

pub open spec fn all_in_bounds(bs: Seq<BoxPair>) -> bool {
    forall|i: int| 0 <= i < bs.len() ==> box_in_bounds(#[trigger] bs[i])
}

/// Normalize a box by ensuring min <= max on each axis.
pub fn normalize_box(corner1: Vec3, corner2: Vec3) -> (r: BoxPair)
    ensures
        r == normalize_spec(corner1, corner2),
        is_normalized(r),
{
    let min_x = if corner1[0] <= corner2[0] { corner1[0] } else { corner2[0] };
    let max_x = if corner1[0] <= corner2[0] { corner2[0] } else { corner1[0] };
    let min_y = if corner1[1] <= corner2[1] { corner1[1] } else { corner2[1] };
    let max_y = if corner1[1] <= corner2[1] { corner2[1] } else { corner1[1] };
    let min_z = if corner1[2] <= corner2[2] { corner1[2] } else { corner2[2] };
    let max_z = if corner1[2] <= corner2[2] { corner2[2] } else { corner1[2] };
    ([min_x, min_y, min_z], [max_x, max_y, max_z])
}

/// Whether two boxes overlap on all three axes.
pub fn boxes_intersect(box1: BoxPair, box2: BoxPair) -> (r: bool)
    ensures
        r == overlaps(box1, box2),
{
    let (min1, max1) = box1;
    let (min2, max2) = box2;
    min1[0] <= max2[0] && max1[0] >= min2[0] && min1[1] <= max2[1] && max1[1] >= min2[1]
        && min1[2] <= max2[2] && max1[2] >= min2[2]
}

/// The intersection of two boxes, or `None` when they do not meet.
pub fn intersect_boxes(box1: BoxPair, box2: BoxPair) -> (r: Option<BoxPair>)
    ensures
        r == intersect_spec(box1, box2),
{
    let (min1, max1) = box1;
    let (min2, max2) = box2;
    let lo = [
        if min1[0] >= min2[0] { min1[0] } else { min2[0] },
        if min1[1] >= min2[1] { min1[1] } else { min2[1] },
        if min1[2] >= min2[2] { min1[2] } else { min2[2] },
    ];
    let hi = [
        if max1[0] <= max2[0] { max1[0] } else { max2[0] },
        if max1[1] <= max2[1] { max1[1] } else { max2[1] },
        if max1[2] <= max2[2] { max1[2] } else { max2[2] },
    ];
    assert((lo, hi) == meet(box1, box2));
    if lo[0] <= hi[0] && lo[1] <= hi[1] && lo[2] <= hi[2] {
        Some((lo, hi))
    } else {
        None
    }
}

/// Subtract `subtract` from `from`, returning the remaining pieces in the
/// order -X, +X, -Y, +Y, -Z, +Z.
pub fn subtract_box(from: BoxPair, subtract: BoxPair) -> (r: Vec<BoxPair>)
    ensures
        r@ == subtract_spec(from, subtract),
{
    let (from_min, from_max) = from;
    let (sub_min, sub_max) = subtract;
    if !boxes_intersect(from, subtract) {
        return vec![from];
    }
    let mut result: Vec<BoxPair> = Vec::new();
    if from_min[0] < sub_min[0] {
        result.push((from_min, [sub_min[0] - 1, from_max[1], from_max[2]]));
    }
    if from_max[0] > sub_max[0] {
        result.push(([sub_max[0] + 1, from_min[1], from_min[2]], from_max));
    }
    let x_min = if from_min[0] >= sub_min[0] { from_min[0] } else { sub_min[0] };
    let x_max = if from_max[0] <= sub_max[0] { from_max[0] } else { sub_max[0] };
    if from_min[1] < sub_min[1] {
        result.push(([x_min, from_min[1], from_min[2]], [x_max, sub_min[1] - 1, from_max[2]]));
    }
    if from_max[1] > sub_max[1] {
        result.push(([x_min, sub_max[1] + 1, from_min[2]], [x_max, from_max[1], from_max[2]]));
    }
    let y_min = if from_min[1] >= sub_min[1] { from_min[1] } else { sub_min[1] };
    let y_max = if from_max[1] <= sub_max[1] { from_max[1] } else { sub_max[1] };
    if from_min[2] < sub_min[2] {
        result.push(([x_min, y_min, from_min[2]], [x_max, y_max, sub_min[2] - 1]));
    }
    if from_max[2] > sub_max[2] {
        result.push(([x_min, y_min, sub_max[2] + 1], [x_max, y_max, from_max[2]]));
    }
    assert(result@ =~= subtract_spec(from, subtract));
    result
}

/// `left - right`: each box of `left` with every box of `right` removed in turn.
pub fn compute_difference(left: &[BoxPair], right: &[BoxPair]) -> (r: Vec<BoxPair>)
    ensures
        r@ == difference_spec(left@, right@),
{
    let mut result: Vec<BoxPair> = Vec::new();
    let mut i: usize = 0;
    while i < left.len()
        invariant
            0 <= i <= left@.len(),
            result@ == difference_spec(left@.subrange(0, i as int), right@),
        decreases left@.len() - i,
    {
        let mut remaining: Vec<BoxPair> = vec![left[i]];
        let mut j: usize = 0;
        while j < right.len()
            invariant
                0 <= j <= right@.len(),
                i < left@.len(),
                remaining@ == subtract_all(seq![left@[i as int]], right@.subrange(0, j as int)),
            decreases right@.len() - j,
        {
            let mut next: Vec<BoxPair> = Vec::new();
            let mut k: usize = 0;
            while k < remaining.len()
                invariant
                    0 <= k <= remaining@.len(),
                    j < right@.len(),
                    next@ == subtract_each(remaining@.subrange(0, k as int), right@[j as int]),
                decreases remaining@.len() - k,
            {
                let mut pieces = subtract_box(remaining[k], right[j]);
                assert(remaining@.subrange(0, k + 1).drop_last() =~= remaining@.subrange(0, k as int));
                next.append(&mut pieces);
                k = k + 1;
            }
            assert(remaining@.subrange(0, k as int) =~= remaining@);
            assert(right@.subrange(0, j + 1).drop_last() =~= right@.subrange(0, j as int));
            remaining = next;
            j = j + 1;
        }
        assert(right@.subrange(0, j as int) =~= right@);
        assert(left@.subrange(0, i + 1).drop_last() =~= left@.subrange(0, i as int));
        result.append(&mut remaining);
        i = i + 1;
    }
    assert(left@.subrange(0, i as int) =~= left@);
    result
}

/// All pairwise intersections of `left` and `right` that are non-empty, left box major.
pub fn compute_intersection(left: &[BoxPair], right: &[BoxPair]) -> (r: Vec<BoxPair>)
    ensures
        r@ == intersection_spec(left@, right@),
{
    let mut result: Vec<BoxPair> = Vec::new();
    let mut i: usize = 0;
    while i < left.len()
        invariant
            0 <= i <= left@.len(),
            result@ == intersection_spec(left@.subrange(0, i as int), right@),
        decreases left@.len() - i,
    {
        let ghost before = result@;
        let mut j: usize = 0;
        while j < right.len()
            invariant
                0 <= j <= right@.len(),
                i < left@.len(),
                result@ == before + intersect_row(left@[i as int], right@.subrange(0, j as int)),
            decreases right@.len() - j,
        {
            assert(right@.subrange(0, j + 1).drop_last() =~= right@.subrange(0, j as int));
            match intersect_boxes(left[i], right[j]) {
                Some(m) => {
                    result.push(m);
                    assert(result@ =~= before + intersect_row(
                        left@[i as int],
                        right@.subrange(0, j + 1),
                    ));
                },
                None => {},
            }
            j = j + 1;
        }
        assert(right@.subrange(0, j as int) =~= right@);
        assert(left@.subrange(0, i + 1).drop_last() =~= left@.subrange(0, i as int));
        i = i + 1;
    }
    assert(left@.subrange(0, i as int) =~= left@);
    result
}

/// `(left - right) ++ (right - left)`.
pub fn compute_xor(left: &[BoxPair], right: &[BoxPair]) -> (r: Vec<BoxPair>)
    ensures
        r@ == xor_spec(left@, right@),
{
    let mut result = compute_difference(left, right);
    let mut other = compute_difference(right, left);
    result.append(&mut other);
    result
}

fn coord_within_bounds(v: i32) -> (r: bool)
    ensures
        r == !is_extreme(v),
{
    v != COORD_MIN && v != COORD_MAX
}

fn box_within_bounds(b: BoxPair) -> (r: bool)
    ensures
        r == box_in_bounds(b),
{
    let (lo, hi) = b;
    coord_within_bounds(lo[0]) && coord_within_bounds(lo[1]) && coord_within_bounds(lo[2])
        && coord_within_bounds(hi[0]) && coord_within_bounds(hi[1]) && coord_within_bounds(hi[2])
}

/// Whether every corner coordinate stays strictly inside the 32-bit range.
pub fn boxes_in_bounds(boxes: &[BoxPair]) -> (r: bool)
    ensures
        r == all_in_bounds(boxes@),
{
    let mut i: usize = 0;
    while i < boxes.len()
        invariant
            0 <= i <= boxes@.len(),
            forall|k: int| 0 <= k < i ==> box_in_bounds(#[trigger] boxes@[k]),
        decreases boxes@.len() - i,
    {
        if !box_within_bounds(boxes[i]) {
            return false;
        }
        i = i + 1;
    }
    true
}

/// Two normalized boxes whose projections on some axis do not overlap
/// have no intersection.
pub proof fn lemma_disjoint_intersection_empty(a: BoxPair, b: BoxPair)
    requires
        is_normalized(a),
        is_normalized(b),
        exists|i: int| 0 <= i < 3 && (a.1[i] < b.0[i] || b.1[i] < a.0[i]),
    ensures
        intersect_spec(a, b) is None,
        intersection_spec(seq![a], seq![b]) =~= Seq::<BoxPair>::empty(),
{
    let i = choose|i: int| 0 <= i < 3 && (a.1[i] < b.0[i] || b.1[i] < a.0[i]);
    assert(i == 0 || i == 1 || i == 2);
    assert(seq![a].drop_last() =~= Seq::<BoxPair>::empty());
    assert(seq![b].drop_last() =~= Seq::<BoxPair>::empty());
    assert(seq![b].last() == b);
    assert(intersect_row(a, Seq::<BoxPair>::empty()) =~= Seq::<BoxPair>::empty());
    assert(intersect_row(a, seq![b]) =~= Seq::<BoxPair>::empty());
    assert(intersection_spec(seq![a].drop_last(), seq![b]) =~= Seq::<BoxPair>::empty());
}

/// Every piece left by a subtraction of normalized boxes is normalized.
pub proof fn lemma_subtract_normalized(a: BoxPair, b: BoxPair)
    requires
        is_normalized(a),
        is_normalized(b),
    ensures
        all_normalized(subtract_spec(a, b)),
{
}

proof fn lemma_subtract_each_normalized(ps: Seq<BoxPair>, b: BoxPair)
    requires
        all_normalized(ps),
        is_normalized(b),
    ensures
        all_normalized(subtract_each(ps, b)),
    decreases ps.len(),
{
    if ps.len() > 0 {
        lemma_subtract_each_normalized(ps.drop_last(), b);
        lemma_subtract_normalized(ps.last(), b);
        let l = subtract_each(ps.drop_last(), b);
        let r = subtract_spec(ps.last(), b);
        assert forall|i: int| 0 <= i < (l + r).len() implies is_normalized(#[trigger] (l + r)[i]) by {
            if i >= l.len() {
                assert((l + r)[i] == r[i - l.len()]);
            }
        }
    }
}

proof fn lemma_subtract_all_normalized(ps: Seq<BoxPair>, rs: Seq<BoxPair>)
    requires
        all_normalized(ps),
        all_normalized(rs),
    ensures
        all_normalized(subtract_all(ps, rs)),
    decreases rs.len(),
{
    if rs.len() > 0 {
        lemma_subtract_all_normalized(ps, rs.drop_last());
        lemma_subtract_each_normalized(subtract_all(ps, rs.drop_last()), rs.last());
    }
}

proof fn lemma_concat_normalized(l: Seq<BoxPair>, r: Seq<BoxPair>)
    requires
        all_normalized(l),
        all_normalized(r),
    ensures
        all_normalized(l + r),
{
    assert forall|i: int| 0 <= i < (l + r).len() implies is_normalized(#[trigger] (l + r)[i]) by {
        if i >= l.len() {
            assert((l + r)[i] == r[i - l.len()]);
        }
    }
}

/// The difference of normalized box lists is normalized.
pub proof fn lemma_difference_normalized(left: Seq<BoxPair>, right: Seq<BoxPair>)
    requires
        all_normalized(left),
        all_normalized(right),
    ensures
        all_normalized(difference_spec(left, right)),
    decreases left.len(),
{
    if left.len() > 0 {
        lemma_difference_normalized(left.drop_last(), right);
        assert(all_normalized(seq![left.last()]));
        lemma_subtract_all_normalized(seq![left.last()], right);
        lemma_concat_normalized(
            difference_spec(left.drop_last(), right),
            subtract_all(seq![left.last()], right),
        );
    }
}

proof fn lemma_intersect_row_normalized(a: BoxPair, rs: Seq<BoxPair>)
    ensures
        all_normalized(intersect_row(a, rs)),
    decreases rs.len(),
{
    if rs.len() > 0 {
        lemma_intersect_row_normalized(a, rs.drop_last());
    }
}

/// Every box of an intersection list is normalized.
pub proof fn lemma_intersection_normalized(left: Seq<BoxPair>, right: Seq<BoxPair>)
    ensures
        all_normalized(intersection_spec(left, right)),
    decreases left.len(),
{
    if left.len() > 0 {
        lemma_intersection_normalized(left.drop_last(), right);
        lemma_intersect_row_normalized(left.last(), right);
        lemma_concat_normalized(
            intersection_spec(left.drop_last(), right),
            intersect_row(left.last(), right),
        );
    }
}

/// The symmetric difference of normalized box lists is normalized.
pub proof fn lemma_xor_normalized(left: Seq<BoxPair>, right: Seq<BoxPair>)
    requires
        all_normalized(left),
        all_normalized(right),
    ensures
        all_normalized(xor_spec(left, right)),
{
    lemma_difference_normalized(left, right);
    lemma_difference_normalized(right, left);
    lemma_concat_normalized(difference_spec(left, right), difference_spec(right, left));
}

/// The concatenation of normalized box lists is normalized.
pub proof fn lemma_union_normalized(left: Seq<BoxPair>, right: Seq<BoxPair>)
    requires
        all_normalized(left),
        all_normalized(right),
    ensures
        all_normalized(left + right),
{
    lemma_concat_normalized(left, right);
}

/// A point lies inside a box (corners inclusive).
pub open spec fn contains_point(b: BoxPair, x: int, y: int, z: int) -> bool {
    &&& b.0[0] <= x <= b.1[0]
    &&& b.0[1] <= y <= b.1[1]
    &&& b.0[2] <= z <= b.1[2]
}

/// Some box of `bs` holds the point.
pub open spec fn covers(bs: Seq<BoxPair>, x: int, y: int, z: int) -> bool {
    exists|i: int| 0 <= i < bs.len() && contains_point(#[trigger] bs[i], x, y, z)
}

/// Subtracting `b` from `a` leaves at most six pieces, none of which meets
/// `b`, and together they hold exactly the points of `a` outside `b`.
pub proof fn lemma_subtract_exact(a: BoxPair, b: BoxPair, x: int, y: int, z: int)
    requires
        is_normalized(a),
        is_normalized(b),
    ensures
        subtract_spec(a, b).len() <= 6,
        covers(subtract_spec(a, b), x, y, z) <==> (contains_point(a, x, y, z) && !contains_point(b, x, y, z)),
{
    let ps = subtract_spec(a, b);
    if !overlaps(a, b) {
        assert(ps == seq![a]);
        if contains_point(a, x, y, z) {
            assert(contains_point(ps[0], x, y, z));
        }
    } else {
        if contains_point(a, x, y, z) && !contains_point(b, x, y, z) {
            assert(covers(ps, x, y, z)) by {
                if x < b.0[0] {
                    assert(contains_point(ps[0], x, y, z));
                } else if x > b.1[0] {
                    if a.0[0] < b.0[0] {
                        assert(contains_point(ps[1], x, y, z));
                    } else {
                        assert(contains_point(ps[0], x, y, z));
                    }
                } else {
                    let nx: int = (if a.0[0] < b.0[0] { 1int } else { 0int }) + (if a.1[0] > b.1[0] { 1int } else { 0int });
                    if y < b.0[1] {
                        assert(contains_point(ps[nx], x, y, z));
                    } else if y > b.1[1] {
                        let ny: int = nx + (if a.0[1] < b.0[1] { 1int } else { 0int });
                        assert(contains_point(ps[ny], x, y, z));
                    } else {
                        let ny: int = nx + (if a.0[1] < b.0[1] { 1int } else { 0int }) + (if a.1[1] > b.1[1] { 1int } else { 0int });
                        if z < b.0[2] {
                            assert(contains_point(ps[ny], x, y, z));
                        } else {
                            let nz: int = ny + (if a.0[2] < b.0[2] { 1int } else { 0int });
                            assert(contains_point(ps[nz], x, y, z));
                        }
                    }
                }
            }
        }
        if covers(ps, x, y, z) {
            let i = choose|i: int| 0 <= i < ps.len() && contains_point(#[trigger] ps[i], x, y, z);
            assert(contains_point(a, x, y, z) && !contains_point(b, x, y, z));
        }
    }
}

} // verus!
