//! Grid coordinates and inclusive rectangles, with the arithmetic that a
//! region quadtree needs: midlines, the four quadrants of a rectangle, and
//! the overlap of two rectangles.

use vstd::prelude::*;
use vstd::std_specs::convert::FromSpecImpl;

verus! {

/// One cell of the integer grid: the column `x` first, the row `y` second.
#[derive(Debug, Clone, Copy, PartialEq, Eq, Structural)]
pub struct Coordinate(pub isize, pub isize);

impl From<(isize, isize)> for Coordinate {
    fn from(value: (isize, isize)) -> (c: Self)
        ensures
            c == Coordinate(value.0, value.1),
    {
        Self(value.0, value.1)
    }
}

impl FromSpecImpl<(isize, isize)> for Coordinate {
    open spec fn obeys_from_spec() -> bool {
        true
    }

    open spec fn from_spec(v: (isize, isize)) -> Self {
        Coordinate(v.0, v.1)
    }
}

/// Believed, not proved: `From::from` of `std`'s `impl<T> From<T> for T`,
/// the conversion of a value into its own type, returns its argument
/// unchanged. It is what `Into::into` comes to where a point is handed over
/// as a `Coordinate`.
pub assume_specification<A>[ <A as core::convert::From<A>>::from ](value: A) -> (same: A)
    ensures
        same == value,
;

/// `to` is what turning `from` into a coordinate may give.
pub open spec fn converts<C: Into<Coordinate>>(from: C, to: Coordinate) -> bool {
    call_ensures(<C as Into<Coordinate>>::into, (from,), to)
}

/// An axis-aligned rectangle `[min, max]`, both corners included. It holds a
/// cell exactly when `min <= max` on both axes.
pub type Rect = [Coordinate; 2];

/// `p` lies in `r`, all four sides included.
pub open spec fn rect_contains(r: Rect, p: Coordinate) -> bool {
    r[0].0 <= p.0 <= r[1].0 && r[0].1 <= p.1 <= r[1].1
}

/// `r` holds at least one cell.
pub open spec fn rect_nonempty(r: Rect) -> bool {
    r[0].0 <= r[1].0 && r[0].1 <= r[1].1
}

/// `r` is more than one cell wide and more than one cell tall, so that it can
/// be cut into four quadrants none of which is empty.
pub open spec fn rect_splittable(r: Rect) -> bool {
    r[0].0 < r[1].0 && r[0].1 < r[1].1
}

/// `inner` lies within `outer`: on neither axis does it reach beyond it.
pub open spec fn rect_covers(outer: Rect, inner: Rect) -> bool {
    &&& outer[0].0 <= inner[0].0
    &&& inner[1].0 <= outer[1].0
    &&& outer[0].1 <= inner[0].1
    &&& inner[1].1 <= outer[1].1
}

/// The extent of `r` beyond a single cell, summed over both axes. It is what
/// shrinks from a rectangle to each of its quadrants.
pub open spec fn rect_span(r: Rect) -> int {
    (r[1].0 - r[0].0) + (r[1].1 - r[0].1)
}

/// The midline between `lo` and `hi`: their mean, rounded down. Of an odd
/// number of cells the lower half gets the extra one.
pub open spec fn floor_mid(lo: int, hi: int) -> int {
    (lo + hi) / 2
}

/// The vertical cut of `r`: the last column of its left half.
pub open spec fn h_mid(r: Rect) -> int {
    floor_mid(r[0].0 as int, r[1].0 as int)
}

/// The horizontal cut of `r`: the last row of its upper half.
pub open spec fn v_mid(r: Rect) -> int {
    floor_mid(r[0].1 as int, r[1].1 as int)
}

/// Quadrant `i` of `r`, cut at the midlines: 0 is top-left, 1 top-right,
/// 2 bottom-left and 3 bottom-right.
pub open spec fn quadrant(r: Rect, i: int) -> Rect {
    let h = h_mid(r);
    let v = v_mid(r);
    if i == 0 {
        [r[0], Coordinate(h as isize, v as isize)]
    } else if i == 1 {
        [Coordinate((h + 1) as isize, r[0].1), Coordinate(r[1].0, v as isize)]
    } else if i == 2 {
        [Coordinate(r[0].0, (v + 1) as isize), Coordinate(h as isize, r[1].1)]
    } else {
        [Coordinate((h + 1) as isize, (v + 1) as isize), r[1]]
    }
}

/// The number of the quadrant of `r` on whose side of the midlines `p` lies.
pub open spec fn quadrant_of(r: Rect, p: Coordinate) -> int {
    (if p.0 <= h_mid(r) { 0int } else { 1int }) + (if p.1 <= v_mid(r) { 0int } else { 2int })
}

/// What `split_rect` returns: of the four pieces that the lines `h` and `v`
/// cut from `r`, in quadrant order, those on whose side `r` has a corner.
pub open spec fn split_rect_spec(r: Rect, h: isize, v: isize) -> Seq<Rect> {
    let top_left: Seq<Rect> = if r[0].0 <= h && r[0].1 <= v {
        seq![[r[0], Coordinate(h, v)]]
    } else {
        seq![]
    };
    let top_right: Seq<Rect> = if r[1].0 > h && r[0].1 <= v {
        seq![[Coordinate((h + 1) as isize, r[0].1), Coordinate(r[1].0, v)]]
    } else {
        seq![]
    };
    let bottom_left: Seq<Rect> = if r[0].0 <= h && r[1].1 > v {
        seq![[Coordinate(r[0].0, (v + 1) as isize), Coordinate(h, r[1].1)]]
    } else {
        seq![]
    };
    let bottom_right: Seq<Rect> = if r[1].0 > h && r[1].1 > v {
        seq![[Coordinate((h + 1) as isize, (v + 1) as isize), r[1]]]
    } else {
        seq![]
    };
    top_left + top_right + bottom_left + bottom_right
}

/// The cells that `a` and `b` share: from the greater of the two minima to
/// the lesser of the two maxima on each axis, or nothing where that range is
/// empty on either axis.
pub open spec fn rect_intersection_spec(a: Rect, b: Rect) -> Option<Rect> {
    let x_min = if a[0].0 >= b[0].0 { a[0].0 } else { b[0].0 };
    let x_max = if a[1].0 <= b[1].0 { a[1].0 } else { b[1].0 };
    let y_min = if a[0].1 >= b[0].1 { a[0].1 } else { b[0].1 };
    let y_max = if a[1].1 <= b[1].1 { a[1].1 } else { b[1].1 };
    if x_min > x_max || y_min > y_max {
        None
    } else {
        Some([Coordinate(x_min, y_min), Coordinate(x_max, y_max)])
    }
}

/// The number of columns of `r`, where it has any.
pub open spec fn rect_width(r: Rect) -> int {
    r[1].0 - r[0].0 + 1
}

/// The number of rows of `r`, where it has any.
pub open spec fn rect_height(r: Rect) -> int {
    r[1].1 - r[0].1 + 1
}

/// The number of cells of `r`.
pub open spec fn cell_count(r: Rect) -> nat {
    if rect_nonempty(r) {
        (rect_width(r) * rect_height(r)) as nat
    } else {
        0
    }
}

/// The place of the cell `c` in `r` read row by row, each row from its first
/// column to its last: the full rows above it, then the cells before it in
/// its own row.
pub open spec fn cell_index(r: Rect, c: Coordinate) -> int {
    (c.1 - r[0].1) * rect_width(r) + (c.0 - r[0].0)
}

/// The cell at place `k` of `r` read row by row.
pub open spec fn cell_at(r: Rect, k: int) -> Coordinate {
    Coordinate((r[0].0 + k % rect_width(r)) as isize, (r[0].1 + k / rect_width(r)) as isize)
}

/// The cell that follows `c` in `r` read row by row: the next one in its
/// row, or the first one of the next row; none after the last corner.
pub open spec fn cell_after(r: Rect, c: Coordinate) -> Option<Coordinate> {
    if c == r[1] {
        None
    } else if c.0 == r[1].0 {
        Some(Coordinate(r[0].0, (c.1 + 1) as isize))
    } else {
        Some(Coordinate((c.0 + 1) as isize, c.1))
    }
}

/// Cutting `r` into quadrants again and again, each time keeping the one on
/// whose side `p` lies, ends in the single cell `p`, and not in a piece that
/// is a single cell wide or tall and cannot be cut further.
pub open spec fn splits_to_point(r: Rect, p: Coordinate) -> bool
    decreases rect_span(r),
{
    if r[0] == p && r[1] == p {
        true
    } else if !rect_splittable(r) {
        false
    } else {
        splits_to_point(quadrant(r, quadrant_of(r, p)), p)
    }
}

/// Quadrant `i` of `r` can be cut down to the part of `target` that falls
/// into it, if any does.
pub open spec fn quadrant_splits_to_rect(r: Rect, target: Rect, i: int) -> bool
    decreases rect_span(r), 0int,
{
    rect_splittable(r) && 0 <= i < 4 ==> match rect_intersection_spec(quadrant(r, i), target) {
        Some(part) => splits_to_rect(quadrant(r, i), part),
        None => true,
    }
}

/// `r` can be cut into pieces that make up its share of `target`: either it
/// is `target`, or it can be cut and each quadrant can be cut down to the
/// part of `target` that falls into it.
pub open spec fn splits_to_rect(r: Rect, target: Rect) -> bool
    decreases rect_span(r), 1int,
{
    r == target || {
        &&& rect_splittable(r)
        &&& quadrant_splits_to_rect(r, target, 0)
        &&& quadrant_splits_to_rect(r, target, 1)
        &&& quadrant_splits_to_rect(r, target, 2)
        &&& quadrant_splits_to_rect(r, target, 3)
    }
}

/// A rectangle that can be cut has four quadrants, none of them empty, each
/// of them inside the rectangle and of a smaller span.
pub proof fn lemma_quadrants_inside(r: Rect, i: int)
    requires
        rect_splittable(r),
        0 <= i < 4,
    ensures
        rect_nonempty(quadrant(r, i)),
        rect_covers(r, quadrant(r, i)),
        0 <= rect_span(quadrant(r, i)) < rect_span(r),
{
}

/// A rectangle that lies within another holds only cells of the other, and
/// is itself what the two share if it holds a cell at all.
pub proof fn lemma_covered_cells(outer: Rect, inner: Rect)
    requires
        rect_covers(outer, inner),
    ensures
        forall|p: Coordinate| rect_contains(inner, p) ==> rect_contains(outer, p),
        rect_nonempty(inner) ==> rect_intersection_spec(inner, outer) == Some(inner),
{
}

/// The quadrants of a rectangle that can be cut tile it: a cell of the
/// rectangle lies in the quadrant that `quadrant_of` names and in no other.
pub proof fn lemma_quadrants_tile(r: Rect, p: Coordinate)
    requires
        rect_splittable(r),
        rect_contains(r, p),
    ensures
        0 <= quadrant_of(r, p) < 4,
        forall|i: int| 0 <= i < 4 ==> (rect_contains(quadrant(r, i), p) <==> i == quadrant_of(r, p)),
{
}

/// Cut at its own midlines, a rectangle that can be cut falls into exactly
/// its four quadrants.
pub proof fn lemma_split_rect_quadrants(r: Rect)
    requires
        rect_splittable(r),
    ensures
        split_rect_spec(r, h_mid(r) as isize, v_mid(r) as isize) == seq![
            quadrant(r, 0),
            quadrant(r, 1),
            quadrant(r, 2),
            quadrant(r, 3),
        ],
{
}

/// A rectangle can be cut down only to a cell of its own.
pub proof fn lemma_splits_to_point_inside(r: Rect, p: Coordinate)
    requires
        splits_to_point(r, p),
    ensures
        rect_contains(r, p),
    decreases rect_span(r),
{
    if !(r[0] == p && r[1] == p) {
        lemma_splits_to_point_inside(quadrant(r, quadrant_of(r, p)), p);
    }
}

/// Each cell of a rectangle has a place below the number of its cells, and
/// is the cell at that place.
pub proof fn lemma_cell_index(r: Rect, c: Coordinate)
    requires
        rect_contains(r, c),
    ensures
        0 <= cell_index(r, c) < cell_count(r),
        cell_at(r, cell_index(r, c)) == c,
{
    let w = rect_width(r);
    let h = rect_height(r);
    let dx = c.0 - r[0].0;
    let dy = c.1 - r[0].1;
    assert(0 <= dy * w) by (nonlinear_arith)
        requires
            0 <= dy,
            0 < w,
    ;
    assert(dy * w + w <= h * w) by (nonlinear_arith)
        requires
            dy < h,
            0 < w,
    ;
    assert(h * w == w * h) by (nonlinear_arith);
    vstd::arithmetic::div_mod::lemma_fundamental_div_mod_converse(dy * w + dx, w, dy, dx);
}

/// Each place below the number of cells of a rectangle is the place of one
/// of its cells.
pub proof fn lemma_cell_at(r: Rect, k: int)
    requires
        0 <= k < cell_count(r),
    ensures
        rect_contains(r, cell_at(r, k)),
        cell_index(r, cell_at(r, k)) == k,
{
    let w = rect_width(r);
    let h = rect_height(r);
    vstd::arithmetic::div_mod::lemma_fundamental_div_mod(k, w);
    vstd::arithmetic::div_mod::lemma_mod_bound(k, w);
    let q = k / w;
    let m = k % w;
    assert(0 <= q < h) by (nonlinear_arith)
        requires
            0 <= k < w * h,
            0 < w,
            k == w * q + m,
            0 <= m < w,
    ;
    assert(w * q == q * w) by (nonlinear_arith);
}

/// The cell that follows a cell of a rectangle has the next place, and the
/// last corner has the last place.
pub proof fn lemma_cell_after(r: Rect, c: Coordinate)
    requires
        rect_contains(r, c),
    ensures
        match cell_after(r, c) {
            Some(next) => rect_contains(r, next) && cell_index(r, next) == cell_index(r, c) + 1,
            None => cell_index(r, c) + 1 == cell_count(r),
        },
{
    let w = rect_width(r);
    let h = rect_height(r);
    let dy = c.1 - r[0].1;
    assert((dy + 1) * w == dy * w + w) by (nonlinear_arith);
    assert((h - 1) * w + w == w * h) by (nonlinear_arith);
}

/// The intersection of two rectangles holds exactly the cells that lie in
/// both, and there is none exactly when no cell does.
pub proof fn lemma_intersection_cells(a: Rect, b: Rect, p: Coordinate)
    ensures
        (rect_contains(a, p) && rect_contains(b, p)) <==> (rect_intersection_spec(a, b) matches Some(
            shared,
        ) && rect_contains(shared, p)),
        rect_intersection_spec(a, b) matches Some(shared) ==> rect_nonempty(shared),
{
}

/// Whether two rectangles have the same corners.
pub fn rect_eq(a: &Rect, b: &Rect) -> (same: bool)
    ensures
        same == (*a == *b),
{
    let same = a[0] == b[0] && a[1] == b[1];
    assert(same == (*a =~= *b));
    same
}

/// Whether `point` lies in `bounds`, all four sides included.
pub fn rect_contains_point(bounds: &Rect, point: Coordinate) -> (inside: bool)
    ensures
        inside == rect_contains(*bounds, point),
{
    bounds[0].0 <= point.0 && point.0 <= bounds[1].0 && bounds[0].1 <= point.1 && point.1
        <= bounds[1].1
}

/// The mean of `lo` and `hi`, rounded down, computed without leaving `isize`.
pub fn midpoint(lo: isize, hi: isize) -> (mid: isize)
    ensures
        mid == floor_mid(lo as int, hi as int),
{
    let (a, b): (isize, isize) = if lo <= hi {
        (lo, hi)
    } else {
        (hi, lo)
    };
    if a >= 0 || b < 0 {
        a + (b - a) / 2
    } else {
        let sum: isize = a + b;
        if sum >= 0 {
            sum / 2
        } else {
            let below: isize = -(sum + 1);
            -(below / 2) - 1
        }
    }
}

/// Whether `bounds` is more than one cell wide and more than one cell tall.
pub fn can_split(bounds: &Rect) -> (can: bool)
    ensures
        can == rect_splittable(*bounds),
{
    bounds[0].0 < bounds[1].0 && bounds[0].1 < bounds[1].1
}

/// Quadrant `i` of `bounds`.
pub fn quadrant_rect(bounds: &Rect, i: usize) -> (piece: Rect)
    requires
        rect_splittable(*bounds),
        i < 4,
    ensures
        piece == quadrant(*bounds, i as int),
{
    let h: isize = midpoint(bounds[0].0, bounds[1].0);
    let v: isize = midpoint(bounds[0].1, bounds[1].1);
    if i == 0 {
        [bounds[0], Coordinate(h, v)]
    } else if i == 1 {
        [Coordinate(h + 1, bounds[0].1), Coordinate(bounds[1].0, v)]
    } else if i == 2 {
        [Coordinate(bounds[0].0, v + 1), Coordinate(h, bounds[1].1)]
    } else {
        [Coordinate(h + 1, v + 1), bounds[1]]
    }
}

/// Whether a tree over `bounds` can be cut down to the single cell `point`.
pub fn can_split_to_point(bounds: &Rect, point: Coordinate) -> (can: bool)
    ensures
        can == splits_to_point(*bounds, point),
{
    let mut piece: Rect = *bounds;
    loop
        invariant
            splits_to_point(piece, point) == splits_to_point(*bounds, point),
        decreases rect_span(piece),
    {
        if piece[0] == point && piece[1] == point {
            return true;
        }
        if !can_split(&piece) {
            return false;
        }
        let right: usize = if point.0 <= midpoint(piece[0].0, piece[1].0) { 0 } else { 1 };
        let below: usize = if point.1 <= midpoint(piece[0].1, piece[1].1) { 0 } else { 2 };
        piece = quadrant_rect(&piece, right + below);
    }
}

/// Whether a tree over `bounds` can be cut into pieces that make up its share
/// of `target`.
pub fn can_split_to_rect(bounds: &Rect, target: &Rect) -> (can: bool)
    ensures
        can == splits_to_rect(*bounds, *target),
    decreases rect_span(*bounds),
{
    if rect_eq(bounds, target) {
        return true;
    }
    if !can_split(bounds) {
        return false;
    }
    let mut i: usize = 0;
    while i < 4
        invariant
            i <= 4,
            rect_splittable(*bounds),
            forall|j: int| 0 <= j < i ==> #[trigger] quadrant_splits_to_rect(*bounds, *target, j),
        decreases 4 - i,
    {
        let piece = quadrant_rect(bounds, i);
        if let Some(part) = rect_intersection(&piece, target) {
            if !can_split_to_rect(&piece, &part) {
                return false;
            }
        }
        i += 1;
    }
    assert(quadrant_splits_to_rect(*bounds, *target, 0));
    assert(quadrant_splits_to_rect(*bounds, *target, 1));
    assert(quadrant_splits_to_rect(*bounds, *target, 2));
    assert(quadrant_splits_to_rect(*bounds, *target, 3));
    true
}

/// Cuts `bounds` at the column `h_mid` and the row `v_mid` into at most four
/// pieces, in the order top-left, top-right, bottom-left, bottom-right. A piece
/// is left out when `bounds` has no corner on its side of the two lines.
pub fn split_rect(bounds: &Rect, h_mid: isize, v_mid: isize) -> (pieces: Vec<Rect>)
    ensures
        pieces@ == split_rect_spec(*bounds, h_mid, v_mid),
{
    let mut result: Vec<Rect> = Vec::with_capacity(4);
    if bounds[0].0 <= h_mid && bounds[0].1 <= v_mid {
        result.push([Coordinate(bounds[0].0, bounds[0].1), Coordinate(h_mid, v_mid)]);
    }
    if bounds[1].0 > h_mid && bounds[0].1 <= v_mid {
        result.push([Coordinate(h_mid + 1, bounds[0].1), Coordinate(bounds[1].0, v_mid)]);
    }
    if bounds[0].0 <= h_mid && bounds[1].1 > v_mid {
        result.push([Coordinate(bounds[0].0, v_mid + 1), Coordinate(h_mid, bounds[1].1)]);
    }
    if bounds[1].0 > h_mid && bounds[1].1 > v_mid {
        result.push([Coordinate(h_mid + 1, v_mid + 1), Coordinate(bounds[1].0, bounds[1].1)]);
    }
    result
}

/// The rectangle that `left` and `right` share, or `None` when they share no
/// cell.
pub fn rect_intersection(left: &Rect, right: &Rect) -> (shared: Option<Rect>)
    ensures
        shared == rect_intersection_spec(*left, *right),
{
    let x_min: isize = if left[0].0 >= right[0].0 { left[0].0 } else { right[0].0 };
    let x_max: isize = if left[1].0 <= right[1].0 { left[1].0 } else { right[1].0 };
    if x_min > x_max {
        return None;
    }
    let y_min: isize = if left[0].1 >= right[0].1 { left[0].1 } else { right[0].1 };
    let y_max: isize = if left[1].1 <= right[1].1 { left[1].1 } else { right[1].1 };
    if y_min > y_max {
        return None;
    }
    Some([Coordinate(x_min, y_min), Coordinate(x_max, y_max)])
}

} // verus!
