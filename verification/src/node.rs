//! The nodes of a region quadtree. A leaf holds one value for all of its
//! rectangle; a branch holds four children that tile its rectangle. A node
//! stands for a map from the cells of its rectangle to values (`@`).

use vstd::prelude::*;
use vstd::laws_eq::obeys_concrete_eq;
use vstd::pervasive::unreached;
use crate::error::QuadtreeError;
use crate::geometry::{
    can_split, can_split_to_point, can_split_to_rect, lemma_covered_cells,
    lemma_intersection_cells, lemma_quadrants_tile, lemma_split_rect_quadrants,
    lemma_splits_to_point_inside, midpoint, quadrant, quadrant_of, rect_contains,
    rect_contains_point, rect_covers, rect_eq, rect_intersection, rect_intersection_spec,
    rect_span, rect_splittable, split_rect, splits_to_point, splits_to_rect, Coordinate, Rect,
};

verus! {

/// A rectangle all of whose cells hold one value.
#[derive(Debug)]
pub struct LeafNode<T> {
    pub bounds: Rect,
    pub value: T,
}

/// A rectangle cut into four quadrants, in the order top-left, top-right,
/// bottom-left, bottom-right.
#[derive(Debug)]
pub struct QuadNode<T> {
    pub bounds: Rect,
    pub nodes: Vec<Node<T>>,
}

/// A node of the tree.
#[derive(Debug)]
pub enum Node<T> {
    Leaf(LeafNode<T>),
    Quad(QuadNode<T>),
}

/// The map holds one and the same value at all of its cells.
pub open spec fn is_constant<T>(m: Map<Coordinate, T>) -> bool {
    forall|p: Coordinate, q: Coordinate|
        m.dom().contains(p) && m.dom().contains(q) ==> m[p] == m[q]
}

/// The map `m` with `value` at each of its cells that lies in `rect`.
pub open spec fn painted<T>(m: Map<Coordinate, T>, rect: Rect, value: T) -> Map<Coordinate, T> {
    Map::new(
        |p: Coordinate| m.dom().contains(p),
        |p: Coordinate|
            if rect_contains(rect, p) {
                value
            } else {
                m[p]
            },
    )
}

impl<T> View for Node<T> {
    type V = Map<Coordinate, T>;

    /// The node as a map: each cell of its rectangle, with the value that a
    /// lookup finds for it.
    open spec fn view(&self) -> Map<Coordinate, T> {
        Map::new(
            |p: Coordinate| rect_contains(self.bounds(), p),
            |p: Coordinate| self.lookup(p).unwrap(),
        )
    }
}

impl<T> Node<T> {
    /// The rectangle that the node stands for.
    pub open spec fn bounds(self) -> Rect {
        match self {
            Node::Leaf(leaf) => leaf.bounds,
            Node::Quad(quad) => quad.bounds,
        }
    }

    /// Child `i` stands for quadrant `i` of `bounds` and is well formed itself.
    pub open spec fn child_fits(child: Node<T>, bounds: Rect, i: int) -> bool
        decreases child, 1int,
    {
        child.bounds() == quadrant(bounds, i) && child.well_formed()
    }

    /// Every branch below and including this node can be cut, and has exactly
    /// four children, which stand for its four quadrants in order. A leaf is
    /// well formed whatever its rectangle, even one that holds no cell.
    pub open spec fn well_formed(self) -> bool
        decreases self, 0int,
    {
        match self {
            Node::Leaf(_) => true,
            Node::Quad(quad) => {
                &&& rect_splittable(quad.bounds)
                &&& quad.nodes.len() == 4
                &&& Self::child_fits(quad.nodes[0], quad.bounds, 0)
                &&& Self::child_fits(quad.nodes[1], quad.bounds, 1)
                &&& Self::child_fits(quad.nodes[2], quad.bounds, 2)
                &&& Self::child_fits(quad.nodes[3], quad.bounds, 3)
            },
        }
    }

    /// What a lookup of `p` finds: a leaf answers with its value wherever `p`
    /// lies; a branch asks the first child whose rectangle holds `p`, and
    /// finds nothing where none does.
    pub open spec fn lookup(self, p: Coordinate) -> Option<T>
        decreases self,
    {
        match self {
            Node::Leaf(leaf) => Some(leaf.value),
            Node::Quad(quad) => if quad.nodes.len() != 4 {
                None
            } else if rect_contains(quad.nodes[0].bounds(), p) {
                quad.nodes[0].lookup(p)
            } else if rect_contains(quad.nodes[1].bounds(), p) {
                quad.nodes[1].lookup(p)
            } else if rect_contains(quad.nodes[2].bounds(), p) {
                quad.nodes[2].lookup(p)
            } else if rect_contains(quad.nodes[3].bounds(), p) {
                quad.nodes[3].lookup(p)
            } else {
                None
            },
        }
    }

    /// Every child of the branch is a leaf that holds `value`.
    pub open spec fn leaves_hold(self, value: T) -> bool {
        &&& self matches Node::Quad(quad)
        &&& quad.nodes.len() == 4
        &&& forall|i: int|
            0 <= i < 4 ==> (#[trigger] quad.nodes[i]) is Leaf && quad.nodes[i]->Leaf_0.value
                == value
    }

    /// A branch whose four children are all leaves that hold one and the same
    /// value: it says no more than a single leaf would.
    pub open spec fn uniform(self) -> bool {
        &&& self matches Node::Quad(quad)
        &&& quad.nodes.len() == 4
        &&& quad.nodes[0] is Leaf
        &&& self.leaves_hold(quad.nodes[0]->Leaf_0.value)
    }

    /// No branch below or including this node is uniform.
    pub open spec fn consolidated(self) -> bool
        decreases self,
    {
        match self {
            Node::Leaf(_) => true,
            Node::Quad(quad) => {
                &&& !self.uniform()
                &&& forall|i: int|
                    0 <= i < quad.nodes.len() ==> (#[trigger] quad.nodes[i]).consolidated()
            },
        }
    }

    /// The branch that a leaf over `bounds` with `value` is cut into: four
    /// leaves over the quadrants of `bounds`, each with `value`.
    pub open spec fn is_split_of(self, bounds: Rect, value: T) -> bool {
        &&& self matches Node::Quad(quad)
        &&& quad.bounds == bounds
        &&& quad.nodes.len() == 4
        &&& forall|i: int|
            0 <= i < 4 ==> #[trigger] quad.nodes[i] == Node::Leaf(
                LeafNode { bounds: quadrant(bounds, i), value },
            )
    }

    /// The two trees are the same node for node: leaves over the same
    /// rectangle with the same value, or branches over the same rectangle
    /// whose children are the same one by one.
    pub open spec fn same_tree(self, other: Node<T>) -> bool
        decreases self,
    {
        match self {
            Node::Leaf(_) => other == self,
            Node::Quad(quad) => {
                &&& other matches Node::Quad(other_quad)
                &&& other_quad.bounds == quad.bounds
                &&& other_quad.nodes.len() == quad.nodes.len()
                &&& forall|i: int|
                    0 <= i < quad.nodes.len() ==> (#[trigger] quad.nodes[i]).same_tree(
                        other_quad.nodes[i],
                    )
            },
        }
    }

    /// Child `i` of the branch that the node is or, if it is a leaf, is cut
    /// into.
    pub open spec fn piece(self, i: int) -> Node<T> {
        match self {
            Node::Leaf(leaf) => Node::Leaf(
                LeafNode { bounds: quadrant(leaf.bounds, i), value: leaf.value },
            ),
            Node::Quad(quad) => quad.nodes[i],
        }
    }

    /// `after` is, node for node, what a write of `value` at the cell `p`
    /// makes of `before`. A node that is the cell `p` becomes a leaf with
    /// `value`. Of any other node the children, or the four leaves that it is
    /// cut into, stay as they are but for the one over the quadrant of `p`,
    /// in which the write is made; the node ends as a leaf exactly when all
    /// four are then leaves with `value`.
    pub open spec fn point_set(before: Node<T>, after: Node<T>, value: T, p: Coordinate) -> bool
        decreases rect_span(before.bounds()),
    {
        let bounds = before.bounds();
        let k = quadrant_of(bounds, p);
        if bounds[0] == p && bounds[1] == p {
            after == Node::Leaf(LeafNode { bounds, value })
        } else if !rect_splittable(bounds) || !before.well_formed() {
            false
        } else if after is Leaf {
            &&& after == Node::Leaf(LeafNode { bounds, value })
            &&& forall|i: int|
                0 <= i < 4 && i != k ==> #[trigger] before.piece(i) == Node::Leaf(
                    LeafNode { bounds: quadrant(bounds, i), value },
                )
            &&& Self::point_set(
                before.piece(k),
                Node::Leaf(LeafNode { bounds: quadrant(bounds, k), value }),
                value,
                p,
            )
        } else {
            &&& after.bounds() == bounds
            &&& after->Quad_0.nodes.len() == 4
            &&& forall|i: int|
                0 <= i < 4 && i != k ==> #[trigger] after->Quad_0.nodes[i] == before.piece(i)
            &&& Self::point_set(before.piece(k), after->Quad_0.nodes[k], value, p)
            &&& !after.leaves_hold(value)
        }
    }

    /// `after` is, node for node, what a write of `value` in `rect` makes of
    /// child `i` of `before`, or of the `i`th of the four leaves that it is cut
    /// into: the write of what `rect` shares with the quadrant, or nothing
    /// where it shares nothing.
    pub open spec fn piece_range_set(
        before: Node<T>,
        after: Node<T>,
        value: T,
        rect: Rect,
        i: int,
    ) -> bool
        decreases rect_span(before.bounds()), 0int,
    {
        rect_splittable(before.bounds()) && before.well_formed() && 0 <= i < 4
            && match rect_intersection_spec(quadrant(before.bounds(), i), rect) {
            Some(part) => Self::range_set(before.piece(i), after, value, part),
            None => after == before.piece(i),
        }
    }

    /// `after` is, node for node, what a write of `value` in `rect` makes of
    /// `before`. A node whose rectangle is `rect` becomes a leaf with `value`.
    /// Of any other node each child, or each of the four leaves that it is cut
    /// into, takes the write of what `rect` shares with it; the node ends as
    /// a leaf exactly when the four are then leaves with one and the same
    /// value.
    pub open spec fn range_set(before: Node<T>, after: Node<T>, value: T, rect: Rect) -> bool
        decreases rect_span(before.bounds()), 1int,
    {
        let bounds = before.bounds();
        if bounds == rect {
            after == Node::Leaf(LeafNode { bounds, value })
        } else {
            &&& after.bounds() == bounds
            &&& after is Quad ==> after->Quad_0.nodes.len() == 4 && !after.uniform()
            &&& Self::piece_range_set(before, after.piece(0), value, rect, 0)
            &&& Self::piece_range_set(before, after.piece(1), value, rect, 1)
            &&& Self::piece_range_set(before, after.piece(2), value, rect, 2)
            &&& Self::piece_range_set(before, after.piece(3), value, rect, 3)
        }
    }

    /// What a write of `value` at the cell `p` leaves of the node `before`:
    /// the same rectangle, the map with `value` at `p` and nothing else
    /// changed, a well-formed node, and no uniform branch where there was none.
    /// `leaf` says whether the node ends as a leaf, which then holds `value`.
    /// Node for node, `after` is what `point_set` says.
    pub open spec fn value_written(
        before: Node<T>,
        after: Node<T>,
        value: T,
        p: Coordinate,
        leaf: bool,
    ) -> bool {
        &&& after.well_formed()
        &&& after.bounds() == before.bounds()
        &&& after@ == before@.insert(p, value)
        &&& leaf == (after is Leaf)
        &&& leaf ==> after->Leaf_0.value == value
        &&& before.consolidated() ==> after.consolidated()
        &&& Self::point_set(before, after, value, p)
    }

    /// What a write of `value` in `rect` leaves of the node `before`: the same
    /// rectangle, the map with `value` at each of its cells that lies in
    /// `rect` and nothing else changed, a well-formed node, and no uniform
    /// branch where there was none. `leaf` says whether the node ends as a
    /// leaf; it does where `rect` holds the whole rectangle of the node.
    pub open spec fn range_written(
        before: Node<T>,
        after: Node<T>,
        value: T,
        rect: Rect,
        leaf: bool,
    ) -> bool {
        &&& after.well_formed()
        &&& after.bounds() == before.bounds()
        &&& after@ == painted(before@, rect, value)
        &&& leaf == (after is Leaf)
        &&& before.consolidated() ==> after.consolidated()
        &&& rect_covers(rect, before.bounds()) ==> after == Node::Leaf(
            LeafNode { bounds: before.bounds(), value },
        )
    }

    /// What `insert_value` does with `value` and the point `p`: a point
    /// outside the node's rectangle is refused, and so is one that the
    /// rectangle cannot be cut down to; a refused write changes nothing. Any
    /// other write is made.
    pub open spec fn insert_value_outcome(
        before: Node<T>,
        after: Node<T>,
        value: T,
        p: Coordinate,
        done: Result<bool, QuadtreeError>,
    ) -> bool {
        if !rect_contains(before.bounds(), p) {
            done == Err::<bool, QuadtreeError>(QuadtreeError::OutOfBounds) && after == before
        } else if !splits_to_point(before.bounds(), p) {
            done == Err::<bool, QuadtreeError>(QuadtreeError::DegenerateSplit) && after
                == before
        } else {
            done matches Ok(leaf) && Self::value_written(before, after, value, p, leaf)
        }
    }

    /// What is left of the node `before` by a write that has no cell to write
    /// at: nothing is cut and nothing is written. A uniform branch, which only
    /// a caller can have built by hand, is merged into a leaf with the value
    /// of its children as at the end of every range write; every other node
    /// stays as it is. `leaf` says whether the node ends as a leaf.
    pub open spec fn passed_over(before: Node<T>, after: Node<T>, leaf: bool) -> bool {
        &&& leaf == (after is Leaf)
        &&& if before.uniform() {
            after == Node::Leaf(
                LeafNode {
                    bounds: before.bounds(),
                    value: before->Quad_0.nodes[0]->Leaf_0.value,
                },
            )
        } else {
            after == before
        }
        &&& after.well_formed()
        &&& after.bounds() == before.bounds()
        &&& after@ == before@
        &&& before.consolidated() ==> after.consolidated()
    }

    /// What `insert_value_range` does with `value` and `rect` on a well-formed
    /// node. A rectangle that shares no cell with the node's rectangle is
    /// passed over: that is no error, and nothing is written. A rectangle
    /// whose share the node's rectangle cannot be cut into is refused, and
    /// the refused write changes nothing. Any other write is made.
    pub open spec fn insert_value_range_outcome(
        before: Node<T>,
        after: Node<T>,
        value: T,
        rect: Rect,
        done: Result<bool, QuadtreeError>,
    ) -> bool {
        match rect_intersection_spec(before.bounds(), rect) {
            None => done matches Ok(leaf) && Self::passed_over(before, after, leaf),
            Some(part) => if !splits_to_rect(before.bounds(), part) {
                done == Err::<bool, QuadtreeError>(QuadtreeError::DegenerateSplit) && after
                    == before
            } else {
                &&& done matches Ok(leaf) && Self::range_written(before, after, value, rect, leaf)
                &&& Self::range_set(before, after, value, part)
            },
        }
    }

    /// Whether the node is a leaf.
    pub fn is_leaf(&self) -> (leaf: bool)
        ensures
            leaf == (self is Leaf),
    {
        matches!(self, Self::Leaf(_))
    }

    /// Whether the node is a branch.
    pub fn is_quad(&self) -> (quad: bool)
        ensures
            quad == (self is Quad),
    {
        matches!(self, Self::Quad(_))
    }

    /// The leaf that the node is.
    pub fn as_leaf(&self) -> (leaf: &LeafNode<T>)
        requires
            self is Leaf,
        ensures
            *self == Node::Leaf(*leaf),
    {
        match self {
            Self::Leaf(l) => l,
            _ => unreached(),
        }
    }

    /// The branch that the node is.
    pub fn as_quad(&self) -> (quad: &QuadNode<T>)
        requires
            self is Quad,
        ensures
            *self == Node::Quad(*quad),
    {
        match self {
            Self::Quad(q) => q,
            _ => unreached(),
        }
    }

    /// The rectangle that the node stands for.
    pub fn get_bounds(&self) -> (bounds: &Rect)
        ensures
            *bounds == self.bounds(),
    {
        match self {
            Self::Leaf(LeafNode { bounds, .. }) => bounds,
            Self::Quad(QuadNode { bounds, .. }) => bounds,
        }
    }

    /// Whether `point` lies in the node's rectangle, all four sides included.
    pub fn contains(&self, point: Coordinate) -> (inside: bool)
        ensures
            inside == rect_contains(self.bounds(), point),
    {
        rect_contains_point(self.get_bounds(), point)
    }

    /// The value of a leaf.
    pub fn get_value(&self) -> (value: &T)
        requires
            self is Leaf,
        ensures
            *value == self->Leaf_0.value,
    {
        match self {
            Self::Leaf(LeafNode { value, .. }) => value,
            _ => unreached(),
        }
    }

    /// The value of a leaf, to be written to: the leaf keeps its rectangle
    /// and holds what is written.
    pub fn get_value_mut(&mut self) -> (value: &mut T)
        requires
            *old(self) is Leaf,
        ensures
            *value == (*old(self))->Leaf_0.value,
            *final(self) == Node::Leaf(
                LeafNode { bounds: old(self).bounds(), value: *final(value) },
            ),
    {
        match self {
            Self::Leaf(LeafNode { value, .. }) => value,
            _ => unreached(),
        }
    }

    /// The children of a branch, in quadrant order.
    pub fn get_nodes(&self) -> (nodes: &[Self])
        requires
            self is Quad,
        ensures
            nodes@ == self->Quad_0.nodes@,
    {
        match self {
            Self::Quad(QuadNode { nodes, .. }) => nodes.as_slice(),
            _ => unreached(),
        }
    }

    /// The children of a branch, to be written to: the branch keeps its
    /// rectangle and holds the children as they are left.
    pub fn get_nodes_mut(&mut self) -> (nodes: &mut [Self])
        requires
            *old(self) is Quad,
        ensures
            nodes@ == (*old(self))->Quad_0.nodes@,
            *final(self) is Quad,
            final(self).bounds() == old(self).bounds(),
            (*final(self))->Quad_0.nodes@ == final(nodes)@,
    {
        match self {
            Self::Quad(QuadNode { nodes, .. }) => nodes.as_mut_slice(),
            _ => unreached(),
        }
    }

    /// The number of the first child of a branch in whose rectangle `point`
    /// lies. For a cell of the branch that is the quadrant of the cell.
    #[verifier::loop_isolation(false)]
    pub fn child_holding(&self, point: Coordinate) -> (index: usize)
        requires
            self.well_formed(),
            self is Quad,
            rect_contains(self.bounds(), point),
        ensures
            index == quadrant_of(self.bounds(), point),
            index < 4,
    {
        proof {
            lemma_quadrants_tile(self.bounds(), point);
        }
        let nodes = self.get_nodes();
        let mut i: usize = 0;
        while i < 3
            invariant
                i <= 3,
                nodes.len() == 4,
                nodes@ == self->Quad_0.nodes@,
                forall|j: int| 0 <= j < i ==> !rect_contains(#[trigger] nodes[j].bounds(), point),
            decreases 3 - i,
        {
            if nodes[i].contains(point) {
                return i;
            }
            i += 1;
        }
        i
    }

    /// The value that the node holds for `point`. A leaf answers with its
    /// value, wherever `point` lies. A branch asks the first child whose
    /// rectangle holds `point`, and has no answer where none does, which is
    /// so exactly for the points outside its rectangle.
    pub fn read_value(&self, point: Coordinate) -> (found: Option<&T>)
        requires
            self.well_formed(),
        ensures
            match self.lookup(point) {
                Some(v) => found == Some(&v),
                None => found is None,
            },
            rect_contains(self.bounds(), point) ==> found == Some(&self@[point]),
        decreases self,
    {
        proof {
            if rect_contains(self.bounds(), point) {
                self.lemma_lookup_finds(point);
            }
        }
        match self {
            Self::Leaf(LeafNode { value, .. }) => Some(value),
            Self::Quad(QuadNode { nodes, .. }) => {
                let mut i: usize = 0;
                while i < 4
                    invariant
                        i <= 4,
                        nodes.len() == 4,
                        self.well_formed(),
                        *self is Quad,
                        self->Quad_0.nodes == *nodes,
                        forall|j: int| 0 <= j < i ==> !rect_contains(nodes[j].bounds(), point),
                    decreases 4 - i,
                {
                    if nodes[i].contains(point) {
                        return nodes[i].read_value(point);
                    }
                    i += 1;
                }
                None
            },
        }
    }
}

impl<T: Copy> Node<T> {
    /// Cuts a leaf into a branch of four leaves over its quadrants, each with
    /// the leaf's value. A branch is left as it is. A leaf that is a single
    /// cell wide or tall cannot be cut: it is left as it is, and the error
    /// says so.
    pub fn split(&mut self) -> (done: Result<(), QuadtreeError>)
        ensures
            done is Err <==> *old(self) is Leaf && !rect_splittable(old(self).bounds()),
            done matches Err(e) ==> e == QuadtreeError::DegenerateSplit,
            done is Err || *old(self) is Quad ==> *final(self) == *old(self),
            done is Ok && *old(self) is Leaf ==> final(self).is_split_of(
                old(self).bounds(),
                (*old(self))->Leaf_0.value,
            ),
    {
        if self.is_quad() {
            return Ok(());
        }
        let inner = self.as_leaf();
        let bounds: Rect = inner.bounds;
        let value: T = inner.value;
        if !can_split(&bounds) {
            return Err(QuadtreeError::DegenerateSplit);
        }
        let h_mid: isize = midpoint(bounds[0].0, bounds[1].0);
        let v_mid: isize = midpoint(bounds[0].1, bounds[1].1);
        let pieces = split_rect(&bounds, h_mid, v_mid);
        proof {
            lemma_split_rect_quadrants(bounds);
        }
        let mut new_nodes: Vec<Node<T>> = Vec::with_capacity(4);
        let mut i: usize = 0;
        while i < pieces.len()
            invariant
                i <= pieces.len(),
                pieces.len() == 4,
                new_nodes.len() == i,
                forall|j: int| 0 <= j < 4 ==> #[trigger] pieces[j] == quadrant(bounds, j),
                forall|j: int|
                    0 <= j < i ==> #[trigger] new_nodes[j] == Node::Leaf(
                        LeafNode { bounds: quadrant(bounds, j), value },
                    ),
            decreases pieces.len() - i,
        {
            new_nodes.push(Self::Leaf(LeafNode { value, bounds: pieces[i] }));
            i += 1;
        }
        *self = Self::Quad(QuadNode { bounds, nodes: new_nodes });
        Ok(())
    }

    /// Replaces a branch by a leaf with the value of its first child, which
    /// has to be a leaf. A leaf is left as it is. Nothing is tested here: it
    /// is for the caller to see to it that the branch is uniform, and only
    /// then is the map kept.
    pub fn consolidate(&mut self)
        requires
            *old(self) is Quad ==> old(self)->Quad_0.nodes.len() > 0
                && old(self)->Quad_0.nodes[0] is Leaf,
        ensures
            *old(self) is Leaf ==> *final(self) == *old(self),
            *old(self) is Quad ==> *final(self) == Node::Leaf(
                LeafNode {
                    bounds: old(self).bounds(),
                    value: (*old(self))->Quad_0.nodes[0]->Leaf_0.value,
                },
            ),
            final(self).bounds() == old(self).bounds(),
            old(self).well_formed() && (*old(self) is Quad ==> old(self).uniform())
                ==> final(self)@ == old(self)@,
    {
        if self.is_leaf() {
            return ;
        }
        proof {
            if self.well_formed() && self.uniform() {
                self.lemma_uniform_view();
            }
        }
        let inner = self.as_quad();
        let bounds: Rect = inner.bounds;
        let value: T = *inner.nodes[0].get_value();
        *self = Self::Leaf(LeafNode { bounds, value });
    }
}

/// Whether two values are equal, for a type whose `==` is equality.
fn same_value<T: PartialEq>(a: &T, b: &T) -> (same: bool)
    requires
        obeys_concrete_eq::<T>(),
    ensures
        same == (*a == *b),
{
    proof {
        reveal(obeys_concrete_eq);
    }
    *a == *b
}

impl<T: Copy + PartialEq> Node<T> {
    /// Whether every child of a branch is a leaf that holds `value`.
    pub fn all_leaves_hold(&self, value: &T) -> (all: bool)
        requires
            obeys_concrete_eq::<T>(),
            self matches Node::Quad(quad) && quad.nodes.len() == 4,
        ensures
            all == self.leaves_hold(*value),
    {
        let nodes = self.get_nodes();
        let mut i: usize = 0;
        while i < 4
            invariant
                i <= 4,
                nodes.len() == 4,
                nodes@ == self->Quad_0.nodes@,
                obeys_concrete_eq::<T>(),
                forall|j: int|
                    0 <= j < i ==> (#[trigger] nodes[j]) is Leaf && nodes[j]->Leaf_0.value
                        == *value,
            decreases 4 - i,
        {
            if !(nodes[i].is_leaf() && same_value(nodes[i].get_value(), value)) {
                return false;
            }
            i += 1;
        }
        true
    }

    /// Whether a branch is uniform: all of its children are leaves, and they
    /// hold one and the same value.
    pub fn is_uniform(&self) -> (uniform: bool)
        requires
            obeys_concrete_eq::<T>(),
            self matches Node::Quad(quad) && quad.nodes.len() == 4,
        ensures
            uniform == self.uniform(),
    {
        let first = &self.get_nodes()[0];
        first.is_leaf() && self.all_leaves_hold(first.get_value())
    }

    /// Writes `value` at the single cell `point`, and says whether the node
    /// ends as a leaf. A point outside the node's rectangle is refused, and so
    /// is one on the way to which a leaf would have to be cut that is a single
    /// cell wide or tall; the node is then left as it is.
    pub fn insert_value(&mut self, value: T, point: Coordinate) -> (done: Result<
        bool,
        QuadtreeError,
    >)
        requires
            obeys_concrete_eq::<T>(),
            old(self).well_formed(),
        ensures
            Self::insert_value_outcome(*old(self), *final(self), value, point, done),
    {
        if !self.contains(point) {
            return Err(QuadtreeError::OutOfBounds);
        }
        if !can_split_to_point(self.get_bounds(), point) {
            return Err(QuadtreeError::DegenerateSplit);
        }
        Ok(self.write_value(value, point))
    }

    /// Writes `value` at every cell of the node that lies in `bounds`, and
    /// says whether the node ends as a leaf. What of `bounds` lies outside the
    /// node is passed over, and so is a rectangle that shares no cell with
    /// the node's: nothing is written then, and that is no error. A rectangle
    /// for which a leaf would have to be cut that is a single cell wide or
    /// tall is refused; the node is then left as it is.
    pub fn insert_value_range(&mut self, value: T, bounds: &Rect) -> (done: Result<
        bool,
        QuadtreeError,
    >)
        requires
            obeys_concrete_eq::<T>(),
            old(self).well_formed(),
        ensures
            Self::insert_value_range_outcome(*old(self), *final(self), value, *bounds, done),
    {
        let own = *self.get_bounds();
        let part = match rect_intersection(&own, bounds) {
            Some(part) => part,
            None => {
                if self.is_quad() && self.is_uniform() {
                    self.consolidate();
                }
                return Ok(self.is_leaf());
            },
        };
        if !can_split_to_rect(&own, &part) {
            return Err(QuadtreeError::DegenerateSplit);
        }
        let leaf = self.write_range(value, &part);
        proof {
            assert forall|p: Coordinate| rect_contains(own, p) implies (rect_contains(part, p)
                <==> rect_contains(*bounds, p)) by {
                lemma_intersection_cells(own, *bounds, p);
            }
            assert(painted(old(self)@, part, value) =~= painted(old(self)@, *bounds, value));
            if rect_covers(*bounds, own) {
                lemma_covered_cells(*bounds, own);
                lemma_intersection_cells(own, *bounds, own[0]);
            }
        }
        Ok(leaf)
    }

    /// The write of a single cell, for a cell that the node's rectangle can be
    /// cut down to. A node that is that cell takes the value. Any other node
    /// is cut if it is a leaf, and the write goes on in the child over the
    /// quadrant of `point`; if that child ends as a leaf and all four children
    /// are then leaves with `value`, the branch becomes a leaf again.
    fn write_value(&mut self, value: T, point: Coordinate) -> (leaf: bool)
        requires
            obeys_concrete_eq::<T>(),
            old(self).well_formed(),
            splits_to_point(old(self).bounds(), point),
        ensures
            Self::value_written(*old(self), *final(self), value, point, leaf),
        decreases rect_span(old(self).bounds()),
    {
        let bounds: Rect = *self.get_bounds();
        proof {
            lemma_splits_to_point_inside(bounds, point);
        }
        if point == bounds[0] && point == bounds[1] {
            *self.get_value_mut() = value;
            assert(self@ =~= old(self)@.insert(point, value));
            return true;
        }
        match self.split() {
            Ok(()) => {},
            Err(_) => unreached(),
        }
        let ghost cut = *self;
        proof {
            old(self).lemma_split_keeps(cut);
            lemma_quadrants_tile(bounds, point);
        }
        let index: usize = self.child_holding(point);
        let child_is_leaf = match self {
            Node::Quad(quad) => quad.nodes[index].write_value(value, point),
            Node::Leaf(_) => unreached(),
        };
        proof {
            cut.lemma_child_written(*self, index as int, value, point);
        }
        if child_is_leaf && self.all_leaves_hold(&value) {
            self.consolidate();
        }
        self.is_leaf()
    }

    /// The write of a rectangle, for a rectangle that the node's rectangle
    /// can be cut into. A node whose rectangle is `bounds` becomes a leaf with
    /// `value`, whatever was below it. Any other node is cut if it is a leaf,
    /// and each child whose rectangle meets `bounds` is given what the two
    /// share; if the four children are then leaves with one and the same
    /// value, the branch becomes a leaf again.
    fn write_range(&mut self, value: T, bounds: &Rect) -> (leaf: bool)
        requires
            obeys_concrete_eq::<T>(),
            old(self).well_formed(),
            splits_to_rect(old(self).bounds(), *bounds),
        ensures
            Self::range_written(*old(self), *final(self), value, *bounds, leaf),
            Self::range_set(*old(self), *final(self), value, *bounds),
        decreases rect_span(old(self).bounds()),
    {
        if rect_eq(self.get_bounds(), bounds) {
            *self = Self::Leaf(LeafNode { bounds: *bounds, value });
            assert(self@ =~= painted(old(self)@, *bounds, value));
            return true;
        }
        match self.split() {
            Ok(()) => {},
            Err(_) => unreached(),
        }
        let ghost cut = *self;
        proof {
            old(self).lemma_split_keeps(cut);
        }
        let mut i: usize = 0;
        while i < 4
            invariant
                i <= 4,
                obeys_concrete_eq::<T>(),
                cut.well_formed(),
                cut is Quad,
                splits_to_rect(cut.bounds(), *bounds),
                cut.bounds() != *bounds,
                cut.bounds() == old(self).bounds(),
                cut@ == old(self)@,
                old(self).well_formed(),
                forall|j: int| 0 <= j < 4 ==> #[trigger] old(self).piece(j) == cut->Quad_0.nodes[j],
                old(self).consolidated() ==> forall|j: int|
                    0 <= j < 4 ==> (#[trigger] cut->Quad_0.nodes[j]).consolidated(),
                *self is Quad,
                self.bounds() == cut.bounds(),
                self->Quad_0.nodes.len() == 4,
                forall|j: int|
                    i <= j < 4 ==> #[trigger] self->Quad_0.nodes[j] == cut->Quad_0.nodes[j],
                forall|j: int|
                    0 <= j < i ==> #[trigger] cut.child_painted(*self, j, *bounds, value),
            decreases 4 - i,
        {
            let ghost before = *self;
            proof {
                cut.lemma_child_share(i as int, *bounds);
            }
            match self {
                Node::Quad(quad) => {
                    if let Some(part) = rect_intersection(quad.nodes[i].get_bounds(), bounds) {
                        quad.nodes[i].write_range(value, &part);
                    }
                },
                Node::Leaf(_) => unreached(),
            }
            proof {
                let before_child = cut->Quad_0.nodes[i as int];
                let after_child = self->Quad_0.nodes[i as int];
                assert(after_child@ =~= painted(before_child@, *bounds, value));
                assert forall|j: int| 0 <= j < i implies #[trigger] cut.child_painted(
                    *self,
                    j,
                    *bounds,
                    value,
                ) by {
                    assert(cut.child_painted(before, j, *bounds, value));
                }
            }
            i += 1;
        }
        proof {
            cut.lemma_children_painted(*self, *bounds, value);
            if old(self).consolidated() {
                assert forall|j: int| 0 <= j < 4 implies (#[trigger] self->Quad_0.nodes[j]).consolidated() by {
                    assert(cut.child_painted(*self, j, *bounds, value));
                }
            }
        }
        let ghost filled = *self;
        if self.is_uniform() {
            self.consolidate();
        }
        proof {
            assert forall|j: int| 0 <= j < 4 implies #[trigger] Self::piece_range_set(
                *old(self),
                self.piece(j),
                value,
                *bounds,
                j,
            ) by {
                assert(cut.child_painted(filled, j, *bounds, value));
            }
            assert(Self::piece_range_set(*old(self), self.piece(0), value, *bounds, 0));
            assert(Self::piece_range_set(*old(self), self.piece(1), value, *bounds, 1));
            assert(Self::piece_range_set(*old(self), self.piece(2), value, *bounds, 2));
            assert(Self::piece_range_set(*old(self), self.piece(3), value, *bounds, 3));
        }
        self.is_leaf()
    }
}

} // verus!
