//! The quadtree itself: a map from every cell of a fixed rectangle to a
//! value, which stores large uniform regions as single leaves.

use vstd::prelude::*;
use vstd::laws_eq::obeys_concrete_eq;
use crate::error::QuadtreeError;
use crate::geometry::{
    cell_at, cell_count, cell_index, converts, lemma_cell_after, lemma_cell_index,
    lemma_covered_cells, rect_contains, rect_covers, rect_intersection_spec, rect_nonempty,
    splits_to_point, splits_to_rect, Coordinate, Rect,
};
use crate::node::{is_constant, painted, LeafNode, Node};

verus! {

/// `found` refers to the value `expected`, or to none where there is none.
pub open spec fn refers_to<T>(found: Option<&T>, expected: Option<T>) -> bool {
    match expected {
        Some(value) => found == Some(&value),
        None => found is None,
    }
}

/// A region quadtree over a rectangle fixed when it is made, the governed
/// rectangle. As a map (`@`) it holds a value for each cell of that rectangle.
pub struct Quadtree<T> {
    inner: Node<T>,
}

impl<T> View for Quadtree<T> {
    type V = Map<Coordinate, T>;

    open spec fn view(&self) -> Map<Coordinate, T> {
        self.root()@
    }
}

impl<T> Quadtree<T> {
    /// The root node.
    pub closed spec fn root(self) -> Node<T> {
        self.inner
    }

    /// The governed rectangle.
    pub open spec fn bounds(self) -> Rect {
        self.root().bounds()
    }

    /// What holds of every quadtree: its nodes are well formed, and no
    /// branch in it is uniform.
    #[verifier::type_invariant]
    pub open spec fn well_formed(self) -> bool {
        self.root().well_formed() && self.root().consolidated()
    }

    /// What a lookup of the point `c` has found: what the root finds for it,
    /// which for a cell of the governed rectangle is the value of the map.
    pub open spec fn found_at(self, c: Coordinate, found: Option<&T>) -> bool {
        &&& refers_to(found, self.root().lookup(c))
        &&& rect_contains(self.bounds(), c) ==> found == Some(&self@[c])
    }

    /// The value at `point`. For a cell of the governed rectangle that is the
    /// value of the map. For any other point it is the root's value while the
    /// root is a leaf, and none once it is a branch.
    pub fn get<C>(&self, point: C) -> (found: Option<&T>) where C: Into<Coordinate>
        ensures
            exists|c: Coordinate| #[trigger] converts(point, c) && self.found_at(c, found),
    {
        proof {
            use_type_invariant(self);
        }
        let c: Coordinate = point.into();
        let found = self.inner.read_value(c);
        assert(converts(point, c) && self.found_at(c, found));
        found
    }
}

impl<T> Quadtree<T> {
    /// The values of all cells of the governed rectangle, row by row from the
    /// first row to the last, each row from its first column to its last.
    pub open spec fn row_major(self) -> Seq<T> {
        Seq::new(cell_count(self.bounds()), |k: int| self@[cell_at(self.bounds(), k)])
    }

    /// A walk over the values of all cells of the governed rectangle, row by
    /// row, each row from its first column to its last.
    pub fn iter(&self) -> (walk: QuadtreeIter<'_, T>)
        ensures
            walk.tree() == *self,
            walk.position() == 0,
            walk.remaining() == self.row_major(),
    {
        let bounds = self.inner.get_bounds();
        let start = bounds[0];
        let finished = !(bounds[0].0 <= bounds[1].0 && bounds[0].1 <= bounds[1].1);
        proof {
            if !finished {
                lemma_cell_index(*bounds, start);
            }
        }
        let walk = QuadtreeIter { inner: self, counter: start, finished };
        walk
    }
}

/// A walk over the cells of a quadtree, row by row. It is where it is by
/// `position`: the number of cells that it has already passed.
pub struct QuadtreeIter<'a, T> {
    inner: &'a Quadtree<T>,
    counter: Coordinate,
    finished: bool,
}

impl<'a, T> QuadtreeIter<'a, T> {
    /// Until the walk has ended, it stands on a cell of the governed
    /// rectangle.
    #[verifier::type_invariant]
    spec fn cursor_inside(self) -> bool {
        !self.finished ==> rect_contains(self.inner.bounds(), self.counter)
    }

    /// The quadtree that is walked over.
    pub closed spec fn tree(self) -> Quadtree<T> {
        *self.inner
    }

    /// How many cells the walk has passed: the place, row by row, of the cell
    /// that it stands on, or the number of all cells once it has ended.
    pub closed spec fn position(self) -> nat {
        if self.finished {
            cell_count(self.inner.bounds())
        } else {
            cell_index(self.inner.bounds(), self.counter) as nat
        }
    }

    /// The values that the walk has yet to yield, in order.
    pub open spec fn remaining(self) -> Seq<T> {
        Seq::new(
            (cell_count(self.tree().bounds()) - self.position()) as nat,
            |j: int| self.tree()@[cell_at(self.tree().bounds(), self.position() + j)],
        )
    }

    /// Yields the value of the cell that the walk stands on and moves on to
    /// the next cell of the row, or from the end of a row to the start of the
    /// next; after the last corner the walk has ended, and yields nothing.
    pub fn next(&mut self) -> (found: Option<&'a T>)
        ensures
            final(self).tree() == old(self).tree(),
            old(self).position() <= cell_count(old(self).tree().bounds()),
            old(self).position() < cell_count(old(self).tree().bounds()) ==> found == Some(
                &old(self).tree()@[cell_at(old(self).tree().bounds(), old(self).position() as int)],
            ) && final(self).position() == old(self).position() + 1,
            old(self).position() == cell_count(old(self).tree().bounds()) ==> found is None
                && final(self).position() == old(self).position(),
            old(self).remaining().len() > 0 ==> found == Some(&old(self).remaining()[0])
                && final(self).remaining() == old(self).remaining().drop_first(),
            old(self).remaining().len() == 0 ==> found is None && final(self).remaining()
                == old(self).remaining(),
    {
        proof {
            use_type_invariant(&*self);
            use_type_invariant(self.inner);
        }
        if self.finished {
            return None;
        }
        proof {
            lemma_cell_index(self.inner.bounds(), self.counter);
            lemma_cell_after(self.inner.bounds(), self.counter);
        }
        let value = self.inner.get(self.counter);
        let bounds = self.inner.inner.get_bounds();
        let upper_left = bounds[0];
        let lower_right = bounds[1];
        if self.counter == lower_right {
            self.finished = true;
        } else if self.counter.0 == lower_right.0 {
            self.counter = Coordinate(upper_left.0, self.counter.1 + 1)
        } else {
            self.counter.0 += 1;
        }
        value
    }
}

impl<T> Quadtree<T> where T: Default {
    /// A quadtree over the rectangle between the two corners, both included,
    /// as a single leaf with the default value of `T`.
    pub fn new<C>(upper_left_bound: C, lower_right_bound: C) -> (tree: Self) where
        C: Into<Coordinate>,

        ensures
            exists|min: Coordinate, max: Coordinate, value: T|
                {
                    &&& #[trigger] converts(upper_left_bound, min)
                    &&& #[trigger] converts(lower_right_bound, max)
                    &&& #[trigger] call_ensures(T::default, (), value)
                    &&& tree.root() == Node::Leaf(LeafNode { bounds: [min, max], value })
                },
    {
        let min: Coordinate = upper_left_bound.into();
        let max: Coordinate = lower_right_bound.into();
        let value = T::default();
        let tree = Quadtree { inner: Node::Leaf(LeafNode { bounds: [min, max], value }) };
        assert(converts(upper_left_bound, min) && converts(lower_right_bound, max) && call_ensures(
            T::default,
            (),
            value,
        ) && tree.root() == Node::Leaf(LeafNode { bounds: [min, max], value }));
        tree
    }
}

impl<T> Quadtree<T> where T: Copy + PartialEq {
    /// What `insert` does with `value` and the point `p`: a point outside the
    /// governed rectangle is refused, and so is one that the rectangle cannot be
    /// cut down to; a refused write changes nothing. Any other write gives the
    /// map `value` at `p` and leaves the rest as it was; node for node, the
    /// tree after it is what the write makes of the root.
    pub open spec fn insert_outcome(
        before: Self,
        after: Self,
        value: T,
        p: Coordinate,
        done: Result<(), QuadtreeError>,
    ) -> bool {
        if !rect_contains(before.bounds(), p) {
            done == Err::<(), QuadtreeError>(QuadtreeError::OutOfBounds) && after == before
        } else if !splits_to_point(before.bounds(), p) {
            done == Err::<(), QuadtreeError>(QuadtreeError::DegenerateSplit) && after == before
        } else {
            &&& done is Ok
            &&& after.well_formed()
            &&& after.bounds() == before.bounds()
            &&& after@ == before@.insert(p, value)
            &&& Node::point_set(before.root(), after.root(), value, p)
        }
    }

    /// What `insert_rect` does with `value` and `rect`. A rectangle that
    /// shares no cell with the governed rectangle is passed over: that is no
    /// error, and the tree stays as it is. A rectangle whose share the
    /// governed rectangle cannot be cut into is refused, and the refused write
    /// changes nothing. Any other write gives the map `value` at each of its
    /// cells that lies in `rect` and leaves the rest as it was; where `rect`
    /// holds the whole governed rectangle, the root ends as a leaf. Node for
    /// node, the tree after it is what the write of the shared cells makes of
    /// the root.
    pub open spec fn insert_rect_outcome(
        before: Self,
        after: Self,
        value: T,
        rect: Rect,
        done: Result<(), QuadtreeError>,
    ) -> bool {
        match rect_intersection_spec(before.bounds(), rect) {
            None => done is Ok && after == before,
            Some(part) => if !splits_to_rect(before.bounds(), part) {
                done == Err::<(), QuadtreeError>(QuadtreeError::DegenerateSplit) && after
                    == before
            } else {
                &&& done is Ok
                &&& after.well_formed()
                &&& after.bounds() == before.bounds()
                &&& after@ == painted(before@, rect, value)
                &&& rect_covers(rect, before.bounds()) ==> after.root() == Node::Leaf(
                    LeafNode { bounds: before.bounds(), value },
                )
                &&& Node::range_set(before.root(), after.root(), value, part)
            },
        }
    }

    /// Writes `value` at the cell `point`. A point outside the governed
    /// rectangle is refused, and so is one on the way to which a leaf would
    /// have to be cut that is a single cell wide or tall; the tree is then
    /// left as it is.
    pub fn insert<C>(&mut self, value: T, point: C) -> (done: Result<(), QuadtreeError>) where
        C: Into<Coordinate>,

        requires
            obeys_concrete_eq::<T>(),
        ensures
            exists|c: Coordinate| #[trigger]
                converts(point, c) && Self::insert_outcome(
                    *old(self),
                    *final(self),
                    value,
                    c,
                    done,
                ),
    {
        let c: Coordinate = point.into();
        proof {
            use_type_invariant(&*self);
        }
        let mut root = Node::Leaf(LeafNode { bounds: [c, c], value });
        core::mem::swap(&mut root, &mut self.inner);
        let written = root.insert_value(value, c);
        core::mem::swap(&mut root, &mut self.inner);
        let done = match written {
            Ok(_) => Ok(()),
            Err(refused) => Err(refused),
        };
        assert(converts(point, c) && Self::insert_outcome(*old(self), *self, value, c, done));
        done
    }

    /// Writes `value` at every cell of the governed rectangle that lies in
    /// `rect`. What of `rect` lies outside is passed over, and so is a
    /// rectangle that shares no cell with the governed rectangle: nothing is
    /// written then, and that is no error. A rectangle for which a leaf would
    /// have to be cut that is a single cell wide or tall is refused; the tree
    /// is then left as it is.
    pub fn insert_rect(&mut self, value: T, rect: &Rect) -> (done: Result<(), QuadtreeError>)
        requires
            obeys_concrete_eq::<T>(),
        ensures
            Self::insert_rect_outcome(*old(self), *final(self), value, *rect, done),
    {
        proof {
            use_type_invariant(&*self);
        }
        let mut root = Node::Leaf(LeafNode { bounds: *rect, value });
        core::mem::swap(&mut root, &mut self.inner);
        let written = root.insert_value_range(value, rect);
        core::mem::swap(&mut root, &mut self.inner);
        match written {
            Ok(_) => Ok(()),
            Err(refused) => Err(refused),
        }
    }
}

impl<T> Quadtree<T> {
    /// What a lookup finds is settled by the governed rectangle and the map.
    /// At a cell of the rectangle it finds the cell's value. At any other
    /// point it finds the one value of the map where the map holds one and
    /// the same value at all cells, the root then being a leaf, and nothing
    /// otherwise.
    pub proof fn lemma_lookup(self, c: Coordinate)
        requires
            self.well_formed(),
            rect_nonempty(self.bounds()),
        ensures
            self.root() is Leaf <==> is_constant(self@),
            self.root().lookup(c) == if rect_contains(self.bounds(), c) {
                Some(self@[c])
            } else if is_constant(self@) {
                Some(self@[self.bounds()[0]])
            } else {
                None
            },
    {
        let root = self.root();
        root.lemma_leaf_iff_constant();
        if rect_contains(self.bounds(), c) {
            root.lemma_lookup_finds(c);
        } else if root is Quad {
            root.lemma_lookup_outside(c);
        }
    }

    /// Two quadtrees over the same rectangle of at least one cell that hold
    /// the same map are the same tree node for node, and answer every
    /// lookup alike.
    pub proof fn lemma_same_map_same_tree(self, other: Self)
        requires
            self.well_formed(),
            other.well_formed(),
            rect_nonempty(self.bounds()),
            other.bounds() == self.bounds(),
            other@ == self@,
        ensures
            self.root().same_tree(other.root()),
            forall|c: Coordinate| self.root().lookup(c) == other.root().lookup(c),
    {
        self.root().lemma_same_map_same_tree(other.root());
        assert forall|c: Coordinate| self.root().lookup(c) == other.root().lookup(c) by {
            self.root().lemma_same_tree_same_lookup(other.root(), c);
        }
    }
}

impl<T> Quadtree<T> where T: Copy + PartialEq {
    /// Writing the same value at the same point a second time is accepted as
    /// the first time was, and changes nothing: the map and the governed
    /// rectangle after the second write are those after the first.
    pub proof fn lemma_insert_twice(
        start: Self,
        once: Self,
        twice: Self,
        value: T,
        p: Coordinate,
        first: Result<(), QuadtreeError>,
        second: Result<(), QuadtreeError>,
    )
        requires
            Self::insert_outcome(start, once, value, p, first),
            Self::insert_outcome(once, twice, value, p, second),
        ensures
            second == first,
            twice@ == once@,
            twice.bounds() == once.bounds(),
    {
        if first is Ok {
            assert(first->Ok_0 == second->Ok_0);
        }
    }

    /// Writing the same value in the same rectangle a second time is accepted
    /// as the first time was, and changes nothing: the map and the governed
    /// rectangle after the second write are those after the first.
    pub proof fn lemma_insert_rect_twice(
        start: Self,
        once: Self,
        twice: Self,
        value: T,
        rect: Rect,
        first: Result<(), QuadtreeError>,
        second: Result<(), QuadtreeError>,
    )
        requires
            Self::insert_rect_outcome(start, once, value, rect, first),
            Self::insert_rect_outcome(once, twice, value, rect, second),
        ensures
            second == first,
            twice@ == once@,
            twice.bounds() == once.bounds(),
    {
        if first is Ok {
            assert(first->Ok_0 == second->Ok_0);
        }
    }

    /// A write at a cell of the governed rectangle, one that the rectangle can
    /// be cut down to, is made, and is seen at that cell and at no other:
    /// after it a lookup of the cell finds the value written, and a lookup of
    /// any other cell of the governed rectangle finds what the cell held before.
    pub proof fn lemma_insert_is_local(
        before: Self,
        after: Self,
        value: T,
        p: Coordinate,
        done: Result<(), QuadtreeError>,
        q: Coordinate,
    )
        requires
            Self::insert_outcome(before, after, value, p, done),
            rect_contains(before.bounds(), p),
            splits_to_point(before.bounds(), p),
            rect_contains(before.bounds(), q),
        ensures
            done is Ok,
            after.root().lookup(q) == Some(
                if q == p {
                    value
                } else {
                    before@[q]
                },
            ),
    {
        after.root().lemma_lookup_finds(q);
        assert(after@[q] == after.root().lookup(q).unwrap());
    }

    /// A write in a rectangle within the governed rectangle, one that the
    /// governed rectangle can be cut into, is made, and is seen at the cells
    /// of the rectangle and at no other: after it a lookup of a cell of the
    /// rectangle finds the value written, and a lookup of any other cell of
    /// the governed rectangle finds what the cell held before.
    pub proof fn lemma_insert_rect_is_local(
        before: Self,
        after: Self,
        value: T,
        rect: Rect,
        done: Result<(), QuadtreeError>,
        q: Coordinate,
    )
        requires
            Self::insert_rect_outcome(before, after, value, rect, done),
            rect_nonempty(rect),
            rect_covers(before.bounds(), rect),
            splits_to_rect(before.bounds(), rect),
            rect_contains(before.bounds(), q),
        ensures
            done is Ok,
            after.root().lookup(q) == Some(
                if rect_contains(rect, q) {
                    value
                } else {
                    before@[q]
                },
            ),
    {
        lemma_covered_cells(before.bounds(), rect);
        after.root().lemma_lookup_finds(q);
        assert(after@[q] == after.root().lookup(q).unwrap());
    }

    /// A write in a rectangle that holds the whole governed rectangle is made,
    /// and leaves a single leaf: the root is a leaf with the value written,
    /// and every lookup finds that value.
    pub proof fn lemma_insert_rect_over_all(
        before: Self,
        after: Self,
        value: T,
        rect: Rect,
        done: Result<(), QuadtreeError>,
        q: Coordinate,
    )
        requires
            Self::insert_rect_outcome(before, after, value, rect, done),
            rect_nonempty(before.bounds()),
            rect_covers(rect, before.bounds()),
        ensures
            done is Ok,
            after.root() == Node::Leaf(LeafNode { bounds: before.bounds(), value }),
            after.root().lookup(q) == Some(value),
    {
        lemma_covered_cells(rect, before.bounds());
    }
}

} // verus!
