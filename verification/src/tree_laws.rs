//! What holds of well-formed nodes: how a lookup descends, that cutting and
//! merging keep the map, that writing in a child writes in the branch, and
//! that a tree without uniform branches is determined by what it stores.

use vstd::prelude::*;
use crate::geometry::{
    lemma_covered_cells, lemma_intersection_cells, lemma_quadrants_inside, lemma_quadrants_tile,
    quadrant, quadrant_of, rect_contains, rect_covers, rect_intersection_spec, rect_nonempty,
    rect_splittable, splits_to_rect, Coordinate, Rect,
};
use crate::node::{is_constant, painted, LeafNode, Node};

verus! {

impl<T> Node<T> {
    /// Child `i` of `after` is child `i` of `self` with `value` on its share
    /// of `rect`.
    pub open spec fn child_painted(self, after: Node<T>, i: int, rect: Rect, value: T) -> bool {
        let before_child = self->Quad_0.nodes[i];
        let after_child = after->Quad_0.nodes[i];
        &&& after_child.well_formed()
        &&& after_child.bounds() == before_child.bounds()
        &&& after_child@ == painted(before_child@, rect, value)
        &&& before_child.consolidated() ==> after_child.consolidated()
        &&& rect_covers(rect, before_child.bounds()) ==> after_child == Node::Leaf(
            LeafNode { bounds: before_child.bounds(), value },
        )
        &&& Self::piece_range_set(self, after_child, value, rect, i)
    }

    /// What a write of `rect` in a branch has to do in child `i`: the child
    /// stands for quadrant `i`; where it shares cells with `rect`, its
    /// rectangle can be cut into that share, which holds exactly the cells of
    /// `rect` in the quadrant, and is the whole quadrant where `rect` holds
    /// it; where it shares none, no cell of the quadrant lies in `rect`.
    pub proof fn lemma_child_share(self, i: int, rect: Rect)
        requires
            self.well_formed(),
            self is Quad,
            0 <= i < 4,
            splits_to_rect(self.bounds(), rect),
            self.bounds() != rect,
        ensures
            self->Quad_0.nodes[i].well_formed(),
            self->Quad_0.nodes[i].bounds() == quadrant(self.bounds(), i),
            match rect_intersection_spec(quadrant(self.bounds(), i), rect) {
                Some(part) => {
                    &&& splits_to_rect(quadrant(self.bounds(), i), part)
                    &&& rect_covers(rect, quadrant(self.bounds(), i)) ==> part == quadrant(
                        self.bounds(),
                        i,
                    )
                    &&& forall|p: Coordinate|
                        rect_contains(quadrant(self.bounds(), i), p) ==> (rect_contains(part, p)
                            <==> rect_contains(rect, p))
                },
                None => {
                    &&& !rect_covers(rect, quadrant(self.bounds(), i))
                    &&& forall|p: Coordinate|
                        rect_contains(quadrant(self.bounds(), i), p) ==> !rect_contains(rect, p)
                },
            },
    {
        let piece = quadrant(self.bounds(), i);
        lemma_quadrants_inside(self.bounds(), i);
        assert forall|p: Coordinate| rect_contains(piece, p) implies (rect_contains(rect, p) <==> (
        rect_intersection_spec(piece, rect) matches Some(part) && rect_contains(part, p))) by {
            lemma_intersection_cells(piece, rect, p);
        }
        if rect_covers(rect, piece) {
            lemma_covered_cells(rect, piece);
        }
    }

    /// In a well-formed branch, a lookup of a cell of its rectangle is the
    /// lookup in the child over the cell's quadrant.
    pub proof fn lemma_lookup_descends(self, p: Coordinate)
        requires
            self.well_formed(),
            self is Quad,
            rect_contains(self.bounds(), p),
        ensures
            0 <= quadrant_of(self.bounds(), p) < 4,
            rect_contains(self->Quad_0.nodes[quadrant_of(self.bounds(), p)].bounds(), p),
            self.lookup(p) == self->Quad_0.nodes[quadrant_of(self.bounds(), p)].lookup(p),
    {
        lemma_quadrants_tile(self.bounds(), p);
    }

    /// In a well-formed node, a lookup of a cell of its rectangle finds a
    /// value.
    pub proof fn lemma_lookup_finds(self, p: Coordinate)
        requires
            self.well_formed(),
            rect_contains(self.bounds(), p),
        ensures
            self.lookup(p) is Some,
        decreases self,
    {
        if self is Quad {
            self.lemma_lookup_descends(p);
            self->Quad_0.nodes[quadrant_of(self.bounds(), p)].lemma_lookup_finds(p);
        }
    }

    /// A leaf that can be cut, and the branch that it is cut into, are both
    /// well formed and stand for the same map. A node that was not cut
    /// stands as it was.
    pub proof fn lemma_split_keeps(self, cut: Node<T>)
        requires
            self.well_formed(),
            self is Quad ==> cut == self,
            self is Leaf ==> rect_splittable(self.bounds()) && cut.is_split_of(
                self.bounds(),
                self->Leaf_0.value,
            ),
        ensures
            cut is Quad,
            cut.well_formed(),
            cut.bounds() == self.bounds(),
            cut@ == self@,
            self.consolidated() ==> forall|i: int|
                0 <= i < 4 ==> (#[trigger] cut->Quad_0.nodes[i]).consolidated(),
            forall|i: int| 0 <= i < 4 ==> #[trigger] self.piece(i) == cut->Quad_0.nodes[i],
    {
        if self is Leaf {
            let nodes = cut->Quad_0.nodes;
            assert(nodes[0].well_formed() && nodes[1].well_formed() && nodes[2].well_formed()
                && nodes[3].well_formed());
            assert forall|p: Coordinate| rect_contains(self.bounds(), p) implies cut.lookup(p)
                == self.lookup(p) by {
                cut.lemma_lookup_descends(p);
            }
        }
    }

    /// Writing one cell in the child of a branch over the cell's quadrant
    /// writes that cell in the branch, and keeps the branch well formed.
    pub proof fn lemma_child_written(
        self,
        written: Node<T>,
        index: int,
        value: T,
        point: Coordinate,
    )
        requires
            self.well_formed(),
            self is Quad,
            rect_contains(self.bounds(), point),
            index == quadrant_of(self.bounds(), point),
            written is Quad,
            written.bounds() == self.bounds(),
            written->Quad_0.nodes.len() == 4,
            forall|i: int|
                0 <= i < 4 && i != index ==> #[trigger] written->Quad_0.nodes[i]
                    == self->Quad_0.nodes[i],
            written->Quad_0.nodes[index].well_formed(),
            written->Quad_0.nodes[index].bounds() == self->Quad_0.nodes[index].bounds(),
            written->Quad_0.nodes[index]@ == self->Quad_0.nodes[index]@.insert(point, value),
        ensures
            written.well_formed(),
            written@ == self@.insert(point, value),
    {
        lemma_quadrants_tile(self.bounds(), point);
        assert forall|p: Coordinate| rect_contains(self.bounds(), p) implies written.lookup(
            p,
        ).unwrap() == (if p == point {
            value
        } else {
            self.lookup(p).unwrap()
        }) by {
            self.lemma_lookup_descends(p);
            written.lemma_lookup_descends(p);
            let child = written->Quad_0.nodes[quadrant_of(self.bounds(), p)];
            assert(child@[p] == child.lookup(p).unwrap());
        }
    }

    /// Painting in each child of a branch its share of a rectangle paints the
    /// rectangle in the branch, and keeps the branch well formed.
    pub proof fn lemma_children_painted(self, after: Node<T>, rect: Rect, value: T)
        requires
            self.well_formed(),
            self is Quad,
            after is Quad,
            after.bounds() == self.bounds(),
            after->Quad_0.nodes.len() == 4,
            forall|i: int| 0 <= i < 4 ==> #[trigger] self.child_painted(after, i, rect, value),
        ensures
            after.well_formed(),
            after@ == painted(self@, rect, value),
            rect_covers(rect, self.bounds()) ==> after.uniform() && after->Quad_0.nodes[0]
                == Node::Leaf(LeafNode { bounds: quadrant(self.bounds(), 0), value }),
    {
        assert(self.child_painted(after, 0, rect, value));
        assert(self.child_painted(after, 1, rect, value));
        assert(self.child_painted(after, 2, rect, value));
        assert(self.child_painted(after, 3, rect, value));
        assert forall|p: Coordinate| rect_contains(self.bounds(), p) implies after.lookup(
            p,
        ).unwrap() == (if rect_contains(rect, p) {
            value
        } else {
            self.lookup(p).unwrap()
        }) by {
            self.lemma_lookup_descends(p);
            after.lemma_lookup_descends(p);
            let child = after->Quad_0.nodes[quadrant_of(self.bounds(), p)];
            assert(child@[p] == child.lookup(p).unwrap());
        }
        if rect_covers(rect, self.bounds()) {
            assert forall|i: int| 0 <= i < 4 implies rect_covers(
                rect,
                (#[trigger] self->Quad_0.nodes[i]).bounds(),
            ) by {
                lemma_quadrants_inside(self.bounds(), i);
            }
        }
    }

    /// A well-formed uniform branch stands for the same map as a leaf over
    /// its rectangle with the value of its first child.
    pub proof fn lemma_uniform_view(self)
        requires
            self.well_formed(),
            self.uniform(),
        ensures
            self@ == (Node::Leaf(
                LeafNode {
                    bounds: self.bounds(),
                    value: self->Quad_0.nodes[0]->Leaf_0.value,
                },
            ))@,
    {
        let leaf = Node::Leaf(
            LeafNode { bounds: self.bounds(), value: self->Quad_0.nodes[0]->Leaf_0.value },
        );
        assert forall|p: Coordinate| rect_contains(self.bounds(), p) implies self.lookup(p)
            == leaf.lookup(p) by {
            self.lemma_lookup_descends(p);
        }
    }

    /// In a well-formed branch, a lookup of a point outside its rectangle
    /// finds nothing.
    pub proof fn lemma_lookup_outside(self, p: Coordinate)
        requires
            self.well_formed(),
            self is Quad,
            !rect_contains(self.bounds(), p),
        ensures
            self.lookup(p) is None,
    {
        lemma_quadrants_inside(self.bounds(), 0);
        lemma_quadrants_inside(self.bounds(), 1);
        lemma_quadrants_inside(self.bounds(), 2);
        lemma_quadrants_inside(self.bounds(), 3);
    }

    /// The map of a child of a well-formed branch is the map of the branch
    /// on the child's quadrant.
    pub proof fn lemma_child_view(self, i: int, p: Coordinate)
        requires
            self.well_formed(),
            self is Quad,
            0 <= i < 4,
            rect_contains(quadrant(self.bounds(), i), p),
        ensures
            rect_contains(self.bounds(), p),
            self->Quad_0.nodes[i]@.dom().contains(p),
            self@.dom().contains(p),
            self->Quad_0.nodes[i]@[p] == self@[p],
    {
        lemma_quadrants_inside(self.bounds(), i);
        lemma_quadrants_tile(self.bounds(), p);
        self.lemma_lookup_descends(p);
    }

    /// A well-formed node without uniform branches is a leaf exactly when it
    /// holds one and the same value at all of its cells.
    pub proof fn lemma_leaf_iff_constant(self)
        requires
            self.well_formed(),
            self.consolidated(),
        ensures
            self is Leaf <==> is_constant(self@),
        decreases self,
    {
        if self is Quad && is_constant(self@) {
            let nodes = self->Quad_0.nodes;
            let bounds = self.bounds();
            assert forall|i: int| 0 <= i < 4 implies (#[trigger] nodes[i]) is Leaf
                && nodes[i]->Leaf_0.value == self@[quadrant(bounds, i)[0]] by {
                let child = nodes[i];
                child.lemma_leaf_iff_constant();
                assert forall|p: Coordinate, q: Coordinate|
                    child@.dom().contains(p) && child@.dom().contains(q) implies child@[p]
                    == child@[q] by {
                    self.lemma_child_view(i, p);
                    self.lemma_child_view(i, q);
                }
                lemma_quadrants_inside(bounds, i);
                self.lemma_child_view(i, quadrant(bounds, i)[0]);
            }
            assert forall|i: int| 0 <= i < 4 implies (#[trigger] nodes[i])->Leaf_0.value
                == nodes[0]->Leaf_0.value by {
                lemma_quadrants_inside(bounds, i);
                lemma_quadrants_inside(bounds, 0);
                self.lemma_child_view(i, quadrant(bounds, i)[0]);
                self.lemma_child_view(0, quadrant(bounds, 0)[0]);
            }
        }
    }

    /// A tree is determined by what it stores: two well-formed nodes without
    /// uniform branches, over the same rectangle of at least one cell and
    /// with the same map, are the same node for node.
    pub proof fn lemma_same_map_same_tree(self, other: Node<T>)
        requires
            self.well_formed(),
            self.consolidated(),
            other.well_formed(),
            other.consolidated(),
            rect_nonempty(self.bounds()),
            other.bounds() == self.bounds(),
            other@ == self@,
        ensures
            self.same_tree(other),
        decreases self,
    {
        self.lemma_leaf_iff_constant();
        other.lemma_leaf_iff_constant();
        let bounds = self.bounds();
        match self {
            Node::Leaf(_) => {
                assert(other@[bounds[0]] == other->Leaf_0.value);
            },
            Node::Quad(quad) => {
                let other_nodes = other->Quad_0.nodes;
                assert forall|i: int| 0 <= i < quad.nodes.len() implies (#[trigger] quad.nodes[i]).same_tree(
                    other_nodes[i],
                ) by {
                    let a = quad.nodes[i];
                    let b = other_nodes[i];
                    lemma_quadrants_inside(bounds, i);
                    assert forall|p: Coordinate| rect_contains(a.bounds(), p) implies a@[p]
                        == b@[p] by {
                        self.lemma_child_view(i, p);
                        other.lemma_child_view(i, p);
                    }
                    assert(a@ =~= b@);
                    a.lemma_same_map_same_tree(b);
                }
            },
        }
    }

    /// Trees that are the same node for node answer every lookup alike.
    pub proof fn lemma_same_tree_same_lookup(self, other: Node<T>, p: Coordinate)
        requires
            self.same_tree(other),
        ensures
            self.lookup(p) == other.lookup(p),
        decreases self,
    {
        if let Node::Quad(quad) = self {
            let other_nodes = other->Quad_0.nodes;
            if quad.nodes.len() == 4 {
                assert forall|i: int| 0 <= i < 4 implies (#[trigger] quad.nodes[i]).bounds()
                    == other_nodes[i].bounds() && quad.nodes[i].lookup(p) == other_nodes[i].lookup(
                    p,
                ) by {
                    assert(quad.nodes[i].same_tree(other_nodes[i]));
                    quad.nodes[i].lemma_same_tree_same_lookup(other_nodes[i], p);
                }
            }
        }
    }
}

} // verus!
