use quadtree::{Coordinate, LeafNode, Node, QuadtreeError, Rect};

#[test]
fn contains_works_correctly() {
    let leaf_node = Node::Leaf(LeafNode {
        bounds: [Coordinate(0, 0), Coordinate(0, 0)],
        value: 0,
    });
    assert!(leaf_node.contains(Coordinate(0, 0)));
    assert!(!leaf_node.contains(Coordinate(1, 0)));
    assert!(!leaf_node.contains(Coordinate(1, 1)));
    assert!(!leaf_node.contains(Coordinate(0, 1)));
}

#[test]
fn you_can_split_leaves() {
    let mut node = Node::Leaf(LeafNode {
        bounds: [Coordinate(1, 1), Coordinate(4, 4)],
        value: 0,
    });
    assert_eq!(node.split(), Ok(()));
    assert_eq!(node.get_bounds(), &[Coordinate(1, 1), Coordinate(4, 4)]);
    let child_bounds: Vec<&Rect> = node
        .get_nodes()
        .into_iter()
        .map(|n| n.get_bounds())
        .collect();
    assert_eq!(
        child_bounds,
        &[
            &[Coordinate(1, 1), Coordinate(2, 2)],
            &[Coordinate(3, 1), Coordinate(4, 2)],
            &[Coordinate(1, 3), Coordinate(2, 4)],
            &[Coordinate(3, 3), Coordinate(4, 4)],
        ]
    );
}

#[test]
fn you_can_split_uneven_leaves() {
    let mut node = Node::Leaf(LeafNode {
        bounds: [Coordinate(1, 1), Coordinate(5, 5)],
        value: 0,
    });
    assert_eq!(node.split(), Ok(()));
    let child_bounds: Vec<&Rect> = node
        .get_nodes()
        .into_iter()
        .map(|n| n.get_bounds())
        .collect();
    assert_eq!(
        child_bounds,
        &[
            &[Coordinate(1, 1), Coordinate(3, 3)],
            &[Coordinate(4, 1), Coordinate(5, 3)],
            &[Coordinate(1, 4), Coordinate(3, 5)],
            &[Coordinate(4, 4), Coordinate(5, 5)],
        ]
    );
}

#[test]
fn splitting_a_single_point_leaf_is_an_error() {
    let mut node = Node::Leaf(LeafNode {
        bounds: [Coordinate(0, 0), Coordinate(0, 0)],
        value: 0,
    });
    assert_eq!(node.split(), Err(QuadtreeError::DegenerateSplit));
    assert!(node.is_leaf());
    assert_eq!(node.get_bounds(), &[Coordinate(0, 0), Coordinate(0, 0)]);
    assert_eq!(node.get_value(), &0);
}

#[test]
fn splitting_a_single_row_or_column_is_an_error() {
    let mut row = Node::Leaf(LeafNode {
        bounds: [Coordinate(0, 3), Coordinate(9, 3)],
        value: 'a',
    });
    assert_eq!(row.split(), Err(QuadtreeError::DegenerateSplit));
    assert!(row.is_leaf());
    let mut column = Node::Leaf(LeafNode {
        bounds: [Coordinate(2, 0), Coordinate(2, 1)],
        value: 'b',
    });
    assert_eq!(column.split(), Err(QuadtreeError::DegenerateSplit));
    assert!(column.is_leaf());
}

#[test]
fn split_children_inherit_the_value_and_a_branch_is_left_alone() {
    let mut node = Node::Leaf(LeafNode {
        bounds: [Coordinate(-4, -4), Coordinate(-1, -1)],
        value: 7u8,
    });
    assert_eq!(node.split(), Ok(()));
    assert!(node.is_quad());
    assert_eq!(node.get_nodes().len(), 4);
    for child in node.get_nodes() {
        assert!(child.is_leaf());
        assert_eq!(child.get_value(), &7);
    }
    assert_eq!(
        node.get_nodes()[0].get_bounds(),
        &[Coordinate(-4, -4), Coordinate(-3, -3)]
    );
    assert_eq!(
        node.get_nodes()[3].get_bounds(),
        &[Coordinate(-2, -2), Coordinate(-1, -1)]
    );
    node.insert_value(9, Coordinate(-4, -4)).unwrap();
    assert_eq!(node.split(), Ok(()));
    assert_eq!(node.read_value(Coordinate(-4, -4)), Some(&9));
    assert_eq!(node.read_value(Coordinate(-1, -1)), Some(&7));
}

#[test]
fn consolidate_takes_the_first_value() {
    let mut node = Node::Leaf(LeafNode {
        bounds: [Coordinate(0, 0), Coordinate(1, 1)],
        value: 3u8,
    });
    node.consolidate();
    assert!(node.is_leaf());
    assert_eq!(node.split(), Ok(()));
    assert!(node.is_uniform());
    node.consolidate();
    assert!(node.is_leaf());
    assert_eq!(node.get_value(), &3);
    assert_eq!(node.get_bounds(), &[Coordinate(0, 0), Coordinate(1, 1)]);
}

#[test]
fn insert_adds_the_value() {
    let mut node = Node::Leaf(LeafNode {
        bounds: [Coordinate(1, 1), Coordinate(1, 1)],
        value: 0,
    });
    node.insert_value(1, Coordinate(1, 1)).unwrap();
    assert_eq!(node.read_value(Coordinate(1, 1)), Some(&1));
}

#[test]
fn insert_splits_if_it_needs_to() {
    let mut node = Node::Leaf(LeafNode {
        bounds: [Coordinate(1, 1), Coordinate(2, 2)],
        value: 0,
    });
    node.insert_value(1, Coordinate(1, 1)).unwrap();
    assert_eq!(node.read_value(Coordinate(1, 1)), Some(&1));
    assert_eq!(node.read_value(Coordinate(1, 2)), Some(&0));
    assert_eq!(node.read_value(Coordinate(2, 1)), Some(&0));
    assert_eq!(node.read_value(Coordinate(2, 2)), Some(&0));
}

#[test]
fn insert_consolidates_if_it_can() {
    let mut node = Node::Leaf(LeafNode {
        bounds: [Coordinate(1, 1), Coordinate(2, 2)],
        value: 0,
    });
    node.insert_value(1, Coordinate(1, 1)).unwrap();
    assert!(node.is_quad());
    node.insert_value(1, Coordinate(1, 2)).unwrap();
    node.insert_value(1, Coordinate(2, 1)).unwrap();
    node.insert_value(1, Coordinate(2, 2)).unwrap();
    assert!(node.is_leaf());
}

#[test]
fn insert_says_whether_the_node_ends_as_a_leaf() {
    let mut node = Node::Leaf(LeafNode {
        bounds: [Coordinate(0, 0), Coordinate(3, 3)],
        value: 0,
    });
    assert_eq!(node.insert_value(1, Coordinate(3, 3)), Ok(false));
    assert_eq!(node.insert_value(0, Coordinate(3, 3)), Ok(true));
    assert!(node.is_leaf());
    assert_eq!(node.insert_value(0, Coordinate(1, 2)), Ok(true));
    assert_eq!(node.insert_value_range(2, &[Coordinate(0, 0), Coordinate(1, 1)]), Ok(false));
    assert_eq!(node.insert_value_range(2, &[Coordinate(0, 0), Coordinate(3, 3)]), Ok(true));
}

#[test]
fn insert_range_adds_the_value() {
    let mut node = Node::Leaf(LeafNode {
        bounds: [Coordinate(1, 1), Coordinate(1, 1)],
        value: 0,
    });
    node.insert_value_range(1, &[Coordinate(1, 1), Coordinate(1, 1)]).unwrap();
    assert_eq!(node.read_value(Coordinate(1, 1)), Some(&1));
}

#[test]
fn insert_range_splits_if_it_needs_to() {
    let mut node = Node::Leaf(LeafNode {
        bounds: [Coordinate(1, 1), Coordinate(2, 2)],
        value: false,
    });
    node.insert_value_range(true, &[Coordinate(1, 1), Coordinate(1, 1)]).unwrap();
    assert_eq!(node.read_value(Coordinate(1, 1)), Some(&true));
    assert_eq!(node.read_value(Coordinate(1, 2)), Some(&false));
    assert_eq!(node.read_value(Coordinate(2, 1)), Some(&false));
    assert_eq!(node.read_value(Coordinate(2, 2)), Some(&false));
}

#[test]
fn insert_range_consolidates_if_it_can() {
    let mut node = Node::Leaf(LeafNode {
        bounds: [Coordinate(1, 1), Coordinate(2, 2)],
        value: false,
    });
    node.insert_value(true, Coordinate(1, 1)).unwrap();
    assert!(node.is_quad());
    node.insert_value_range(true, &[Coordinate(1, 1), Coordinate(2, 2)]).unwrap();
    assert!(node.is_leaf());
}

#[test]
fn insert_range_handles_rectangles() {
    let mut node = Node::Leaf(LeafNode {
        bounds: [Coordinate(1, 1), Coordinate(5, 5)],
        value: (0, 0, 0),
    });
    node.insert_value_range((255, 0, 255), &[Coordinate(1, 1), Coordinate(5, 2)]).unwrap();
    println!("{:?}", &node);
    for y in 1..=5 {
        for x in 1..=5 {
            let expected = if y <= 2 { (255, 0, 255) } else { (0, 0, 0) };
            assert_eq!(node.read_value(Coordinate(x, y)), Some(&expected));
        }
    }
}

#[test]
fn insert_range_merges_children_that_hold_another_value() {
    // Three quadrants are brought to 5 one by one; bringing the fourth to 5
    // through a range that is not the whole node merges the four.
    let mut node = Node::Leaf(LeafNode {
        bounds: [Coordinate(0, 0), Coordinate(3, 3)],
        value: 0,
    });
    node.insert_value_range(5, &[Coordinate(0, 0), Coordinate(1, 1)]).unwrap();
    node.insert_value_range(5, &[Coordinate(2, 0), Coordinate(3, 1)]).unwrap();
    node.insert_value_range(5, &[Coordinate(0, 2), Coordinate(1, 3)]).unwrap();
    assert!(node.is_quad());
    node.insert_value_range(5, &[Coordinate(2, 2), Coordinate(3, 3)]).unwrap();
    assert!(node.is_leaf());
    assert_eq!(node.get_value(), &5);
    // A range that touches nothing is passed over.
    assert_eq!(
        node.insert_value_range(8, &[Coordinate(7, 7), Coordinate(9, 9)]),
        Ok(true)
    );
    assert!(node.is_leaf());
    assert_eq!(node.get_value(), &5);
}

#[test]
fn insert_range_passes_over_a_range_outside_the_node() {
    let mut node = Node::Leaf(LeafNode {
        bounds: [Coordinate(0, 0), Coordinate(3, 3)],
        value: false,
    });
    let r = node.insert_value_range(true, &[Coordinate(10, 10), Coordinate(12, 12)]);
    assert_eq!(r, Ok(true));
    assert!(node.is_leaf());
    assert_eq!(node.get_value(), &false);
    assert_eq!(node.get_bounds(), &[Coordinate(0, 0), Coordinate(3, 3)]);
    // A branch that is not uniform stays the branch that it is.
    node.insert_value(true, Coordinate(3, 3)).unwrap();
    assert!(node.is_quad());
    let r = node.insert_value_range(true, &[Coordinate(4, 0), Coordinate(9, 3)]);
    assert_eq!(r, Ok(false));
    assert!(node.is_quad());
    assert_eq!(node.read_value(Coordinate(3, 3)), Some(&true));
    assert_eq!(node.read_value(Coordinate(2, 3)), Some(&false));
    assert_eq!(node.read_value(Coordinate(0, 0)), Some(&false));
    // A leaf that cannot be cut is passed over too.
    let mut cell = Node::Leaf(LeafNode {
        bounds: [Coordinate(5, 5), Coordinate(5, 5)],
        value: 'x',
    });
    assert_eq!(
        cell.insert_value_range('y', &[Coordinate(0, 0), Coordinate(4, 9)]),
        Ok(true)
    );
    assert_eq!(cell.get_value(), &'x');
}

#[test]
fn range_outside_merges_a_uniform_branch_made_by_hand() {
    let mut node = Node::Leaf(LeafNode {
        bounds: [Coordinate(0, 0), Coordinate(3, 3)],
        value: 5,
    });
    assert_eq!(node.split(), Ok(()));
    assert!(node.is_quad());
    assert_eq!(
        node.insert_value_range(8, &[Coordinate(7, 7), Coordinate(9, 9)]),
        Ok(true)
    );
    assert!(node.is_leaf());
    assert_eq!(node.get_value(), &5);
    assert_eq!(node.get_bounds(), &[Coordinate(0, 0), Coordinate(3, 3)]);
}

#[test]
fn consolidate_makes_no_test_of_the_other_children() {
    let mut node = Node::Leaf(LeafNode {
        bounds: [Coordinate(0, 0), Coordinate(3, 3)],
        value: 1,
    });
    node.insert_value(2, Coordinate(3, 0)).unwrap();
    node.insert_value(3, Coordinate(0, 3)).unwrap();
    node.insert_value_range(4, &[Coordinate(2, 2), Coordinate(3, 3)]).unwrap();
    assert!(node.is_quad());
    assert!(node.get_nodes()[0].is_leaf());
    assert!(node.get_nodes()[1].is_quad());
    node.consolidate();
    assert!(node.is_leaf());
    assert_eq!(node.get_value(), &1);
    assert_eq!(node.get_bounds(), &[Coordinate(0, 0), Coordinate(3, 3)]);
    assert_eq!(node.read_value(Coordinate(3, 0)), Some(&1));
    assert_eq!(node.read_value(Coordinate(3, 3)), Some(&1));
}

#[test]
fn range_insert_merges_children_that_were_equal_before() {
    // A branch of four equal leaves, made by cutting alone, is merged by a
    // write that gives one of them the value that it has.
    let mut node = Node::Leaf(LeafNode {
        bounds: [Coordinate(0, 0), Coordinate(3, 3)],
        value: 5,
    });
    assert_eq!(node.split(), Ok(()));
    assert!(node.is_quad());
    assert_eq!(
        node.insert_value_range(5, &[Coordinate(0, 0), Coordinate(1, 1)]),
        Ok(true)
    );
    assert!(node.is_leaf());
    assert_eq!(node.get_value(), &5);
}

#[test]
fn insert_merges_three_quadrants_set_by_hand_with_the_fourth() {
    for by_range in [false, true] {
        let mut node = Node::Leaf(LeafNode {
            bounds: [Coordinate(0, 0), Coordinate(1, 1)],
            value: 0,
        });
        assert_eq!(node.split(), Ok(()));
        for i in 0..3 {
            *node.get_nodes_mut()[i].get_value_mut() = 7;
        }
        assert!(!node.is_uniform());
        let done = if by_range {
            node.insert_value_range(7, &[Coordinate(1, 1), Coordinate(1, 1)])
        } else {
            node.insert_value(7, Coordinate(1, 1))
        };
        assert_eq!(done, Ok(true));
        assert!(node.is_leaf());
        assert_eq!(node.get_value(), &7);
        assert_eq!(node.get_bounds(), &[Coordinate(0, 0), Coordinate(1, 1)]);
    }
}

#[test]
fn node_refuses_what_it_cannot_be_cut_down_to() {
    let mut node = Node::Leaf(LeafNode {
        bounds: [Coordinate(0, 0), Coordinate(2, 0)],
        value: 1,
    });
    assert_eq!(node.insert_value(2, Coordinate(1, 0)), Err(QuadtreeError::DegenerateSplit));
    assert_eq!(node.insert_value(2, Coordinate(3, 0)), Err(QuadtreeError::OutOfBounds));
    assert_eq!(
        node.insert_value_range(2, &[Coordinate(0, 0), Coordinate(1, 0)]),
        Err(QuadtreeError::DegenerateSplit)
    );
    assert!(node.is_leaf());
    assert_eq!(node.get_value(), &1);
    assert_eq!(
        node.insert_value_range(2, &[Coordinate(-1, -1), Coordinate(2, 0)]),
        Ok(true)
    );
    assert_eq!(node.get_value(), &2);
}

#[test]
fn point_insert_merges_only_on_the_inserted_value() {
    let mut node = Node::Leaf(LeafNode {
        bounds: [Coordinate(0, 0), Coordinate(1, 1)],
        value: 3,
    });
    assert_eq!(node.insert_value(4, Coordinate(0, 0)), Ok(false));
    assert!(node.is_quad());
    assert!(!node.all_leaves_hold(&3));
    assert!(!node.is_uniform());
    assert_eq!(node.insert_value(3, Coordinate(0, 0)), Ok(true));
    assert!(node.is_leaf());
}

#[test]
fn read_value_outside_the_node() {
    let mut node = Node::Leaf(LeafNode {
        bounds: [Coordinate(0, 0), Coordinate(1, 1)],
        value: 3,
    });
    assert_eq!(node.read_value(Coordinate(8, 8)), Some(&3));
    node.insert_value(4, Coordinate(1, 1)).unwrap();
    assert_eq!(node.read_value(Coordinate(8, 8)), None);
    assert_eq!(node.child_holding(Coordinate(1, 1)), 3);
    assert_eq!(node.child_holding(Coordinate(0, 1)), 2);
}

#[test]
fn accessors_of_a_node() {
    let mut node = Node::Leaf(LeafNode {
        bounds: [Coordinate(0, 0), Coordinate(1, 1)],
        value: 3,
    });
    assert_eq!(node.as_leaf().value, 3);
    *node.get_value_mut() = 4;
    assert_eq!(node.get_value(), &4);
    assert_eq!(node.split(), Ok(()));
    assert_eq!(node.as_quad().nodes.len(), 4);
    assert_eq!(node.as_quad().bounds, [Coordinate(0, 0), Coordinate(1, 1)]);
    *node.get_nodes_mut()[2].get_value_mut() = 6;
    assert_eq!(node.read_value(Coordinate(0, 1)), Some(&6));
    assert_eq!(node.read_value(Coordinate(0, 0)), Some(&4));
}
