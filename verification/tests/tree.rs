use euchre::tree::Tree;

#[test]
fn test_preorder() {
    // d -- f -- b -- c
    //        `- g -- a
    //             `- e
    let mut builder = Tree::builder();
    let ids: Vec<_> = "abcdefg".chars().map(|c| builder.insert(c)).collect();
    for (c, p) in [(0, 6), (1, 5), (2, 1), (4, 6), (5, 3), (6, 5)] {
        builder.set_parent(ids[c], ids[p]);
    }
    let tree = builder.build();
    let mut walk = tree.preorder();
    let mut nodes = vec![];
    while let Some(n) = walk.next() {
        nodes.push((*n.data, n.sibling, n.last_sibling, n.leaf));
    }
    assert_eq!(
        nodes,
        vec![
            ('d', false, false, false),
            ('f', false, false, false),
            ('b', true, false, false),
            ('c', false, false, true),
            ('g', true, true, false),
            ('a', true, false, true),
            ('e', true, true, true),
        ]
    );
}

#[test]
fn an_empty_tree_has_nothing_to_visit() {
    let tree = Tree::<char>::builder().build();
    assert!(tree.preorder().next().is_none());
    assert!(tree.get(0).is_none());
}

#[test]
fn several_roots_are_visited_in_the_order_of_their_ids() {
    let mut builder = Tree::builder();
    let a = builder.insert("a");
    let b = builder.insert("b");
    let c = builder.insert("c");
    builder.set_parent(a, c);
    let tree = builder.build();
    let mut walk = tree.preorder();
    let mut seen = vec![];
    while let Some(n) = walk.next() {
        seen.push((*n.data, n.sibling, n.last_sibling, n.leaf));
    }
    assert_eq!(
        seen,
        vec![("b", false, false, true), ("c", false, false, false), ("a", false, false, true)]
    );
    assert_eq!(tree.get(b).map(|n| n.parent), Some(None));
    assert_eq!(tree.get(a).map(|n| n.parent), Some(Some(c)));
    assert_eq!(tree.get_children(c), Some(&vec![a]));
    assert_eq!(tree.get_children(a), None);
}

#[test]
fn nodes_that_hang_on_each_other_are_never_visited() {
    let mut builder = Tree::builder();
    let a = builder.insert(1);
    let b = builder.insert(2);
    let c = builder.insert(3);
    builder.set_parent(a, b);
    builder.set_parent(b, a);
    let tree = builder.build();
    let mut walk = tree.preorder();
    assert_eq!(walk.next().map(|n| *n.data), Some(3));
    assert!(walk.next().is_none());
    assert_eq!(tree.get(c).map(|n| n.id), Some(c));
}
