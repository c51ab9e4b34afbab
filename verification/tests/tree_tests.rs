use std::collections::VecDeque;

use board_game_engine::{new_tree_depth_iter, new_tree_iter, Node, NodeDepth, Tree, TreeDepthIterator};

#[test]
fn test_node_new() {
    let int_node_root: Node<i32> = Node::new(7);
    assert!(int_node_root.parent.is_none());
    assert!(int_node_root.children.is_empty());
    assert_eq!(int_node_root.data, 7);
}

#[test]
fn test_node_new_wrapped() {
    let mut tree: Tree<i32> = Tree::new();
    let root = Node::new_wrapped(&mut tree, 7);
    assert_eq!(tree.data[root], 7);
}

#[test]
fn test_add_child_to_parent() {
    let mut tree: Tree<i32> = Tree::new();
    let root = Node::new_wrapped(&mut tree, 7);
    let child1 = Node::new_wrapped(&mut tree, 15);
    let child2 = Node::new_wrapped(&mut tree, 16);

    // Add children separately
    Node::add_child_to_parent(&mut tree, child1, root);
    Node::add_child_to_parent(&mut tree, child2, root);
}

#[test]
fn test_get_parent_and_children() {
    let mut tree: Tree<i32> = Tree::new();
    let root = Node::new_wrapped(&mut tree, 7);
    let child1 = Node::new_wrapped(&mut tree, 15);
    let child2 = Node::new_wrapped(&mut tree, 16);
    let child3 = Node::new_wrapped(&mut tree, 17);

    let children = [child1, child2, child3];
    for &child in children.iter() {
        assert!(Node::parent(&tree, child).is_none());
    }

    for &child in children.iter() {
        // Add children
        Node::add_child_to_parent(&mut tree, child, root);
    }

    assert_eq!(Node::children(&tree, root).len(), 3);

    for &child in children.iter() {
        assert!(Node::parent(&tree, child).is_some());
    }
}

#[test]
fn test_tree_iterator_iter() {
    let mut tree: Tree<i32> = Tree::new();
    let root = Node::new_wrapped(&mut tree, 7);
    let child1 = Node::new_wrapped(&mut tree, 15);
    let child2 = Node::new_wrapped(&mut tree, 16);
    let child3 = Node::new_wrapped(&mut tree, 17);

    let children = [child1, child2, child3];
    for &child in children.iter() {
        // Add children
        Node::add_child_to_parent(&mut tree, child, root);
    }

    let expected_full_iterator_output = vec![7, 15, 16, 17];

    let mut tree_iter = new_tree_iter(&tree, root);
    let mut visited_data = Vec::new();
    while let Some(id) = tree_iter.next() {
        visited_data.push(tree.data[id]);
    }

    assert_eq!(visited_data, expected_full_iterator_output);
}

#[test]
fn test_tree_depth_iterator_iter() {
    let mut tree: Tree<i32> = Tree::new();
    let root = Node::new_wrapped(&mut tree, 0);
    let child1 = Node::new_wrapped(&mut tree, 1);
    let child2 = Node::new_wrapped(&mut tree, 1);
    let child3 = Node::new_wrapped(&mut tree, 1);

    let children = [child1, child2, child3];
    for &child in children.iter() {
        // Add children
        Node::add_child_to_parent(&mut tree, child, root);
    }

    let child1child1 = Node::new_wrapped(&mut tree, 2);
    Node::add_child_to_parent(&mut tree, child1child1, child1);
    let child1child1child1 = Node::new_wrapped(&mut tree, 3);
    Node::add_child_to_parent(&mut tree, child1child1child1, child1child1);

    let mut depth_iter = new_tree_depth_iter(&tree, root, 2);
    let mut iterator_output: Vec<NodeDepth> = Vec::new();
    while let Some(node_info) = depth_iter.next() {
        iterator_output.push(node_info);
    }
    assert_eq!(iterator_output.len(), 5);

    for node_info in iterator_output {
        assert_eq!(tree.data[node_info.node], node_info.depth);
    }
}

#[test]
fn test_tree_depth_iterator_append_respects_limit() {
    let mut tree: Tree<i32> = Tree::new();
    let root = Node::new_wrapped(&mut tree, 0);
    let extra = Node::new_wrapped(&mut tree, 9);

    let mut depth_iter = new_tree_depth_iter(&tree, root, 1);
    // Within the limit the entry is queued and comes out again.
    depth_iter.append(NodeDepth { node: extra, depth: 1 });
    // Beyond the limit the entry is dropped.
    depth_iter.append(NodeDepth { node: extra, depth: 2 });

    assert_eq!(depth_iter.next(), Some(NodeDepth { node: root, depth: 0 }));
    assert_eq!(depth_iter.next(), Some(NodeDepth { node: extra, depth: 1 }));
    assert_eq!(depth_iter.next(), None);
}

#[test]
fn test_tree_depth_iterator_from_vecdeque() {
    let mut tree: Tree<i32> = Tree::new();
    let a = Node::new_wrapped(&mut tree, 10);
    let b = Node::new_wrapped(&mut tree, 20);

    let mut queue: VecDeque<NodeDepth> = VecDeque::new();
    queue.push_back(NodeDepth { node: a, depth: 0 });
    queue.push_back(NodeDepth { node: b, depth: 1 });

    let mut it = TreeDepthIterator::from_vecdeque(&tree, queue, 1);
    assert_eq!(it.next(), Some(NodeDepth { node: a, depth: 0 }));
    assert_eq!(it.next(), Some(NodeDepth { node: b, depth: 1 }));
    assert_eq!(it.next(), None);
}
