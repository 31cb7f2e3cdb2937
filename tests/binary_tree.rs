use rs_algorithm_practise::data_structure::binary_tree::BinaryTree;

#[test]
fn test_fmt() {
    let mut bt = BinaryTree::new();
    bt.add_sort(10);
    bt.add_sort(8);
    bt.add_sort(12);
    bt.add_sort(7);
    bt.add_sort(9);
    bt.add_sort(11);

    println!("{:?}", bt.to_vec())
}

#[test]
fn test_max_depth() {
    let mut binary_tree = BinaryTree::new();

    binary_tree.add_sort(10); // tree: 10
    assert_eq!(binary_tree.depth(), 1);

    binary_tree.add_sort(12); // tree: 10 [None,12]
    assert_eq!(binary_tree.depth(), 2);

    binary_tree.add_sort(11); // tree: 11 [10,12]
    assert_eq!(binary_tree.depth(), 2);

    binary_tree.add_sort(13); // tree: 11 [10,12] [[None,None][None,13]]
    assert_eq!(binary_tree.depth(), 3);

    binary_tree.add_sort(9); // tree: 11 [10,12] [[9,None][None,13]]
    assert_eq!(binary_tree.depth(), 3);
}

#[test]
fn test_to_vec() {
    let mut binary_tree = BinaryTree::new();

    binary_tree.add_sort(10); // tree: 10
    assert_eq!(vec![Some(10)], binary_tree.to_vec());

    binary_tree.add_sort(12); // tree: 10 [None,12]
    assert_eq!(vec![Some(10), None, Some(12)], binary_tree.to_vec());

    binary_tree.add_sort(11); // 11 [10,12]
    assert_eq!(vec![Some(11), Some(10), Some(12)], binary_tree.to_vec());

    binary_tree.add_sort(13);
    assert_eq!(
        vec![Some(11), Some(10), Some(12), None, None, None, Some(13)],
        binary_tree.to_vec()
    );

    binary_tree.add_sort(9);
    assert_eq!(
        vec![Some(11), Some(9), Some(12), None, Some(10), None, Some(13)],
        binary_tree.to_vec()
    );
}

#[test]
fn test_rotate() {
    let mut binary_tree = BinaryTree::new();
    binary_tree.add_sort(1);
    binary_tree.add_sort(2);
    binary_tree.add_sort(3);
    println!("{:?}", binary_tree.to_vec());

    binary_tree.rotate_left();
    println!("{:?}", binary_tree.to_vec());
}

#[test]
fn test_add_sort() {
    let mut bt = BinaryTree::new();
    for i in 0..20 {
        bt.add_sort(i);
        println!("{:?}", bt.to_vec());
    }
}

#[test]
fn traversals_of_small_tree() {
    let mut tree = BinaryTree::new();
    tree.add_sort(10);
    tree.add_sort(5);
    tree.add_sort(15);

    let mut pre = Vec::new();
    tree.preorder_traversal(&mut pre);
    assert_eq!(pre, vec![10, 5, 15]);
    let mut ino = Vec::new();
    tree.inorder_traversal(&mut ino);
    assert_eq!(ino, vec![5, 10, 15]);
    let mut post = Vec::new();
    tree.postorder_traversal(&mut post);
    assert_eq!(post, vec![5, 15, 10]);
    assert_eq!(tree.breadth_first_traversal(), vec![10, 5, 15]);
    assert_eq!(tree.to_vec(), vec![Some(10), Some(5), Some(15)]);
}

#[test]
fn inorder_stays_sorted() {
    let mut bt = BinaryTree::new();
    let input = [7, 3, 9, 3, -1, 12, 0, 5, 5, 8];
    for x in input {
        bt.add_sort(x);
    }
    let mut ino = Vec::new();
    bt.inorder_traversal(&mut ino);
    let mut expected = input.to_vec();
    expected.sort();
    assert_eq!(ino, expected);
    assert_eq!(bt.breadth_first_traversal().len(), input.len());
}

#[test]
fn empty_tree() {
    let bt: BinaryTree<i32> = BinaryTree::default();
    assert!(bt.is_empty());
    assert_eq!(bt.depth(), 0);
    assert_eq!(bt.height(), 0);
    assert!(bt.to_vec().is_empty());
    assert!(bt.breadth_first_traversal().is_empty());
}

#[test]
fn rotations_keep_inorder() {
    let mut bt = BinaryTree::new();
    for x in [4, 2, 6, 1, 3, 5, 7] {
        bt.add_sort(x);
    }
    let mut before = Vec::new();
    bt.inorder_traversal(&mut before);
    bt.rotate_left();
    let mut after = Vec::new();
    bt.inorder_traversal(&mut after);
    assert_eq!(before, after);
    bt.rotate_right();
    bt.rotate_right();
    let mut again = Vec::new();
    bt.inorder_traversal(&mut again);
    assert_eq!(before, again);
}

#[test]
fn height_after_inserts() {
    let mut bt = BinaryTree::new();
    bt.add_sort(1);
    assert_eq!(bt.height(), 1);
    bt.add_sort(2);
    assert_eq!(bt.height(), 2);
}
