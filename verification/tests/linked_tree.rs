use rustgo::util::{LinkedTree, LinkedTreeOperation};

#[test]
fn tree_build() {
    let mut t = LinkedTree::new_tree(String::from("1"));
    let n1 = t.root();
    let n2 = t.add_child(n1, String::from("2"));
    let n3 = t.add_child(n1, String::from("3"));
    let n4 = t.add_child(n2, String::from("4"));
    assert!(t.size(n1) == 4);
    assert!(t.size(n2) == 2);
    assert!(t.size(n3) == 1);
    assert!(t.size(n4) == 1);
    assert!(t.deepth(n1) == 0);
    assert!(t.deepth(n2) == 1);
    assert!(t.deepth(n3) == 1);
    assert!(t.deepth(n4) == 2);
    assert!(t.val(n1).eq("1"));
    assert!(t.val(n2).eq("2"));
    assert!(t.val(n3).eq("3"));
    assert!(t.val(n4).eq("4"));
    assert!(t.child_len(n1) == 2);
    assert!(t.child_len(n2) == 1);
    assert!(t.child_len(n3) == 0);
    assert!(t.child_len(n4) == 0);
    assert!(t.val(t.child(n1, 0).unwrap()).eq("2"));
    assert!(t.val(t.child(n1, 1).unwrap()).eq("3"));
    assert!(t.val(t.child(n2, 0).unwrap()).eq("4"));
    assert!(t.child(n1, 2).is_none());
    assert!(t.child(n3, 0).is_none());
    assert!(t.parent(n1).is_none());
    assert!(t.val(t.parent(n2).unwrap()).eq("1"));
    assert!(t.val(t.parent(n3).unwrap()).eq("1"));
    assert!(t.val(t.parent(n4).unwrap()).eq("2"));
    assert!(t.val(t.parent(t.parent(n4).unwrap()).unwrap()).eq("1"));
    let list = t.list_parents(n4);
    assert!(list.len() == 3);
    assert!(list[0].eq("1"));
    assert!(list[1].eq("2"));
    assert!(list[2].eq("4"));
}

#[test]
fn a_new_tree_is_one_root() {
    let t = LinkedTree::new_tree(7u32);
    assert_eq!(t.root(), 0);
    assert_eq!(t.len(), 1);
    assert_eq!(t.size(0), 1);
    assert_eq!(t.deepth(0), 0);
    assert_eq!(*t.val(0), 7);
    assert_eq!(t.parent(0), None);
    assert_eq!(t.child_len(0), 0);
    assert_eq!(t.child(0, 0), None);
    assert_eq!(t.list_parents(0), vec![&7]);
}

#[test]
fn sizes_grow_along_the_line_to_the_root_only() {
    // 0 - 1 - 2 - 3 and 0 - 4, 1 - 5
    let mut t = LinkedTree::new_tree(0u8);
    assert_eq!(t.add_child(0, 1), 1);
    assert_eq!(t.add_child(1, 2), 2);
    assert_eq!(t.add_child(2, 3), 3);
    let sizes = |t: &LinkedTree<u8>| (0..t.len()).map(|n| t.size(n)).collect::<Vec<usize>>();
    assert_eq!(sizes(&t), vec![4, 3, 2, 1]);
    assert_eq!(t.add_child(0, 4), 4);
    assert_eq!(sizes(&t), vec![5, 3, 2, 1, 1]);
    assert_eq!(t.add_child(1, 5), 5);
    assert_eq!(sizes(&t), vec![6, 4, 2, 1, 1, 1]);
    // every size is one more than the sizes of the children
    for n in 0..t.len() {
        let below: usize = (0..t.child_len(n)).map(|i| t.size(t.child(n, i).unwrap())).sum();
        assert_eq!(t.size(n), 1 + below);
    }
    // depth is fixed when the node is made
    let depths: Vec<usize> = (0..t.len()).map(|n| t.deepth(n)).collect();
    assert_eq!(depths, vec![0, 1, 2, 3, 1, 2]);
    // children come in the order in which they were added
    assert_eq!(t.child(0, 0), Some(1));
    assert_eq!(t.child(0, 1), Some(4));
    assert_eq!(t.child(0, 2), None);
    assert_eq!(t.child(1, 0), Some(2));
    assert_eq!(t.child(1, 1), Some(5));
    assert_eq!(t.parent(5), Some(1));
    assert_eq!(t.parent(4), Some(0));
    assert_eq!(t.list_parents(3), vec![&0, &1, &2, &3]);
    assert_eq!(t.list_parents(5), vec![&0, &1, &5]);
    assert_eq!(t.list_parents(4), vec![&0, &4]);
}
