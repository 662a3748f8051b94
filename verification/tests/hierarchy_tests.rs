use brackens_engine::hierarchy::HierarchyBundle;

fn sample() -> HierarchyBundle {
    // 1 -> [2, 3], 2 -> [4], 4 -> [5]
    let mut h = HierarchyBundle::new();
    h.attach(1, 2);
    h.attach(1, 3);
    h.attach(2, 4);
    h.attach(4, 5);
    h
}

#[test]
fn new_hierarchy_is_empty() {
    let h = HierarchyBundle::new();
    assert!(!h.is_parent(1));
    assert!(!h.is_child(1));
    assert!(!h.is_root(1));
    assert_eq!(h.parent(1), None);
    assert_eq!(h.children(1), Vec::<u64>::new());
    assert_eq!(h.child_entity_count(), 0);
}

#[test]
fn attach_then_read_parent_and_children() {
    let mut h = HierarchyBundle::new();
    h.attach(10, 20);
    assert_eq!(h.parent(20), Some(10));
    assert_eq!(h.children(10), vec![20]);
    h.attach(10, 30);
    h.attach(10, 40);
    // A newly attached child comes last among its siblings.
    assert_eq!(h.children(10), vec![20, 30, 40]);
    assert!(h.is_parent(10));
    assert!(h.is_root(10));
    assert!(!h.is_root(20));
    assert!(h.is_child(30));
    assert_eq!(h.child_entity_count(), 3);
}

#[test]
fn attach_moves_a_child_to_its_new_parent() {
    let mut h = HierarchyBundle::new();
    h.attach(1, 3);
    h.attach(2, 3);
    assert_eq!(h.parent(3), Some(2));
    // The old parent lost its only child and is no parent or root any more.
    assert!(!h.is_parent(1));
    assert!(!h.is_root(1));
    assert_eq!(h.children(2), vec![3]);
    assert!(h.is_root(2));
}

#[test]
fn attaching_a_parent_below_another_makes_it_no_root() {
    let mut h = HierarchyBundle::new();
    h.attach(2, 3);
    assert!(h.is_root(2));
    h.attach(1, 2);
    assert!(!h.is_root(2));
    assert!(h.is_root(1));
}

#[test]
fn detach_middle_child_keeps_sibling_order() {
    let mut h = HierarchyBundle::new();
    h.attach(1, 2);
    h.attach(1, 3);
    h.attach(1, 4);
    h.detach(3);
    assert_eq!(h.children(1), vec![2, 4]);
    assert_eq!(h.parent(3), None);
    h.detach(2);
    assert_eq!(h.children(1), vec![4]);
    h.detach(4);
    assert_eq!(h.children(1), Vec::<u64>::new());
    assert!(!h.is_parent(1));
    assert!(!h.is_root(1));
}

#[test]
fn detach_of_no_child_changes_nothing() {
    let mut h = sample();
    h.detach(99);
    assert_eq!(h.children(1), vec![2, 3]);
    assert_eq!(h.child_entity_count(), 4);
}

#[test]
fn detach_makes_a_parent_a_root() {
    let mut h = sample();
    assert!(!h.is_root(2));
    h.detach(2);
    assert!(h.is_root(2));
    assert_eq!(h.children(1), vec![3]);
}

#[test]
fn attach_then_detach_gives_back_the_hierarchy() {
    let mut h = sample();
    h.attach(3, 7);
    h.detach(7);
    assert_eq!(h.children(3), Vec::<u64>::new());
    assert!(!h.is_parent(3));
    assert_eq!(h.children(1), vec![2, 3]);
    assert_eq!(h.parent(7), None);
    assert!(h.is_root(1));
    assert!(!h.is_root(3));
    assert_eq!(h.child_entity_count(), 4);
}

#[test]
fn remove_detaches_entity_and_its_children() {
    let mut h = sample();
    h.remove(2);
    assert_eq!(h.children(1), vec![3]);
    assert_eq!(h.parent(2), None);
    assert!(!h.is_parent(2));
    // The child of the removed entity is no child any more, and being a
    // parent itself it becomes a root.
    assert_eq!(h.parent(4), None);
    assert!(h.is_root(4));
    assert_eq!(h.children(4), vec![5]);
}

#[test]
fn remove_all_clears_the_subtree() {
    let mut h = sample();
    h.remove_all(2);
    assert_eq!(h.children(1), vec![3]);
    for id in [2u64, 4, 5] {
        assert_eq!(h.parent(id), None);
        assert!(!h.is_parent(id));
        assert!(!h.is_root(id));
    }
    assert!(h.is_root(1));
    assert_eq!(h.child_entity_count(), 1);
}

#[test]
fn remove_all_of_a_root_empties_the_hierarchy() {
    let mut h = sample();
    h.remove_all(1);
    assert_eq!(h.child_entity_count(), 0);
    assert!(!h.is_root(1));
    assert!(!h.is_parent(1));
}

#[test]
fn descendants_in_depth_first_order() {
    let h = sample();
    assert_eq!(h.descendants(1), vec![2, 4, 5, 3]);
    assert_eq!(h.descendants(2), vec![4, 5]);
    assert_eq!(h.descendants(5), Vec::<u64>::new());
}

#[test]
fn ancestors_up_to_the_root() {
    let h = sample();
    assert_eq!(h.ancestors(5), vec![4, 2, 1]);
    assert_eq!(h.ancestors(3), vec![1]);
    assert_eq!(h.ancestors(1), Vec::<u64>::new());
}

#[test]
fn child_record_names_parent() {
    let h = sample();
    assert_eq!(h.parent(4), Some(2));
    assert_eq!(h.parent(5), Some(4));
}

#[test]
fn chain_checks_on_a_tree() {
    let h = sample();
    assert!(h.chain_ends_from(5));
    assert!(h.chain_ends_from(1));
    assert!(h.chain_ends_from(42));
    assert!(!h.lies_below_itself(5));
    assert!(!h.lies_below_itself(1));
}

#[test]
fn chain_checks_on_a_cycle() {
    let mut h = HierarchyBundle::new();
    h.attach(1, 2);
    h.attach(2, 3);
    h.attach(3, 1);
    h.attach(3, 4);
    assert!(h.lies_below_itself(1));
    assert!(h.lies_below_itself(2));
    assert!(!h.chain_ends_from(1));
    // 4 hangs below the cycle: its chain never ends, yet it is not below
    // itself.
    assert!(!h.chain_ends_from(4));
    assert!(!h.lies_below_itself(4));
    assert_eq!(h.descendants(4), Vec::<u64>::new());
}

#[test]
fn removals_leave_no_cycle() {
    let mut h = sample();
    h.attach(3, 6);
    h.remove(2);
    for id in [1u64, 2, 3, 4, 5, 6] {
        assert!(!h.lies_below_itself(id));
        assert!(h.chain_ends_from(id));
    }
    h.remove_all(1);
    for id in [1u64, 3, 4, 5, 6] {
        assert!(!h.lies_below_itself(id));
    }
    assert_eq!(h.children(4), vec![5]);
}

#[test]
fn spinning_children_example_hierarchy() {
    let (parent, child, child2, child3, child4) = (1u64, 2u64, 3u64, 4u64, 5u64);
    let mut h = HierarchyBundle::new();
    h.attach(parent, child);
    h.attach(parent, child2);
    h.attach(parent, child3);
    h.attach(child3, child4);
    assert_eq!(h.children(parent), vec![child, child2, child3]);
    assert_eq!(h.descendants(parent), vec![child, child2, child3, child4]);
    assert_eq!(h.ancestors(child4), vec![child3, parent]);
    assert!(h.is_root(parent));
    assert!(!h.is_root(child3));
}
