use std::collections::HashSet;

use brackens_engine::hierarchy::HierarchyBundle;
use brackens_engine::transform_updates::{
    ancestor_changed, climb_stops_from, dirty_tags, hierarchy_update_roots, highest_changed_ancestor,
    modified_update_roots, next_update_level, propagation_order, root_source, update_levels, TransformFlags,
};

fn sample() -> HierarchyBundle {
    // 1 -> [2, 3], 2 -> [4], 4 -> [5]
    let mut h = HierarchyBundle::new();
    h.attach(1, 2);
    h.attach(1, 3);
    h.attach(2, 4);
    h.attach(4, 5);
    h
}

fn set(ids: &[u64]) -> HashSet<u64> {
    ids.iter().copied().collect()
}

fn flags(changed: &[u64], inherits: &[u64]) -> TransformFlags {
    TransformFlags {
        has_transform: set(&[1, 2, 3, 4, 5]),
        has_global: set(&[1, 2, 3, 4, 5]),
        changed: set(changed),
        inherits: set(inherits),
    }
}

#[test]
fn has_both_transforms_needs_both() {
    let mut f = flags(&[], &[]);
    f.has_global.remove(&3);
    assert!(f.has_both_transforms(2));
    assert!(!f.has_both_transforms(3));
    assert!(!f.has_both_transforms(9));
}

#[test]
fn change_two_levels_up_reaches_through_inheriting_parent() {
    let h = sample();
    let f = flags(&[2], &[5, 4]);
    assert!(ancestor_changed(&h, &f, 5));
}

#[test]
fn change_does_not_reach_an_entity_that_does_not_inherit() {
    let h = sample();
    let f = flags(&[2], &[4]);
    assert!(!ancestor_changed(&h, &f, 5));
}

#[test]
fn change_stops_at_an_ancestor_that_does_not_inherit() {
    let h = sample();
    let f = flags(&[2], &[5]);
    // 4 is unchanged and does not inherit, so the walk stops there.
    assert!(!ancestor_changed(&h, &f, 5));
}

#[test]
fn change_stops_at_an_ancestor_without_a_global_transform() {
    let h = sample();
    let mut f = flags(&[2], &[5, 4]);
    f.has_global.remove(&4);
    assert!(!ancestor_changed(&h, &f, 5));
}

#[test]
fn root_has_no_changed_ancestor() {
    let h = sample();
    let f = flags(&[1, 2, 3, 4, 5], &[1, 2, 3, 4, 5]);
    assert!(!ancestor_changed(&h, &f, 1));
}

#[test]
fn highest_changed_ancestor_goes_past_changed_ones() {
    let h = sample();
    // 4 and 1 changed; 5, 4 and 2 inherit, 1 does not.
    let f = flags(&[4, 1], &[5, 4, 2]);
    assert_eq!(highest_changed_ancestor(&h, &f, 5), 1);
}

#[test]
fn highest_changed_ancestor_stops_after_non_inheriting() {
    let h = sample();
    // 2 does not inherit: the walk looks at 2 and stops there.
    let f = flags(&[4, 1], &[5, 4]);
    assert_eq!(highest_changed_ancestor(&h, &f, 5), 4);
}

#[test]
fn highest_changed_ancestor_is_the_entity_itself_without_change_above() {
    let h = sample();
    let f = flags(&[5], &[5, 4, 2]);
    assert_eq!(highest_changed_ancestor(&h, &f, 5), 5);
    let g = flags(&[4], &[4]);
    assert_eq!(highest_changed_ancestor(&h, &g, 5), 5);
}

#[test]
fn update_roots_keep_only_the_highest_changes() {
    let h = sample();
    let f = flags(&[1, 2, 3, 5], &[2, 4, 5]);
    let roots = hierarchy_update_roots(&h, &f, &vec![1, 2, 5, 3]);
    assert_eq!(roots, vec![1, 3]);
}

#[test]
fn update_roots_skip_entities_outside_the_hierarchy_and_duplicates() {
    let h = sample();
    let f = flags(&[1, 9], &[]);
    let roots = hierarchy_update_roots(&h, &f, &vec![9, 1, 1]);
    assert_eq!(roots, vec![1]);
}

#[test]
fn modified_roots_collect_highest_changed_ancestors() {
    let h = sample();
    let f = flags(&[1, 2, 3, 5], &[2, 4, 5]);
    let roots = modified_update_roots(&h, &f, &vec![1, 2, 5, 3]);
    assert_eq!(roots, vec![1, 3]);
}

#[test]
fn modified_roots_of_a_lone_child() {
    let h = sample();
    let f = flags(&[5], &[5, 4, 2]);
    let roots = modified_update_roots(&h, &f, &vec![5]);
    assert_eq!(roots, vec![5]);
}

#[test]
fn propagation_flows_through_inheriting_children() {
    let h = sample();
    let f = flags(&[], &[2, 4, 5]);
    assert_eq!(propagation_order(&h, &f, 1), vec![2, 4, 5]);
}

#[test]
fn propagation_stops_at_a_child_without_transform() {
    let h = sample();
    let mut f = flags(&[], &[2, 4, 5]);
    f.has_transform.remove(&4);
    assert_eq!(propagation_order(&h, &f, 1), vec![2]);
}

#[test]
fn root_source_is_the_parent_of_an_inheriting_child() {
    let h = sample();
    let f = flags(&[], &[2]);
    assert_eq!(root_source(&h, &f, 2), Some(1));
    assert_eq!(root_source(&h, &f, 1), None);
    assert_eq!(root_source(&h, &f, 3), None);
    let mut g = flags(&[], &[2]);
    g.has_global.remove(&1);
    assert_eq!(root_source(&h, &g, 2), None);
}

#[test]
fn every_changed_entity_is_covered_by_some_update() {
    let h = sample();
    let f = flags(&[2, 3, 5], &[2, 4, 5]);
    let candidates = vec![2, 3, 5];
    let roots = hierarchy_update_roots(&h, &f, &candidates);
    let mut covered: HashSet<u64> = roots.iter().copied().collect();
    for r in &roots {
        for d in propagation_order(&h, &f, *r) {
            covered.insert(d);
        }
    }
    for c in candidates {
        assert!(covered.contains(&c), "entity {} not updated", c);
    }
}

#[test]
fn moving_the_parent_updates_every_inheriting_child() {
    // parent 1 with children 2, 3, 4; 4 has child 5; all children inherit.
    let mut h = HierarchyBundle::new();
    h.attach(1, 2);
    h.attach(1, 3);
    h.attach(1, 4);
    h.attach(4, 5);
    let f = flags(&[1, 5], &[2, 3, 4, 5]);
    let roots = hierarchy_update_roots(&h, &f, &vec![1, 5]);
    assert_eq!(roots, vec![1]);
    assert_eq!(propagation_order(&h, &f, 1), vec![2, 3, 4, 5]);
    assert_eq!(root_source(&h, &f, 1), None);
}

#[test]
fn next_level_takes_children_of_entities_with_both_transforms() {
    let h = sample();
    let mut f = flags(&[], &[]);
    assert_eq!(next_update_level(&h, &f, &vec![1]), vec![2, 3]);
    assert_eq!(next_update_level(&h, &f, &vec![2, 3, 2]), vec![4]);
    assert_eq!(next_update_level(&h, &f, &vec![5]), Vec::<u64>::new());
    f.has_global.remove(&2);
    assert_eq!(next_update_level(&h, &f, &vec![2, 4]), vec![5]);
}

#[test]
fn climb_stops_on_chains_that_end_or_break_off() {
    let h = sample();
    let f = flags(&[], &[5, 4, 2]);
    assert!(climb_stops_from(&h, &f, 5));
    assert!(climb_stops_from(&h, &f, 3));
}

#[test]
fn climb_stops_below_a_cycle_only_where_it_breaks_off() {
    let mut h = HierarchyBundle::new();
    h.attach(1, 2);
    h.attach(2, 3);
    h.attach(3, 1);
    h.attach(3, 4);
    let all = flags(&[], &[1, 2, 3, 4]);
    assert!(!climb_stops_from(&h, &all, 4));
    assert!(!climb_stops_from(&h, &all, 1));
    // 2 does not inherit, so the walk up from 4 stops there.
    let some = flags(&[], &[1, 3, 4]);
    assert!(climb_stops_from(&h, &some, 4));
    assert!(!ancestor_changed(&h, &some, 4));
    assert_eq!(highest_changed_ancestor(&h, &some, 4), 4);
}

#[test]
fn update_levels_walk_down_one_level_at_a_time() {
    let h = sample();
    let f = flags(&[1], &[]);
    assert_eq!(update_levels(&h, &f, vec![1]), Some(vec![vec![1], vec![2, 3], vec![4], vec![5]]));
    assert_eq!(update_levels(&h, &f, vec![4]), Some(vec![vec![4], vec![5]]));
    assert_eq!(update_levels(&h, &f, vec![]), Some(vec![]));
}

#[test]
fn update_levels_stop_below_an_entity_without_both_transforms() {
    let h = sample();
    let mut f = flags(&[1], &[]);
    f.has_global.remove(&4);
    assert_eq!(update_levels(&h, &f, vec![1]), Some(vec![vec![1], vec![2, 3], vec![4]]));
}

#[test]
fn update_levels_give_up_on_a_cycle() {
    let mut h = HierarchyBundle::new();
    h.attach(1, 2);
    h.attach(2, 3);
    h.attach(3, 1);
    let f = flags(&[1], &[]);
    assert_eq!(update_levels(&h, &f, vec![1]), None);
}

#[test]
fn dirty_tags_give_depth_and_parent() {
    let h = sample();
    assert_eq!(
        dirty_tags(&h, 1),
        vec![(1, 0, None), (2, 1, Some(1)), (4, 2, Some(2)), (5, 3, Some(4)), (3, 1, Some(1))]
    );
    assert_eq!(dirty_tags(&h, 2), vec![(2, 0, Some(1)), (4, 1, Some(2)), (5, 2, Some(4))]);
    assert_eq!(dirty_tags(&h, 9), vec![(9, 0, None)]);
}
