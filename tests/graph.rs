use strawberry_gen::{
    drag_step, nearest_candidate, orbit_enabled, select_seed, ConstraintError, ConstraintSystem,
    Relation, RelationError, RelationKind, StemError, StemHierarchy,
};

#[test]
fn select_seed_keeps_first_of_tied_maxima() {
    assert_eq!(select_seed(&vec![-2, 5, 5, 1]), Some(1));
}

#[test]
fn select_seed_of_no_keys_is_none() {
    assert_eq!(select_seed(&vec![]), None);
}

#[test]
fn select_seed_compares_signed_keys() {
    assert_eq!(select_seed(&vec![-7, -3, -9]), Some(1));
    assert_eq!(select_seed(&vec![4, 4, 4]), Some(0));
}

#[test]
fn nearest_candidate_keeps_first_of_tied_minima() {
    assert_eq!(nearest_candidate(&vec![None, Some(5), Some(3), Some(3)]), Some(2));
    assert_eq!(nearest_candidate(&vec![None, None]), None);
    assert_eq!(nearest_candidate(&vec![]), None);
}

#[test]
fn exclusive_relation_replaces_target() {
    let mut r = Relation::new(RelationKind::AxisUp);
    for _ in 0..3 {
        r.add_entity();
    }
    assert_eq!(r.set(2, 0), Ok(()));
    assert_eq!(r.target_of(2), Some(0));
    assert_eq!(r.set(2, 1), Ok(()));
    assert_eq!(r.target_of(2), Some(1));
    assert!(r.hosts_of(0).is_empty());
    assert_eq!(r.hosts_of(1), &vec![2]);
    assert_eq!(r.roots(), vec![0, 1]);
}

#[test]
fn relation_refuses_missing_entity() {
    let mut r = Relation::new(RelationKind::ConstraintToConstraint);
    r.add_entity();
    assert_eq!(r.set(0, 1), Err(RelationError::MissingEntity));
    assert_eq!(r.set(3, 0), Err(RelationError::MissingEntity));
    assert!(r.targets_of(0).is_empty());
}

#[test]
fn symmetric_relation_links_both_ways() {
    let mut r = Relation::new(RelationKind::ConstraintToConstraint);
    r.add_entity();
    r.add_entity();
    assert_eq!(r.set(1, 0), Ok(()));
    assert_eq!(r.targets_of(0), &vec![1]);
    assert_eq!(r.targets_of(1), &vec![0]);
    assert_eq!(r.set(1, 0), Ok(()));
    assert_eq!(r.targets_of(1), &vec![0]);
}

#[test]
fn traverse_visits_each_entity_of_a_cycle_once() {
    let mut r = Relation::new(RelationKind::ConstraintToConstraint);
    for _ in 0..4 {
        r.add_entity();
    }
    r.set(0, 1).unwrap();
    r.set(1, 2).unwrap();
    r.set(2, 0).unwrap();
    let order = r.traverse(&vec![1]);
    assert_eq!(order.len(), 3);
    assert_eq!(order[0], 1);
    let mut sorted = order.clone();
    sorted.sort();
    assert_eq!(sorted, vec![0, 1, 2]);
}

#[test]
fn stem_chain_is_ordered_root_first() {
    let mut stems: StemHierarchy<&str> = StemHierarchy::new();
    let p3 = stems.add_stem("P3", None).unwrap();
    let p2 = stems.add_stem("P2", Some(p3)).unwrap();
    let p1 = stems.add_stem("P1", Some(p2)).unwrap();
    assert_eq!((p3, p2, p1), (0, 1, 2));
    assert_eq!(stems.parent(p1), Some(p2));
    assert_eq!(stems.parent(p3), None);
    assert_eq!(stems.roots(), vec![p3]);
    assert_eq!(stems.traversal_order(), vec![p3, p2, p1]);
    assert_eq!(*stems.stem(p2), "P2");
}

#[test]
fn stem_with_missing_parent_is_refused() {
    let mut stems: StemHierarchy<u8> = StemHierarchy::new();
    assert_eq!(stems.add_stem(1, Some(0)), Err(StemError::MissingStem));
    let root = stems.add_stem(1, None).unwrap();
    assert_eq!(stems.add_stem(2, Some(root + 1)), Err(StemError::MissingStem));
    assert_eq!(stems.len(), 1);
}

#[test]
fn branching_forest_puts_parents_first() {
    let mut stems: StemHierarchy<u8> = StemHierarchy::new();
    let a = stems.add_stem(0, None).unwrap();
    let b = stems.add_stem(1, Some(a)).unwrap();
    let c = stems.add_stem(2, Some(a)).unwrap();
    let d = stems.add_stem(3, None).unwrap();
    let e = stems.add_stem(4, Some(c)).unwrap();
    let order = stems.traversal_order();
    assert_eq!(order.len(), 5);
    let pos = |x: usize| order.iter().position(|&y| y == x).unwrap();
    assert!(pos(a) < pos(b));
    assert!(pos(a) < pos(c));
    assert!(pos(c) < pos(e));
    assert_eq!(stems.roots(), vec![a, d]);
}

fn three_particle_system() -> ConstraintSystem<(f32, f32, f32), f32> {
    let mut sys = ConstraintSystem::new();
    let a = sys.add_particle((0.0, 0.0, 0.0));
    let b = sys.add_particle((0.0, 1.0, 0.0));
    let c = sys.add_particle((0.0, 2.3, 0.0));
    let c1 = sys.add_constraint(1.0, a, b).unwrap();
    let c2 = sys.add_constraint(1.0, b, c).unwrap();
    sys.connect(c2, c1).unwrap();
    sys
}

#[test]
fn relaxation_starts_at_most_stressed_and_spreads() {
    let sys = three_particle_system();
    // stresses 0 and 0.03, as ordered keys
    assert_eq!(sys.relaxation_order(&vec![0, 30]), vec![1, 0]);
    assert_eq!(sys.relaxation_order(&vec![30, 30]), vec![0, 1]);
    assert_eq!(sys.endpoints(1), (1, 2));
}

#[test]
fn relaxation_of_empty_system_does_nothing() {
    let sys: ConstraintSystem<u8, u8> = ConstraintSystem::new();
    assert!(sys.relaxation_order(&vec![]).is_empty());
}

#[test]
fn relaxation_on_cyclic_adjacency_solves_each_once() {
    let mut sys: ConstraintSystem<u8, u8> = ConstraintSystem::new();
    for p in 0..4 {
        sys.add_particle(p);
    }
    let c0 = sys.add_constraint(0, 0, 1).unwrap();
    let c1 = sys.add_constraint(0, 1, 2).unwrap();
    let c2 = sys.add_constraint(0, 2, 3).unwrap();
    let c3 = sys.add_constraint(0, 3, 0).unwrap();
    sys.connect(c0, c1).unwrap();
    sys.connect(c1, c2).unwrap();
    sys.connect(c2, c0).unwrap();
    let order = sys.relaxation_order(&vec![1, -2, 5, 3]);
    assert_eq!(order[0], c2);
    assert_eq!(order.len(), 3);
    assert!(!order.contains(&c3));
    let mut sorted = order.clone();
    sorted.sort();
    assert_eq!(sorted, vec![c0, c1, c2]);
}

#[test]
fn constraint_construction_errors() {
    let mut sys: ConstraintSystem<u8, u8> = ConstraintSystem::new();
    let a = sys.add_particle(0);
    assert_eq!(sys.add_constraint(0, a, 5), Err(ConstraintError::MissingParticle));
    assert_eq!(sys.add_constraint(0, a, a), Err(ConstraintError::SameParticle));
    let b = sys.add_particle(1);
    let c = sys.add_constraint(0, a, b).unwrap();
    assert_eq!(sys.connect(c, 1), Err(ConstraintError::MissingConstraint));
    assert_eq!(sys.constraint_count(), 1);
}

#[test]
fn particle_positions_are_updated_in_place() {
    let mut sys = three_particle_system();
    sys.set_position(1, (0.0, 1.5, 0.0));
    assert_eq!(*sys.position(1), (0.0, 1.5, 0.0));
    assert_eq!(*sys.position(2), (0.0, 2.3, 0.0));
    assert_eq!(*sys.constraint(0), 1.0);
}

#[test]
fn drag_grabs_on_press_and_lets_go_on_release() {
    assert_eq!(drag_step(None, true, false, Some(3)), Some(3));
    assert_eq!(drag_step(Some(1), true, false, None), Some(1));
    assert_eq!(drag_step(Some(3), false, true, None), None);
    assert_eq!(drag_step(Some(3), false, false, Some(0)), Some(3));
    assert!(orbit_enabled(None));
    assert!(!orbit_enabled(Some(2)));
}

#[test]
fn relaxation_seed_is_first_of_tied_maxima_among_four() {
    let mut sys: ConstraintSystem<u8, u8> = ConstraintSystem::new();
    for p in 0..8 {
        sys.add_particle(p);
    }
    for k in 0..4 {
        assert_eq!(sys.add_constraint(0, 2 * k, 2 * k + 1), Ok(k));
    }
    assert_eq!(sys.relaxation_order(&vec![-2, 5, 5, 1]), vec![1]);
}

#[test]
fn chain_system_links_consecutive_particles() {
    let sys: ConstraintSystem<u8, &str> =
        ConstraintSystem::chain_system(vec![10, 11, 12], vec!["c0", "c1"]);
    assert_eq!(sys.particle_count(), 3);
    assert_eq!(sys.endpoints(0), (1, 0));
    assert_eq!(sys.endpoints(1), (2, 1));
    assert_eq!(*sys.constraint(1), "c1");
    assert_eq!(*sys.position(2), 12);
    assert_eq!(sys.relaxation_order(&vec![0, 3]), vec![1, 0]);
}

#[test]
fn chain_system_of_one_particle_has_no_constraints() {
    let sys: ConstraintSystem<u8, u8> = ConstraintSystem::chain_system(vec![1], vec![]);
    assert_eq!(sys.particle_count(), 1);
    assert!(sys.relaxation_order(&vec![]).is_empty());
}

#[test]
fn add_chain_builds_a_rooted_chain() {
    let mut stems: StemHierarchy<f32> = StemHierarchy::new();
    let other = stems.add_stem(9.0, None).unwrap();
    let ids = stems.add_chain(vec![1.1, 1.2]);
    assert_eq!(ids, vec![1, 2]);
    assert_eq!(stems.parent(1), None);
    assert_eq!(stems.parent(2), Some(1));
    assert_eq!(stems.roots(), vec![other, 1]);
    assert_eq!(*stems.stem(2), 1.2);
    assert_eq!(stems.traversal_order(), vec![0, 1, 2]);
}
