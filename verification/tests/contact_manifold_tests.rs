use picea::constraints::contact_manifold::{ContactManager, ContactPointUpdate};
use picea::element::ID;

const CONTACT_DEPTH: f32 = 0.25;
const PAIR: (ID, ID) = (1, 2);

/// A contact point: its x position and depth.
#[derive(Clone, Copy, Debug, PartialEq)]
struct ContactPoint {
    x: f32,
    depth: f32,
}

fn contact_at_x(x: f32) -> ContactPoint {
    ContactPoint {
        x,
        depth: CONTACT_DEPTH,
    }
}

/// The caller-owned solver constraint: points and their cached impulses.
#[derive(Debug, Default)]
struct Constraint {
    points: Vec<ContactPoint>,
    impulses: Vec<(f32, f32)>,
}

impl Constraint {
    fn apply(&mut self, update: ContactPointUpdate<ContactPoint>) {
        match update {
            ContactPointUpdate::Create(points) | ContactPointUpdate::Replace(points) => {
                self.impulses = vec![(0., 0.); points.len()];
                self.points = points;
            }
            ContactPointUpdate::Extend(points) => {
                self.impulses.extend(vec![(0., 0.); points.len()]);
                self.points.extend(points);
            }
            ContactPointUpdate::ReplaceKeepingImpulses(points) => {
                let impulses = points
                    .iter()
                    .map(|point| {
                        self.points
                            .iter()
                            .position(|old| (old.x - point.x).abs() < 0.001)
                            .map(|index| self.impulses[index])
                            .unwrap_or((0., 0.))
                    })
                    .collect();
                self.impulses = impulses;
                self.points = points;
            }
            ContactPointUpdate::Deferred => {}
        }
    }
}

fn manager_with_active_pair() -> (ContactManager<ContactPoint>, Constraint) {
    let mut manager = ContactManager::new();
    let mut constraint = Constraint::default();
    manager.begin_collision_pass();
    constraint.apply(manager.ingest_contact_point_pairs(PAIR.0, PAIR.1, vec![contact_at_x(0.)]));
    (manager, constraint)
}

fn refresh(manager: &mut ContactManager<ContactPoint>, constraint: &mut Constraint) {
    for (pair, update) in manager.refresh_contact_point_pairs_after_warm_start() {
        assert_eq!(pair, PAIR);
        constraint.apply(update);
    }
}

#[test]
fn public_compat_surface_keeps_constraint_lifecycle_and_map_like_methods() {
    let (manager, constraint) = manager_with_active_pair();
    assert!(manager.contains_key(&PAIR));
    assert_eq!(manager.keys(), vec![PAIR]);
    assert_eq!(manager.len(), 1);
    assert!(!manager.is_empty());
    assert_eq!(manager.active_pairs(), vec![PAIR]);
    assert_eq!(constraint.points.len(), 1);
}

#[test]
fn contact_manager_keeps_lifecycle_outside_solver_constraint() {
    let mut manager = ContactManager::<ContactPoint>::new();

    manager.begin_collision_pass();
    let update = manager.ingest_contact_point_pairs(PAIR.0, PAIR.1, vec![contact_at_x(0.)]);
    assert!(matches!(update, ContactPointUpdate::Create(_)));

    assert!(manager.is_pair_active(PAIR));
    assert!(!manager.can_warm_start_pair(PAIR));
    assert!(!manager.has_pending_refresh(PAIR));

    manager.begin_collision_pass();

    assert!(!manager.is_pair_active(PAIR));
    assert!(!manager.can_warm_start_pair(PAIR));
    assert!(!manager.has_pending_refresh(PAIR));
}

#[test]
fn contact_manager_recontact_after_inactive_replaces_without_warm_start() {
    let (mut manager, mut constraint) = manager_with_active_pair();
    constraint.impulses[0] = (4., 1.);

    manager.begin_collision_pass();
    manager.begin_collision_pass();
    constraint.apply(manager.ingest_contact_point_pairs(
        PAIR.0,
        PAIR.1,
        vec![contact_at_x(0.0004)],
    ));

    assert!(manager.is_pair_active(PAIR));
    assert!(!manager.can_warm_start_pair(PAIR));
    assert!(!manager.has_pending_refresh(PAIR));
    assert_eq!(constraint.impulses, vec![(0., 0.)]);
}

#[test]
fn contact_manager_continuing_pair_preserves_warm_start_until_refresh() {
    let (mut manager, mut constraint) = manager_with_active_pair();
    constraint.impulses[0] = (2.5, -0.75);

    manager.begin_collision_pass();
    constraint.apply(manager.ingest_contact_point_pairs(
        PAIR.0,
        PAIR.1,
        vec![contact_at_x(0.0004)],
    ));

    assert!(manager.is_pair_active(PAIR));
    assert!(manager.can_warm_start_pair(PAIR));
    assert!(manager.has_pending_refresh(PAIR));
    assert_eq!(constraint.impulses, vec![(2.5, -0.75)]);
    assert_eq!(manager.warm_start_pairs(), vec![PAIR]);

    refresh(&mut manager, &mut constraint);

    assert!(!manager.has_pending_refresh(PAIR));
    assert_eq!(constraint.impulses, vec![(2.5, -0.75)]);
    assert_eq!(constraint.points, vec![contact_at_x(0.0004)]);
}

#[test]
fn more_points_in_one_pass_extend_the_constraint_or_the_held_points() {
    let (mut manager, mut constraint) = manager_with_active_pair();
    let update = manager.ingest_contact_point_pairs(PAIR.0, PAIR.1, vec![contact_at_x(1.)]);
    assert!(matches!(update, ContactPointUpdate::Extend(_)));
    constraint.apply(update);
    assert_eq!(constraint.points.len(), 2);

    manager.begin_collision_pass();
    let first = manager.ingest_contact_point_pairs(PAIR.0, PAIR.1, vec![contact_at_x(0.)]);
    let second = manager.ingest_contact_point_pairs(PAIR.0, PAIR.1, vec![contact_at_x(2.)]);
    assert!(matches!(first, ContactPointUpdate::Deferred));
    assert!(matches!(second, ContactPointUpdate::Deferred));
    let updates = manager.refresh_contact_point_pairs_after_warm_start();
    assert_eq!(updates.len(), 1);
    match &updates[0].1 {
        ContactPointUpdate::ReplaceKeepingImpulses(points) => {
            assert_eq!(points, &vec![contact_at_x(0.), contact_at_x(2.)]);
        }
        _ => panic!("a continuing pair keeps its impulses"),
    }
    assert!(manager
        .refresh_contact_point_pairs_after_warm_start()
        .is_empty());
}

#[test]
fn pairs_are_listed_in_increasing_order_and_clear_forgets_them() {
    let mut manager = ContactManager::<ContactPoint>::new();
    manager.begin_collision_pass();
    manager.ingest_contact_point_pairs(3, 4, vec![]);
    manager.ingest_contact_point_pairs(1, 9, vec![]);
    manager.ingest_contact_point_pairs(1, 2, vec![]);
    assert_eq!(manager.keys(), vec![(1, 2), (1, 9), (3, 4)]);
    manager.begin_collision_pass();
    manager.ingest_contact_point_pairs(1, 9, vec![]);
    assert_eq!(manager.active_pairs(), vec![(1, 9)]);
    assert_eq!(manager.warm_start_pairs(), vec![(1, 9)]);
    manager.clear();
    assert!(manager.is_empty());
}
