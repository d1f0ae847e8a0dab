use picea::body::BodyType;
use picea::collider::{collider_mass_properties_error, CollisionFilter};
use picea::handles::{BodyHandle, ColliderHandle};
use picea::query::{query_stats_from_tree, QueryCandidate, QueryFilter, QueryStats};
use picea::pipeline::broadphase::TreeQueryStats;
use picea::pipeline::island::JointSolveInput;
use picea::recipe::{
    command_error, resolve_recipe_body, JointBundle, CollisionLayerPreset, CollisionLayers, MaterialPreset,
    WorldCommandKind, WorldCommandReport,
};
use picea::world::{HandleError, ValidationError, WorldError};

#[test]
fn filters_interact_only_when_both_masks_meet() {
    let a = CollisionFilter::from_bits(0b01, 0b10);
    let b = CollisionFilter::from_bits(0b10, 0b01);
    let c = CollisionFilter::from_bits(0b10, 0b10);
    assert!(a.allows(&b));
    assert!(b.allows(&a));
    assert!(!a.allows(&c));
    assert!(!c.allows(&a));
    let empty = CollisionFilter::from_bits(0, u64::MAX);
    assert!(!empty.allows(&CollisionFilter::default()));
    assert!(CollisionFilter::default().allows(&a));
}

#[test]
fn layer_presets_have_documented_bits_and_interactions() {
    let static_geometry = CollisionFilter::preset(CollisionLayerPreset::StaticGeometry);
    let dynamic = CollisionFilter::preset(CollisionLayerPreset::DynamicBody);
    let sensor = CollisionFilter::preset(CollisionLayerPreset::Sensor);
    let query_only = CollisionFilter::preset(CollisionLayerPreset::QueryOnly);
    assert_eq!(
        static_geometry,
        CollisionFilter::from_bits(CollisionLayers::STATIC_GEOMETRY, 6)
    );
    assert_eq!(dynamic.collides_with, 7);
    assert_eq!(sensor.memberships, CollisionLayers::SENSOR);
    assert_eq!(query_only, CollisionFilter::from_bits(8, 0));
    assert_eq!(
        CollisionFilter::preset(CollisionLayerPreset::Default),
        CollisionFilter::default()
    );
    assert!(static_geometry.allows(&dynamic));
    assert!(static_geometry.allows(&sensor));
    assert!(!static_geometry.allows(&static_geometry));
    assert!(dynamic.allows(&dynamic));
    assert!(sensor.allows(&sensor));
    assert!(!query_only.allows(&dynamic));
    assert_eq!(CollisionLayerPreset::default(), CollisionLayerPreset::Default);
    assert_eq!(MaterialPreset::default(), MaterialPreset::Default);
}

fn candidate(handle: u32, body: u32, is_sensor: bool) -> QueryCandidate {
    QueryCandidate {
        handle: ColliderHandle::from_raw_parts(handle, 0),
        body: BodyHandle::from_raw_parts(body, 0),
        is_sensor,
        filter: CollisionFilter::default(),
    }
}

#[test]
fn query_filter_keeps_non_sensors_by_default() {
    let filter = QueryFilter::default();
    assert!(filter.matches(&candidate(1, 1, false)));
    assert!(!filter.matches(&candidate(1, 1, true)));
    assert!(filter.including_sensors().matches(&candidate(1, 1, true)));
}

#[test]
fn query_filter_restrictions_and_exclusions_hold() {
    let body = BodyHandle::from_raw_parts(2, 0);
    let collider = ColliderHandle::from_raw_parts(3, 0);
    assert!(QueryFilter::default()
        .with_body(body)
        .matches(&candidate(9, 2, false)));
    assert!(!QueryFilter::default()
        .with_body(body)
        .matches(&candidate(9, 4, false)));
    assert!(!QueryFilter::default()
        .excluding_body(body)
        .matches(&candidate(9, 2, false)));
    assert!(QueryFilter::default()
        .with_collider(collider)
        .matches(&candidate(3, 4, false)));
    assert!(!QueryFilter::default()
        .excluding_collider(collider)
        .matches(&candidate(3, 4, false)));
    let picky = QueryFilter::default().colliding_with(CollisionFilter::from_bits(0, 0));
    assert!(!picky.matches(&candidate(3, 4, false)));
}

#[test]
fn query_stats_start_from_tree_counters() {
    let mut tree = TreeQueryStats::default();
    tree.traversal_count = 5;
    tree.candidate_count = 3;
    tree.pruned_count = 2;
    let stats = query_stats_from_tree(tree);
    assert_eq!(
        stats,
        QueryStats {
            traversal_count: 5,
            candidate_count: 3,
            pruned_count: 2,
            filter_drop_count: 0,
            hit_count: 0,
        }
    );
    assert_eq!(QueryStats::default().hit_count, 0);
}

#[test]
fn recipe_bodies_resolve_by_index_or_report_missing() {
    let handles = [
        BodyHandle::from_raw_parts(0, 0),
        BodyHandle::from_raw_parts(1, 0),
    ];
    assert_eq!(resolve_recipe_body(1, &handles), Ok(handles[1]));
    assert_eq!(
        resolve_recipe_body(2, &handles),
        Err(WorldError::Handle(HandleError::MissingBody {
            handle: BodyHandle::invalid()
        }))
    );
    let error = command_error(
        3,
        Some(1),
        WorldCommandKind::CreateCollider,
        WorldError::Validation(ValidationError::ColliderDesc {
            field: "mass_properties",
        }),
    );
    assert_eq!(error.command_index, 3);
    assert_eq!(error.collider_index, Some(1));
    assert_eq!(error.kind, WorldCommandKind::CreateCollider);
    assert!(WorldCommandReport::default().events.is_empty());
}

#[test]
fn mass_property_errors_follow_the_field_scope() {
    assert_eq!(
        collider_mass_properties_error("patch"),
        ValidationError::ColliderPatch {
            field: "mass_properties"
        }
    );
    assert_eq!(
        collider_mass_properties_error("desc"),
        ValidationError::ColliderDesc {
            field: "mass_properties"
        }
    );
    assert!(BodyType::Static.is_static());
    assert!(BodyType::default().is_dynamic());
    assert!(BodyType::Kinematic.is_kinematic());
}

#[test]
fn recipe_joints_resolve_body_indices_to_created_handles() {
    let handles = [
        BodyHandle::from_raw_parts(4, 1),
        BodyHandle::from_raw_parts(7, 2),
    ];
    let distance: JointBundle<&str, ()> = JointBundle::Distance {
        body_a: 1,
        body_b: 0,
        desc: "rope",
    };
    match distance.resolve(&handles) {
        Ok(JointSolveInput::Distance { body_a, body_b, desc }) => {
            assert_eq!(body_a, handles[1]);
            assert_eq!(body_b, handles[0]);
            assert_eq!(desc, "rope");
        }
        _ => panic!("distance joint should resolve"),
    }
    let anchor: JointBundle<(), u8> = JointBundle::WorldAnchor { body: 0, desc: 9 };
    match anchor.resolve(&handles) {
        Ok(JointSolveInput::WorldAnchor { body, desc }) => {
            assert_eq!(body, handles[0]);
            assert_eq!(desc, 9);
        }
        _ => panic!("world-anchor joint should resolve"),
    }
    let missing: JointBundle<(), ()> = JointBundle::Distance {
        body_a: 0,
        body_b: 2,
        desc: (),
    };
    assert!(matches!(
        missing.resolve(&handles),
        Err(WorldError::Handle(HandleError::MissingBody { handle })) if handle == BodyHandle::invalid()
    ));
    let missing_anchor: JointBundle<(), ()> = JointBundle::WorldAnchor { body: 5, desc: () };
    assert!(missing_anchor.resolve(&handles).is_err());
}
