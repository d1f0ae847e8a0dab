use picea::element::store::ElementStore;
use picea::element::ID;

#[derive(Clone, Debug, PartialEq)]
struct Circle {
    center_x: f32,
    velocity: (f32, f32),
}

fn circle_element(x: f32) -> Circle {
    Circle {
        center_x: x,
        velocity: (0., 0.),
    }
}

fn push(store: &mut ElementStore<Circle>, id: ID, x: f32) {
    store.push(id, circle_element(x));
}

fn center_key(circle: &Circle) -> i64 {
    (circle.center_x * 1000.0) as i64
}

fn set_velocity(element: &mut Circle, velocity: (f32, f32)) {
    element.velocity = velocity;
}

#[test]
fn add_get_and_remove_keep_order_map_and_sort_cache_consistent() {
    let mut store = ElementStore::with_capacity(3);
    push(&mut store, 1, 3.);
    push(&mut store, 2, 1.);
    push(&mut store, 3, 2.);

    assert_eq!(store.ids(), vec![1, 2, 3]);
    assert!(store.get_element_by_id(2).is_some());
    assert_eq!(store.get_element_by_id(2).map(|e| e.center_x), Some(1.));

    store.sort_by_key(center_key);
    assert_eq!(store.sorted_ids(), vec![2, 3, 1]);

    store.remove_element(3);

    assert_eq!(store.size(), 2);
    assert_eq!(store.ids(), vec![1, 2]);
    assert!(!store.has_element(3));
    assert!(store.get_element_by_id(3).is_none());
    assert_eq!(store.sorted_ids(), vec![2, 1]);

    set_velocity(
        store
            .get_mut_element_by_id(2)
            .expect("shifted map index still points at id 2"),
        (7., 0.),
    );
    assert_eq!(
        store
            .get_element_by_id(2)
            .expect("id 2 still exists")
            .velocity
            .0,
        7.
    );
}

#[test]
fn removing_non_tail_element_reindexes_shifted_map_entries() {
    let mut store = ElementStore::with_capacity(3);
    push(&mut store, 1, 10.);
    push(&mut store, 2, 20.);
    push(&mut store, 3, 30.);

    store.remove_element(1);

    assert_eq!(store.size(), 2);
    assert_eq!(store.ids(), vec![2, 3]);
    assert!(store.get_element_by_id(1).is_none());
    assert_eq!(
        store
            .get_element_by_id(2)
            .expect("id 2 shifts to index 0")
            .center_x,
        20.
    );
    assert_eq!(
        store
            .get_element_by_id(3)
            .expect("id 3 shifts to index 1")
            .center_x,
        30.
    );

    set_velocity(
        store
            .get_mut_element_by_id(3)
            .expect("mutable lookup uses shifted index for id 3"),
        (9., 0.),
    );
    assert_eq!(
        store
            .get_element_by_id(3)
            .expect("id 3 remains accessible")
            .velocity
            .0,
        9.
    );

    let (element_2, element_3) = store
        .get_pair_mut_by_id(2, 3)
        .expect("pair lookup uses reindexed map entries");
    set_velocity(element_2, (2., 0.));
    set_velocity(element_3, (3., 0.));

    assert_eq!(
        store
            .get_element_by_id(2)
            .expect("id 2 remains accessible")
            .velocity
            .0,
        2.
    );
    assert_eq!(
        store
            .get_element_by_id(3)
            .expect("id 3 remains accessible")
            .velocity
            .0,
        3.
    );
}

#[test]
fn duplicate_id_replaces_existing_entry_without_cache_duplicates() {
    let mut store = ElementStore::with_capacity(2);
    push(&mut store, 1, 0.);
    push(&mut store, 1, 10.);

    assert_eq!(store.size(), 1);
    assert_eq!(store.ids(), vec![1]);
    assert_eq!(store.sorted_ids(), vec![1]);
    assert_eq!(
        store
            .get_element_by_id(1)
            .expect("replacement remains accessible")
            .center_x,
        10.
    );
}

#[test]
fn clone_preserves_ids_without_sharing_element_mutation() {
    let mut store = ElementStore::with_capacity(2);
    push(&mut store, 1, 0.);
    push(&mut store, 2, 1.);

    let mut cloned = store.clone();
    set_velocity(
        cloned
            .get_mut_element_by_id(1)
            .expect("cloned id remains accessible"),
        (8., 0.),
    );

    assert_eq!(cloned.ids(), vec![1, 2]);
    assert_eq!(
        cloned
            .get_element_by_id(1)
            .expect("cloned id 1 exists")
            .velocity
            .0,
        8.
    );
    assert_eq!(
        store
            .get_element_by_id(1)
            .expect("the first store keeps id 1")
            .velocity
            .0,
        0.
    );
}

#[test]
fn pair_lookup_rejects_equal_or_missing_ids() {
    let mut store = ElementStore::with_capacity(2);
    push(&mut store, 4, 0.);
    push(&mut store, 5, 1.);
    assert!(store.get_pair_mut_by_id(4, 4).is_none());
    assert!(store.get_pair_mut_by_id(4, 6).is_none());
    let (later, earlier) = store.get_pair_mut_by_id(5, 4).expect("both stored");
    later.center_x = 50.;
    earlier.center_x = 40.;
    assert_eq!(store.get_element_by_id(4).map(|e| e.center_x), Some(40.));
    assert_eq!(store.get_element_by_id(5).map(|e| e.center_x), Some(50.));
}

#[test]
fn later_sorts_resort_the_cache_and_clear_empties_the_store() {
    let mut store = ElementStore::with_capacity(3);
    push(&mut store, 1, 5.);
    push(&mut store, 2, 4.);
    push(&mut store, 3, 6.);
    store.sort_by_key(center_key);
    assert_eq!(store.sorted_ids(), vec![2, 1, 3]);
    store
        .get_mut_element_by_id(3)
        .expect("stored")
        .center_x = 0.;
    store.sort_by_key(center_key);
    assert_eq!(store.sorted_ids(), vec![3, 2, 1]);
    assert_eq!(store.elements().len(), 3);
    store.clear();
    assert_eq!(store.size(), 0);
    assert!(store.sorted_ids().is_empty());
}
