use inventory_store::entry::ProjectionEntry;
use inventory_store::store::InventoryHandle;
use inventory_store::{Id, Inventory, Item, StoreError, Timestamp, Unit};
use libocc::{Event, Projector, Utc};
use std::borrow::Cow;

/// A new item of the inventory with the identifier `inventory`.
fn new_item(inventory: Id, name: String, ean: Option<String>) -> Item {
    let holder = Inventory::from_parts(
        inventory,
        Vec::new(),
        String::new(),
        Timestamp { seconds: 0, nanos: 0 },
        Id::from_u128(0),
        Vec::new(),
        Vec::new(),
        Vec::new(),
    );
    Item::new(&holder, name, ean)
}

fn pantry() -> Inventory {
    Inventory::from_parts(
        Id::from_u128(100),
        Vec::new(),
        "Pantry".to_string(),
        Timestamp { seconds: 1_700_000_000, nanos: 0 },
        Id::from_u128(1),
        vec![Id::from_u128(2)],
        Vec::new(),
        vec![Id::from_u128(3)],
    )
}

fn item(id: u128, name: &str) -> Item {
    Item::from_parts(
        Id::from_u128(id),
        Id::from_u128(100),
        name.to_string(),
        Vec::new(),
        Timestamp { seconds: 1_700_000_001, nanos: 0 },
        None,
    )
}

fn unit(id: u128, item: u128, name: &str, left: f64) -> Unit {
    Unit::from_parts(
        Id::from_u128(id),
        Id::from_u128(item),
        None,
        name.to_string(),
        left.to_bits(),
        Timestamp { seconds: 1_700_000_002, nanos: 0 },
        None,
    )
}

fn item_ids(handle: &InventoryHandle) -> Vec<u128> {
    handle.inventory().items().iter().map(|item| item.uuid().as_u128()).collect()
}

fn unit_ids(handle: &InventoryHandle, place: usize) -> Vec<u128> {
    handle.inventory().items()[place].units().iter().map(|unit| unit.uuid().as_u128()).collect()
}

fn projected(handle: &InventoryHandle) -> usize {
    handle.get_projector().get_projection().len()
}

/// A moment after every event that the log holds so far, and before every
/// later one.
fn after_the_last_event() -> libocc::Timestamp {
    let moment = Utc::now();
    while Utc::now() <= moment {}
    let later = Utc::now();
    while Utc::now() <= later {}
    moment
}

/// The events of the log from the last one before `moment` on.
fn events_since(handle: &InventoryHandle, moment: &libocc::Timestamp) -> usize {
    handle.get_projector().get_events_from(moment).len()
}

#[test]
fn a_new_aggregate_holds_its_inventory_alone() {
    let handle = InventoryHandle::create(pantry()).unwrap();
    assert_eq!(handle.inventory().uuid(), &Id::from_u128(100));
    assert_eq!(handle.inventory().name(), "Pantry");
    assert_eq!(handle.inventory().admins(), &vec![Id::from_u128(2)]);
    assert!(handle.inventory().items().is_empty());
    assert!(!handle.deleted());
    assert_eq!(projected(&handle), 1);
    assert!(
        *handle.get_projector().get_projection()[0] == ProjectionEntry::Inventory(pantry())
    );
}

#[test]
fn a_new_aggregate_leaves_the_items_of_its_inventory_out() {
    let loaded = pantry().with_items(vec![item(10, "Rice")]);
    let handle = InventoryHandle::create(loaded).unwrap();
    assert!(handle.inventory().items().is_empty());
    assert_eq!(projected(&handle), 1);
    match &*handle.get_projector().get_projection()[0] {
        ProjectionEntry::Inventory(written) => assert!(written.items().is_empty()),
        _ => panic!("the payload is not an inventory"),
    }
}

#[test]
fn a_handle_is_rebuilt_from_a_log() {
    let mut log: Projector<'static, ProjectionEntry> = Projector::new();
    log.push(Event::create(Cow::Owned(ProjectionEntry::Unit(unit(20, 10, "Bag", 1.0))))).unwrap();
    log.push(Event::create(Cow::Owned(ProjectionEntry::Item(item(10, "Rice"))))).unwrap();
    log.push(Event::create(Cow::Owned(ProjectionEntry::Inventory(pantry())))).unwrap();
    let handle = InventoryHandle::try_from(log).unwrap();
    assert_eq!(handle.inventory().uuid(), &Id::from_u128(100));
    assert_eq!(item_ids(&handle), vec![10]);
    assert_eq!(unit_ids(&handle, 0), vec![20]);
    assert_eq!(projected(&handle), 3);
    assert!(!handle.deleted());
}

#[test]
fn a_log_without_an_inventory_gives_no_handle() {
    let mut log: Projector<'static, ProjectionEntry> = Projector::new();
    assert!(matches!(
        InventoryHandle::try_from(log.clone()),
        Err(StoreError::MissingAggregateRoot)
    ));
    log.push(Event::create(Cow::Owned(ProjectionEntry::Item(item(10, "Rice"))))).unwrap();
    assert!(matches!(InventoryHandle::try_from(log), Err(StoreError::MissingAggregateRoot)));
}

#[test]
fn a_log_with_an_orphan_gives_no_handle() {
    let mut log: Projector<'static, ProjectionEntry> = Projector::new();
    log.push(Event::create(Cow::Owned(ProjectionEntry::Inventory(pantry())))).unwrap();
    log.push(Event::create(Cow::Owned(ProjectionEntry::Unit(unit(20, 10, "Bag", 1.0))))).unwrap();
    assert!(matches!(InventoryHandle::try_from(log.clone()), Err(StoreError::OrphanUnit)));
    let mut other: Projector<'static, ProjectionEntry> = Projector::new();
    other.push(Event::create(Cow::Owned(ProjectionEntry::Inventory(pantry())))).unwrap();
    let foreign = new_item(Id::from_u128(101), "Rice".to_string(), None);
    other.push(Event::create(Cow::Owned(ProjectionEntry::Item(foreign)))).unwrap();
    assert!(matches!(InventoryHandle::try_from(other), Err(StoreError::OrphanItem)));
}

#[test]
fn create_then_delete_item_returns_to_the_start_with_two_events() {
    let mut handle = InventoryHandle::create(pantry()).unwrap();
    handle.create_item(item(10, "Rice")).unwrap();
    let moment = after_the_last_event();
    let items_before = handle.inventory().items().len();
    let events_before = events_since(&handle, &moment);
    assert_eq!(events_before, 1);

    handle.create_item(item(11, "Beans")).unwrap();
    assert_eq!(item_ids(&handle), vec![10, 11]);
    assert_eq!(projected(&handle), 3);
    handle.delete_item(item(11, "Beans")).unwrap();

    assert_eq!(handle.inventory().items().len(), items_before);
    assert_eq!(item_ids(&handle), vec![10]);
    assert_eq!(projected(&handle), 2);
    let events = handle.get_projector().get_events_from(&moment);
    assert_eq!(events.len(), events_before + 2);
    assert!(matches!(events[1], Event::Create(_)));
    assert!(matches!(events[2], Event::Delete(_)));
    assert!(**events[1] == ProjectionEntry::Item(item(11, "Beans")));
    assert!(**events[2] == ProjectionEntry::Item(item(11, "Beans")));
}

#[test]
fn update_of_a_missing_item_changes_nothing() {
    let mut handle = InventoryHandle::create(pantry()).unwrap();
    handle.create_item(item(10, "Rice")).unwrap();
    handle.create_unit(unit(20, 10, "Bag", 1.0)).unwrap();
    let moment = after_the_last_event();
    let events_before = events_since(&handle, &moment);

    let result = handle.update_item(item(11, "Beans"));

    assert!(matches!(result, Err(StoreError::ItemNotFound)));
    assert_eq!(events_since(&handle, &moment), events_before);
    assert_eq!(projected(&handle), 3);
    assert_eq!(item_ids(&handle), vec![10]);
    assert_eq!(handle.inventory().items()[0].name(), "Rice");
    assert_eq!(unit_ids(&handle, 0), vec![20]);
    assert_eq!(handle.inventory().name(), "Pantry");
}

#[test]
fn update_with_the_current_snapshot_leaves_the_tree_as_it_was() {
    let mut handle = InventoryHandle::create(pantry()).unwrap();
    handle.create_item(item(10, "Rice")).unwrap();
    handle.create_unit(unit(20, 10, "Bag", 1.0)).unwrap();
    let moment = after_the_last_event();
    let events_before = events_since(&handle, &moment);

    let current = handle.inventory().clone();
    handle.update_inventory(current).unwrap();

    assert_eq!(events_since(&handle, &moment), events_before + 1);
    let tree = handle.inventory();
    let before = pantry();
    assert_eq!(tree.uuid(), before.uuid());
    assert_eq!(tree.name(), before.name());
    assert_eq!(tree.created_on(), before.created_on());
    assert_eq!(tree.owner(), before.owner());
    assert_eq!(tree.admins(), before.admins());
    assert_eq!(tree.writables(), before.writables());
    assert_eq!(tree.readables(), before.readables());
    assert_eq!(item_ids(&handle), vec![10]);
    assert_eq!(unit_ids(&handle, 0), vec![20]);
    match &*handle.get_projector().get_projection()[0] {
        ProjectionEntry::Inventory(written) => assert!(written.items().is_empty()),
        _ => panic!("the payload is not an inventory"),
    }
}

#[test]
fn update_inventory_replaces_the_fields_and_keeps_the_items() {
    let mut handle = InventoryHandle::create(pantry()).unwrap();
    handle.create_item(item(10, "Rice")).unwrap();
    let snapshot = Inventory::from_parts(
        Id::from_u128(100),
        vec![item(77, "Smuggled")],
        "Larder".to_string(),
        Timestamp { seconds: 5, nanos: 6 },
        Id::from_u128(8),
        Vec::new(),
        vec![Id::from_u128(9)],
        Vec::new(),
    );
    handle.update_inventory(snapshot).unwrap();
    let tree = handle.inventory();
    assert_eq!(tree.name(), "Larder");
    assert_eq!(tree.created_on(), &Timestamp { seconds: 5, nanos: 6 });
    assert_eq!(tree.owner(), &Id::from_u128(8));
    assert!(tree.admins().is_empty());
    assert_eq!(tree.writables(), &vec![Id::from_u128(9)]);
    assert!(tree.readables().is_empty());
    assert_eq!(item_ids(&handle), vec![10]);
    assert_eq!(projected(&handle), 2);
    match &*handle.get_projector().get_projection()[0] {
        ProjectionEntry::Inventory(written) => {
            assert_eq!(written.name(), "Larder");
            assert!(written.items().is_empty());
        },
        _ => panic!("the payload is not an inventory"),
    }
}

#[test]
fn update_inventory_refuses_another_inventory() {
    let mut handle = InventoryHandle::create(pantry()).unwrap();
    let other = Inventory::new("Other".to_string(), Id::from_u128(1));
    assert!(matches!(handle.update_inventory(other), Err(StoreError::InventoryNotFound)));
    assert_eq!(handle.inventory().name(), "Pantry");
    assert_eq!(projected(&handle), 1);
}

#[test]
fn a_deleted_inventory_takes_no_further_mutation() {
    let mut handle = InventoryHandle::create(pantry()).unwrap();
    handle.create_item(item(10, "Rice")).unwrap();
    handle.create_unit(unit(20, 10, "Bag", 1.0)).unwrap();
    handle.delete_inventory().unwrap();
    assert!(handle.deleted());
    assert_eq!(projected(&handle), 2);
    assert_eq!(item_ids(&handle), vec![10]);

    assert!(matches!(handle.delete_inventory(), Err(StoreError::AggregateDeleted)));
    assert!(matches!(handle.update_inventory(pantry()), Err(StoreError::AggregateDeleted)));
    assert!(matches!(handle.create_item(item(11, "Beans")), Err(StoreError::AggregateDeleted)));
    assert!(matches!(handle.update_item(item(10, "Rice")), Err(StoreError::AggregateDeleted)));
    assert!(matches!(handle.delete_item(item(10, "Rice")), Err(StoreError::AggregateDeleted)));
    assert!(matches!(
        handle.create_unit(unit(21, 10, "Sack", 1.0)),
        Err(StoreError::AggregateDeleted)
    ));
    assert!(matches!(
        handle.update_unit(unit(20, 10, "Bag", 0.5)),
        Err(StoreError::AggregateDeleted)
    ));
    assert!(matches!(
        handle.delete_unit(unit(20, 10, "Bag", 1.0)),
        Err(StoreError::AggregateDeleted)
    ));
    assert_eq!(projected(&handle), 2);
    assert_eq!(item_ids(&handle), vec![10]);
    assert_eq!(unit_ids(&handle, 0), vec![20]);
}

#[test]
fn create_item_appends_without_units() {
    let mut handle = InventoryHandle::create(pantry()).unwrap();
    handle.create_item(item(10, "Rice")).unwrap();
    let loaded = item(11, "Beans").with_units(vec![unit(30, 11, "Can", 1.0)]);
    handle.create_item(loaded).unwrap();
    assert_eq!(item_ids(&handle), vec![10, 11]);
    assert!(handle.inventory().items()[1].units().is_empty());
    assert_eq!(projected(&handle), 3);
    match &*handle.get_projector().get_projection()[2] {
        ProjectionEntry::Item(written) => {
            assert_eq!(written.uuid(), &Id::from_u128(11));
            assert!(written.units().is_empty());
        },
        _ => panic!("the payload is not an item"),
    }
}

#[test]
fn create_item_refuses_an_item_of_another_inventory() {
    let mut handle = InventoryHandle::create(pantry()).unwrap();
    let foreign = new_item(Id::from_u128(101), "Rice".to_string(), None);
    assert!(matches!(handle.create_item(foreign), Err(StoreError::OrphanItem)));
    assert!(handle.inventory().items().is_empty());
    assert_eq!(projected(&handle), 1);
}

#[test]
fn create_item_refuses_an_identifier_twice() {
    let mut handle = InventoryHandle::create(pantry()).unwrap();
    handle.create_item(item(10, "Rice")).unwrap();
    assert!(matches!(
        handle.create_item(item(10, "Beans")),
        Err(StoreError::DuplicateEntityIdentifier)
    ));
    assert_eq!(item_ids(&handle), vec![10]);
    assert_eq!(handle.inventory().items()[0].name(), "Rice");
    assert_eq!(projected(&handle), 2);
}

#[test]
fn update_item_replaces_in_place_and_keeps_the_units() {
    let mut handle = InventoryHandle::create(pantry()).unwrap();
    handle.create_item(item(10, "Rice")).unwrap();
    handle.create_item(item(11, "Beans")).unwrap();
    handle.create_unit(unit(20, 10, "Bag", 1.0)).unwrap();
    let snapshot = Item::from_parts(
        Id::from_u128(10),
        Id::from_u128(100),
        "Brown rice".to_string(),
        vec![unit(99, 10, "Smuggled", 1.0)],
        Timestamp { seconds: 3, nanos: 4 },
        Some("4006381333931".to_string()),
    );
    handle.update_item(snapshot).unwrap();
    assert_eq!(item_ids(&handle), vec![10, 11]);
    let changed = &handle.inventory().items()[0];
    assert_eq!(changed.name(), "Brown rice");
    assert_eq!(changed.created_on(), &Timestamp { seconds: 3, nanos: 4 });
    assert_eq!(changed.ean(), &Some("4006381333931".to_string()));
    assert_eq!(unit_ids(&handle, 0), vec![20]);
    assert_eq!(handle.inventory().items()[1].name(), "Beans");
    assert_eq!(projected(&handle), 4);
    match &*handle.get_projector().get_projection()[1] {
        ProjectionEntry::Item(written) => {
            assert_eq!(written.name(), "Brown rice");
            assert!(written.units().is_empty());
        },
        _ => panic!("the payload is not an item"),
    }
}

#[test]
fn update_item_refuses_a_move_to_another_inventory() {
    let mut handle = InventoryHandle::create(pantry()).unwrap();
    handle.create_item(item(10, "Rice")).unwrap();
    let moved = Item::from_parts(
        Id::from_u128(10),
        Id::from_u128(101),
        "Rice".to_string(),
        Vec::new(),
        Timestamp { seconds: 0, nanos: 0 },
        None,
    );
    assert!(matches!(handle.update_item(moved), Err(StoreError::TransferNotSupported)));
    assert_eq!(handle.inventory().items()[0].inventory_uuid(), &Id::from_u128(100));
    assert_eq!(projected(&handle), 2);
}

#[test]
fn delete_item_removes_it_and_refuses_a_missing_one() {
    let mut handle = InventoryHandle::create(pantry()).unwrap();
    handle.create_item(item(10, "Rice")).unwrap();
    handle.create_item(item(11, "Beans")).unwrap();
    handle.create_item(item(12, "Oats")).unwrap();
    handle.delete_item(item(11, "Beans")).unwrap();
    assert_eq!(item_ids(&handle), vec![10, 12]);
    assert_eq!(projected(&handle), 3);
    assert!(matches!(handle.delete_item(item(11, "Beans")), Err(StoreError::ItemNotFound)));
    assert_eq!(item_ids(&handle), vec![10, 12]);
    assert_eq!(projected(&handle), 3);
}

#[test]
fn create_unit_appends_to_the_item_that_it_names() {
    let mut handle = InventoryHandle::create(pantry()).unwrap();
    handle.create_item(item(10, "Rice")).unwrap();
    handle.create_item(item(11, "Beans")).unwrap();
    handle.create_unit(unit(20, 11, "Can 1", 1.0)).unwrap();
    handle.create_unit(unit(21, 10, "Bag", 0.25)).unwrap();
    handle.create_unit(unit(22, 11, "Can 2", 1.0)).unwrap();
    assert_eq!(unit_ids(&handle, 0), vec![21]);
    assert_eq!(unit_ids(&handle, 1), vec![20, 22]);
    assert_eq!(handle.inventory().items()[0].units()[0].percent_left(), &0.25f64.to_bits());
    assert_eq!(projected(&handle), 6);
}

#[test]
fn create_unit_refuses_a_unit_of_a_missing_item() {
    let mut handle = InventoryHandle::create(pantry()).unwrap();
    handle.create_item(item(10, "Rice")).unwrap();
    assert!(matches!(
        handle.create_unit(unit(20, 11, "Can", 1.0)),
        Err(StoreError::ItemNotFound)
    ));
    assert!(handle.inventory().items()[0].units().is_empty());
    assert_eq!(projected(&handle), 2);
}

#[test]
fn a_submission_that_the_log_rejects_changes_nothing() {
    let mut handle = InventoryHandle::create(pantry()).unwrap();
    handle.create_item(item(10, "Rice")).unwrap();
    handle.create_item(item(11, "Beans")).unwrap();
    handle.create_unit(unit(20, 10, "Bag", 1.0)).unwrap();
    let moment = after_the_last_event();
    let events_before = events_since(&handle, &moment);

    let again = handle.create_unit(unit(20, 10, "Bag again", 0.5));
    assert!(matches!(again, Err(StoreError::Conflict(_))));
    let elsewhere = handle.create_unit(unit(20, 11, "Bag elsewhere", 0.5));
    assert!(matches!(elsewhere, Err(StoreError::Conflict(_))));

    assert_eq!(events_since(&handle, &moment), events_before);
    assert_eq!(projected(&handle), 4);
    assert_eq!(item_ids(&handle), vec![10, 11]);
    assert_eq!(unit_ids(&handle, 0), vec![20]);
    assert!(unit_ids(&handle, 1).is_empty());
    let kept = &handle.inventory().items()[0].units()[0];
    assert_eq!(kept.name(), "Bag");
    assert_eq!(kept.percent_left(), &1.0f64.to_bits());
}

#[test]
fn update_unit_replaces_in_place() {
    let mut handle = InventoryHandle::create(pantry()).unwrap();
    handle.create_item(item(10, "Rice")).unwrap();
    handle.create_unit(unit(20, 10, "Bag", 1.0)).unwrap();
    handle.create_unit(unit(21, 10, "Sack", 1.0)).unwrap();
    let opened = Unit::from_parts(
        Id::from_u128(20),
        Id::from_u128(10),
        Some(std::time::Duration::from_secs(86_400)),
        "Open bag".to_string(),
        0.5f64.to_bits(),
        Timestamp { seconds: 1_700_000_002, nanos: 0 },
        Some(Timestamp { seconds: 1_700_000_500, nanos: 7 }),
    );
    handle.update_unit(opened).unwrap();
    assert_eq!(unit_ids(&handle, 0), vec![20, 21]);
    let changed = &handle.inventory().items()[0].units()[0];
    assert_eq!(changed.name(), "Open bag");
    assert_eq!(f64::from_bits(*changed.percent_left()), 0.5);
    assert_eq!(changed.use_up_after(), &Some(std::time::Duration::from_secs(86_400)));
    assert_eq!(changed.opened_on(), &Some(Timestamp { seconds: 1_700_000_500, nanos: 7 }));
    assert_eq!(handle.inventory().items()[0].units()[1].name(), "Sack");
    assert_eq!(projected(&handle), 4);
}

#[test]
fn update_unit_refuses_a_missing_item_or_unit() {
    let mut handle = InventoryHandle::create(pantry()).unwrap();
    handle.create_item(item(10, "Rice")).unwrap();
    handle.create_item(item(11, "Beans")).unwrap();
    handle.create_unit(unit(20, 10, "Bag", 1.0)).unwrap();
    assert!(matches!(
        handle.update_unit(unit(20, 12, "Bag", 0.5)),
        Err(StoreError::ItemNotFound)
    ));
    assert!(matches!(
        handle.update_unit(unit(21, 10, "Bag", 0.5)),
        Err(StoreError::UnitNotFound)
    ));
    assert!(matches!(
        handle.update_unit(unit(20, 11, "Bag", 0.5)),
        Err(StoreError::UnitNotFound)
    ));
    assert_eq!(handle.inventory().items()[0].units()[0].percent_left(), &1.0f64.to_bits());
    assert_eq!(projected(&handle), 4);
}

#[test]
fn delete_unit_removes_it_and_refuses_a_missing_one() {
    let mut handle = InventoryHandle::create(pantry()).unwrap();
    handle.create_item(item(10, "Rice")).unwrap();
    handle.create_unit(unit(20, 10, "Bag", 1.0)).unwrap();
    handle.create_unit(unit(21, 10, "Sack", 1.0)).unwrap();
    handle.create_unit(unit(22, 10, "Box", 1.0)).unwrap();
    handle.delete_unit(unit(21, 10, "Sack", 1.0)).unwrap();
    assert_eq!(unit_ids(&handle, 0), vec![20, 22]);
    assert_eq!(projected(&handle), 4);
    assert!(matches!(
        handle.delete_unit(unit(21, 10, "Sack", 1.0)),
        Err(StoreError::UnitNotFound)
    ));
    assert!(matches!(
        handle.delete_unit(unit(20, 11, "Bag", 1.0)),
        Err(StoreError::ItemNotFound)
    ));
    assert_eq!(unit_ids(&handle, 0), vec![20, 22]);
    assert_eq!(projected(&handle), 4);
}

#[test]
fn deleting_an_item_takes_its_units_out_of_the_tree() {
    let mut handle = InventoryHandle::create(pantry()).unwrap();
    handle.create_item(item(10, "Rice")).unwrap();
    handle.create_unit(unit(20, 10, "Bag", 1.0)).unwrap();
    handle.delete_item(item(10, "Rice")).unwrap();
    assert!(handle.inventory().items().is_empty());
    assert_eq!(projected(&handle), 2);
}

#[test]
fn the_log_of_a_handle_gives_the_handle_again() {
    let mut handle = InventoryHandle::create(pantry()).unwrap();
    handle.create_item(item(10, "Rice")).unwrap();
    handle.create_item(item(11, "Beans")).unwrap();
    handle.create_unit(unit(20, 11, "Can", 1.0)).unwrap();
    handle.update_item(item(10, "Brown rice")).unwrap();
    let again = InventoryHandle::try_from(handle.into_projector()).unwrap();
    assert_eq!(item_ids(&again), vec![10, 11]);
    assert_eq!(again.inventory().items()[0].name(), "Brown rice");
    assert!(unit_ids(&again, 0).is_empty());
    assert_eq!(unit_ids(&again, 1), vec![20]);
}

#[test]
fn the_tree_is_what_the_log_reconstructs_to_after_every_kind_of_mutation() {
    let mut handle = InventoryHandle::create(pantry()).unwrap();
    handle.create_item(item(10, "Rice")).unwrap();
    handle.create_item(item(11, "Beans")).unwrap();
    handle.create_item(item(12, "Oats")).unwrap();
    handle.create_unit(unit(20, 11, "Can 1", 1.0)).unwrap();
    handle.create_unit(unit(21, 10, "Bag", 1.0)).unwrap();
    handle.create_unit(unit(22, 11, "Can 2", 1.0)).unwrap();
    handle.create_unit(unit(23, 11, "Can 3", 1.0)).unwrap();
    handle.update_unit(unit(22, 11, "Can 2, open", 0.5)).unwrap();
    handle.delete_unit(unit(20, 11, "Can 1", 1.0)).unwrap();
    handle.update_item(item(11, "Black beans")).unwrap();
    handle.delete_item(item(12, "Oats")).unwrap();
    let mut renamed = handle.inventory().clone();
    renamed = Inventory::from_parts(
        *renamed.uuid(),
        Vec::new(),
        "Larder".to_string(),
        *renamed.created_on(),
        *renamed.owner(),
        renamed.admins().clone(),
        renamed.writables().clone(),
        renamed.readables().clone(),
    );
    handle.update_inventory(renamed).unwrap();

    let items = item_ids(&handle);
    let names: Vec<String> =
        handle.inventory().items().iter().map(|item| item.name().clone()).collect();
    let units: Vec<Vec<u128>> = (0..items.len()).map(|place| unit_ids(&handle, place)).collect();
    assert_eq!(items, vec![10, 11]);
    assert_eq!(names, vec!["Rice".to_string(), "Black beans".to_string()]);
    assert_eq!(units, vec![vec![21], vec![22, 23]]);

    let again = InventoryHandle::try_from(handle.into_projector()).unwrap();
    assert_eq!(again.inventory().name(), "Larder");
    assert_eq!(item_ids(&again), items);
    let names_again: Vec<String> =
        again.inventory().items().iter().map(|item| item.name().clone()).collect();
    assert_eq!(names_again, names);
    let units_again: Vec<Vec<u128>> =
        (0..items.len()).map(|place| unit_ids(&again, place)).collect();
    assert_eq!(units_again, units);
    assert_eq!(again.inventory().items()[1].units()[0].name(), "Can 2, open");
    assert_eq!(f64::from_bits(*again.inventory().items()[1].units()[0].percent_left()), 0.5);
}

#[test]
fn the_units_of_a_deleted_item_stay_behind_in_the_log() {
    let mut handle = InventoryHandle::create(pantry()).unwrap();
    handle.create_item(item(10, "Rice")).unwrap();
    handle.create_unit(unit(20, 10, "Bag", 1.0)).unwrap();
    handle.delete_item(item(10, "Rice")).unwrap();
    assert!(handle.inventory().items().is_empty());
    assert_eq!(projected(&handle), 2);
    assert!(matches!(
        InventoryHandle::try_from(handle.into_projector()),
        Err(StoreError::OrphanUnit)
    ));
}

#[test]
fn the_log_of_a_deleted_inventory_gives_no_handle() {
    let mut handle = InventoryHandle::create(pantry()).unwrap();
    handle.delete_inventory().unwrap();
    assert!(matches!(
        InventoryHandle::try_from(handle.into_projector()),
        Err(StoreError::MissingAggregateRoot)
    ));
}
