use inventory_store::entry::ProjectionEntry;
use inventory_store::store::{InventoryHandle, Store};
use inventory_store::{Id, Inventory, Item, StoreError, Timestamp};
use libocc::{Event, Projector};
use std::borrow::Cow;

/// A new item of the inventory with the identifier `inventory`.
fn new_item(inventory: Id, name: String, ean: Option<String>) -> Item {
    let holder = Inventory::from_parts(
        inventory,
        Vec::new(),
        String::new(),
        Timestamp { seconds: 0, nanos: 0 },
        Id::from_u128(0),
        Vec::new(),
        Vec::new(),
        Vec::new(),
    );
    Item::new(&holder, name, ean)
}

fn log_of(name: &str) -> (Projector<'static, ProjectionEntry>, Id) {
    let inventory = Inventory::new(name.to_string(), Id::from_u128(1));
    let uuid = *inventory.uuid();
    let mut log: Projector<'static, ProjectionEntry> = Projector::new();
    log.push(Event::create(Cow::Owned(ProjectionEntry::Inventory(inventory)))).unwrap();
    (log, uuid)
}

#[test]
fn a_new_store_is_empty() {
    assert!(Store::new().inventory_handles().is_empty());
    assert!(Store::new().into_projectors().is_empty());
}

#[test]
fn a_store_is_loaded_from_its_logs_in_order() {
    let (first, first_id) = log_of("First");
    let (mut second, second_id) = log_of("Second");
    let item = new_item(second_id, "Rice".to_string(), None);
    second.push(Event::create(Cow::Owned(ProjectionEntry::Item(item.clone())))).unwrap();
    let (third, third_id) = log_of("Third");
    let store = match Store::try_from(vec![first, second, third]) {
        Ok(store) => store,
        Err(_) => panic!("the store did not load"),
    };
    let handles = store.inventory_handles();
    assert_eq!(handles.len(), 3);
    assert_eq!(handles[0].inventory().uuid(), &first_id);
    assert_eq!(handles[1].inventory().uuid(), &second_id);
    assert_eq!(handles[2].inventory().uuid(), &third_id);
    assert_eq!(handles[0].inventory().name(), "First");
    assert_eq!(handles[1].inventory().items().len(), 1);
    assert_eq!(handles[1].inventory().items()[0].uuid(), item.uuid());
    let logs = store.into_projectors();
    assert_eq!(logs.len(), 3);
    assert_eq!(logs[0].get_projection().len(), 1);
    assert_eq!(logs[1].get_projection().len(), 2);
    assert_eq!(logs[2].get_projection().len(), 1);
}

#[test]
fn one_bad_log_fails_the_whole_store() {
    let (first, _) = log_of("First");
    let mut orphaned: Projector<'static, ProjectionEntry> = Projector::new();
    let (third, third_id) = log_of("Third");
    orphaned
        .push(Event::create(Cow::Owned(ProjectionEntry::Item(new_item(
            third_id,
            "Rice".to_string(),
            None,
        )))))
        .unwrap();
    let empty: Projector<'static, ProjectionEntry> = Projector::new();
    let mut foreign = third.clone();
    foreign
        .push(Event::create(Cow::Owned(ProjectionEntry::Item(new_item(
            Id::from_u128(third_id.as_u128() ^ 1),
            "Rice".to_string(),
            None,
        )))))
        .unwrap();
    assert!(matches!(
        Store::try_from(vec![first.clone(), orphaned, third.clone()]),
        Err(StoreError::MissingAggregateRoot)
    ));
    assert!(matches!(
        Store::try_from(vec![first.clone(), foreign.clone(), empty.clone()]),
        Err(StoreError::OrphanItem)
    ));
    assert!(matches!(
        Store::try_from(vec![empty, foreign, first]),
        Err(StoreError::MissingAggregateRoot)
    ));
}

#[test]
fn handles_come_and_go() {
    let mut store = Store::new();
    let pantry = Inventory::new("Pantry".to_string(), Id::from_u128(1));
    let cellar = Inventory::new("Cellar".to_string(), Id::from_u128(1));
    let (pantry_id, cellar_id) = (*pantry.uuid(), *cellar.uuid());
    store.insert(InventoryHandle::create(pantry).unwrap());
    store.insert(InventoryHandle::create(cellar).unwrap());
    assert_eq!(store.inventory_handles().len(), 2);
    assert!(store.take(2).is_none());
    assert_eq!(store.inventory_handles().len(), 2);

    let mut taken = store.take(0).unwrap();
    assert_eq!(taken.inventory().uuid(), &pantry_id);
    assert_eq!(store.inventory_handles().len(), 1);
    assert_eq!(store.inventory_handles()[0].inventory().uuid(), &cellar_id);

    taken.create_item(new_item(pantry_id, "Rice".to_string(), None)).unwrap();
    store.insert(taken);
    assert_eq!(store.inventory_handles().len(), 2);
    assert_eq!(store.inventory_handles()[1].inventory().uuid(), &pantry_id);
    assert_eq!(store.inventory_handles()[1].inventory().items().len(), 1);
}
