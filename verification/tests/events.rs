use inventory_store::entry::{EventKind, ProjectionEntry, ProjectionEvent};
use inventory_store::{Id, Inventory, Item, StoreError, Timestamp, Unit};

/// A new item of the inventory with the identifier `inventory`.
fn new_item(inventory: Id, name: String, ean: Option<String>) -> Item {
    let holder = Inventory::from_parts(
        inventory,
        Vec::new(),
        String::new(),
        Timestamp { seconds: 0, nanos: 0 },
        Id::from_u128(0),
        Vec::new(),
        Vec::new(),
        Vec::new(),
    );
    Item::new(&holder, name, ean)
}

/// A new unit of the item with the identifier `item`.
fn new_unit(
    item: Id,
    use_up_after: Option<std::time::Duration>,
    name: String,
    percent_left: u64,
) -> Unit {
    let holder = Item::from_parts(
        item,
        Id::from_u128(0),
        String::new(),
        Vec::new(),
        Timestamp { seconds: 0, nanos: 0 },
        None,
    );
    Unit::new(&holder, use_up_after, name, percent_left)
}

fn pantry() -> Inventory {
    Inventory::from_parts(
        Id::from_u128(100),
        vec![new_item(Id::from_u128(100), "Rice".to_string(), None)],
        "Pantry".to_string(),
        Timestamp { seconds: 1, nanos: 2 },
        Id::from_u128(1),
        vec![Id::from_u128(2)],
        vec![Id::from_u128(3)],
        vec![Id::from_u128(4)],
    )
}

fn rice() -> Item {
    Item::from_parts(
        Id::from_u128(10),
        Id::from_u128(100),
        "Rice".to_string(),
        vec![new_unit(Id::from_u128(10), None, "Bag".to_string(), 1.0f64.to_bits())],
        Timestamp { seconds: 3, nanos: 4 },
        Some("123".to_string()),
    )
}

fn inventory_in(event: &ProjectionEvent) -> &Inventory {
    match &event.entry {
        ProjectionEntry::Inventory(inventory) => inventory,
        _ => panic!("the payload is not an inventory"),
    }
}

fn item_in(event: &ProjectionEvent) -> &Item {
    match &event.entry {
        ProjectionEntry::Item(item) => item,
        _ => panic!("the payload is not an item"),
    }
}

#[test]
fn creating_an_inventory_gives_its_event_identifier_and_time() {
    let (event, uuid, created_on) = Inventory::create("Cellar".to_string(), Id::from_u128(1));
    assert_eq!(event.kind, EventKind::Create);
    let inventory = inventory_in(&event);
    assert_eq!(inventory.uuid(), &uuid);
    assert_eq!(inventory.created_on(), &created_on);
    assert_eq!(inventory.name(), "Cellar");
    assert_eq!(inventory.owner(), &Id::from_u128(1));
    assert!(inventory.items().is_empty());
    assert!(inventory.admins().is_empty());
    assert!(inventory.writables().is_empty());
    assert!(inventory.readables().is_empty());
}

#[test]
fn new_inventories_differ_in_their_identifiers() {
    let one = Inventory::new("One".to_string(), Id::from_u128(1));
    let two = Inventory::new("Two".to_string(), Id::from_u128(1));
    assert!(one != two);
    assert!(one == one.clone());
}

#[test]
fn the_events_of_an_inventory_carry_no_items() {
    let deleted = pantry().delete();
    assert_eq!(deleted.kind, EventKind::Delete);
    assert!(inventory_in(&deleted).items().is_empty());
    assert_eq!(inventory_in(&deleted).name(), "Pantry");

    let renamed = pantry().update_name("Larder".to_string());
    assert_eq!(renamed.kind, EventKind::Update);
    assert!(inventory_in(&renamed).items().is_empty());
    assert_eq!(inventory_in(&renamed).name(), "Larder");
    assert_eq!(inventory_in(&renamed).uuid(), &Id::from_u128(100));
    assert_eq!(inventory_in(&renamed).owner(), &Id::from_u128(1));
}

#[test]
fn each_update_of_an_inventory_changes_its_field_alone() {
    let owned = pantry().update_owner(Id::from_u128(9));
    assert_eq!(owned.kind, EventKind::Update);
    assert_eq!(inventory_in(&owned).owner(), &Id::from_u128(9));
    assert_eq!(inventory_in(&owned).name(), "Pantry");
    assert_eq!(inventory_in(&owned).admins(), &vec![Id::from_u128(2)]);

    let admins = pantry().update_admins(vec![Id::from_u128(5), Id::from_u128(6)]);
    assert_eq!(inventory_in(&admins).admins(), &vec![Id::from_u128(5), Id::from_u128(6)]);
    assert_eq!(inventory_in(&admins).writables(), &vec![Id::from_u128(3)]);
    assert_eq!(inventory_in(&admins).readables(), &vec![Id::from_u128(4)]);

    let writables = pantry().update_writables(Vec::new());
    assert!(inventory_in(&writables).writables().is_empty());
    assert_eq!(inventory_in(&writables).admins(), &vec![Id::from_u128(2)]);

    let readables = pantry().update_readables(vec![Id::from_u128(7)]);
    assert_eq!(inventory_in(&readables).readables(), &vec![Id::from_u128(7)]);
    assert_eq!(inventory_in(&readables).created_on(), &Timestamp { seconds: 1, nanos: 2 });
    assert!(inventory_in(&readables).items().is_empty());
}

#[test]
fn creating_an_item_names_its_inventory() {
    let event = Item::create(&pantry(), "Beans".to_string(), Some("456".to_string()));
    assert_eq!(event.kind, EventKind::Create);
    let item = item_in(&event);
    assert_eq!(item.inventory_uuid(), &Id::from_u128(100));
    assert_eq!(item.name(), "Beans");
    assert_eq!(item.ean(), &Some("456".to_string()));
    assert!(item.units().is_empty());
}

#[test]
fn the_events_of_an_item_carry_no_units() {
    let deleted = rice().delete();
    assert_eq!(deleted.kind, EventKind::Delete);
    assert!(item_in(&deleted).units().is_empty());
    assert_eq!(item_in(&deleted).uuid(), &Id::from_u128(10));

    let renamed = rice().update_name("Brown rice".to_string());
    assert_eq!(renamed.kind, EventKind::Update);
    assert!(item_in(&renamed).units().is_empty());
    assert_eq!(item_in(&renamed).name(), "Brown rice");
    assert_eq!(item_in(&renamed).ean(), &Some("123".to_string()));

    let coded = rice().update_ean(None);
    assert_eq!(coded.kind, EventKind::Update);
    assert!(item_in(&coded).units().is_empty());
    assert_eq!(item_in(&coded).ean(), &None);
    assert_eq!(item_in(&coded).name(), "Rice");
    assert_eq!(item_in(&coded).created_on(), &Timestamp { seconds: 3, nanos: 4 });
}

#[test]
fn moving_an_item_is_not_supported() {
    let other = Inventory::new("Other".to_string(), Id::from_u128(1));
    assert!(matches!(rice().update_inventory(&other), Err(StoreError::TransferNotSupported)));
    assert!(matches!(rice().update_inventory(&pantry()), Err(StoreError::TransferNotSupported)));
}

#[test]
fn events_are_made_of_a_kind_and_a_payload() {
    let payload = ProjectionEntry::of_item(&rice());
    assert!(matches!(ProjectionEvent::create(payload.clone()).kind, EventKind::Create));
    assert!(matches!(ProjectionEvent::update(payload.clone()).kind, EventKind::Update));
    let deleted = ProjectionEvent::delete(payload.clone());
    assert!(matches!(deleted.kind, EventKind::Delete));
    assert!(deleted.entry == payload);
}

#[test]
fn a_payload_is_a_copy_without_children() {
    match ProjectionEntry::of_inventory(&pantry()) {
        ProjectionEntry::Inventory(written) => {
            assert!(written.items().is_empty());
            assert_eq!(written.name(), "Pantry");
            assert_eq!(written.readables(), &vec![Id::from_u128(4)]);
        },
        _ => panic!("the payload is not an inventory"),
    }
    match ProjectionEntry::of_item(&rice()) {
        ProjectionEntry::Item(written) => {
            assert!(written.units().is_empty());
            assert_eq!(written.ean(), &Some("123".to_string()));
        },
        _ => panic!("the payload is not an item"),
    }
    let bag = new_unit(Id::from_u128(10), None, "Bag".to_string(), 0.75f64.to_bits());
    match ProjectionEntry::of_unit(&bag) {
        ProjectionEntry::Unit(written) => {
            assert_eq!(written.uuid(), bag.uuid());
            assert_eq!(written.created_on(), bag.created_on());
            assert_eq!(f64::from_bits(*written.percent_left()), 0.75);
        },
        _ => panic!("the payload is not a unit"),
    }
}

#[test]
fn a_new_unit_is_unopened() {
    let bag = new_unit(
        Id::from_u128(10),
        Some(std::time::Duration::from_secs(60)),
        "Bag".to_string(),
        1.0f64.to_bits(),
    );
    assert_eq!(bag.item_uuid(), &Id::from_u128(10));
    assert_eq!(bag.inventory(), &Id::from_u128(10));
    assert_eq!(bag.use_up_after(), &Some(std::time::Duration::from_secs(60)));
    assert_eq!(bag.name(), "Bag");
    assert_eq!(f64::from_bits(*bag.percent_left()), 1.0);
    assert_eq!(bag.opened_on(), &None);
    let other = new_unit(Id::from_u128(10), None, "Bag".to_string(), 1.0f64.to_bits());
    assert!(bag != other);
    assert!(bag == bag.clone());
}

#[test]
fn a_new_item_has_no_units() {
    let item = new_item(Id::from_u128(100), "Rice".to_string(), None);
    assert_eq!(item.inventory_uuid(), &Id::from_u128(100));
    assert_eq!(item.inventory(), &Id::from_u128(100));
    assert_eq!(item.name(), "Rice");
    assert_eq!(item.ean(), &None);
    assert!(item.units().is_empty());
    assert!(item != new_item(Id::from_u128(100), "Rice".to_string(), None));
    assert!(item == item.clone());
}

#[test]
fn every_error_has_its_message() {
    assert_eq!(StoreError::MissingAggregateRoot.message(), "No such inventory");
    assert_eq!(
        StoreError::DuplicateAggregateRoot.message(),
        "Cannot have two inventories in one projector"
    );
    assert_eq!(
        StoreError::DuplicateEntityIdentifier.message(),
        "Cannot have two items with the same uuid"
    );
    assert_eq!(StoreError::OrphanItem.message(), "The item is not part of the inventory");
    assert_eq!(StoreError::OrphanUnit.message(), "No such item");
    assert_eq!(StoreError::ItemNotFound.message(), "Item not found");
    assert_eq!(StoreError::UnitNotFound.message(), "Unit not found");
    assert_eq!(StoreError::InventoryNotFound.message(), "Inventory not found");
    assert_eq!(
        StoreError::Conflict(anyhow::Error::msg("late")).message(),
        "The log rejected the event"
    );
    assert_eq!(StoreError::AggregateDeleted.message(), "The inventory was deleted");
    assert_eq!(
        StoreError::TransferNotSupported.message(),
        "Moving an item to another inventory is not supported"
    );
    assert_eq!(StoreError::EmptyLog.message(), "The projector has no segment");
}

#[test]
fn the_answer_of_the_log_is_surfaced_as_it_is() {
    assert!(matches!(StoreError::surface(Ok(())), Ok(())));
    match StoreError::surface(Err(anyhow::Error::msg("Cannot create pre-existing data"))) {
        Err(StoreError::Conflict(reason)) => {
            assert_eq!(reason.to_string(), "Cannot create pre-existing data")
        },
        _ => panic!("the rejection was not surfaced as a conflict"),
    }
}

#[test]
fn identifiers_keep_their_bits() {
    assert_eq!(Id::from_u128(0).as_u128(), 0);
    assert_eq!(Id::from_u128(u128::MAX).as_u128(), u128::MAX);
    assert_eq!(Id::from_u128(5), Id { value: 5 });
    assert!(Id::from_u128(5) != Id::from_u128(6));
}
