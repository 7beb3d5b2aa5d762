use inventory_store::store::InventoryHandle;
use inventory_store::{Id, Inventory, Timestamp};

fn shared() -> Inventory {
    Inventory::from_parts(
        Id::from_u128(100),
        Vec::new(),
        "Shared".to_string(),
        Timestamp { seconds: 1, nanos: 0 },
        Id::from_u128(1),
        vec![Id::from_u128(2)],
        vec![Id::from_u128(3)],
        vec![Id::from_u128(4)],
    )
}

#[test]
fn permissions_cascade_from_owner_to_reader() {
    let inventory = shared();
    let (owner, admin, writer, reader, stranger) = (
        Id::from_u128(1),
        Id::from_u128(2),
        Id::from_u128(3),
        Id::from_u128(4),
        Id::from_u128(5),
    );
    assert!(inventory.is_owned_by(&owner));
    assert!(!inventory.is_owned_by(&admin));

    assert!(inventory.allow_admin(&owner));
    assert!(inventory.allow_admin(&admin));
    assert!(!inventory.allow_admin(&writer));
    assert!(!inventory.allow_admin(&reader));
    assert!(!inventory.allow_admin(&stranger));

    assert!(inventory.allow_write(&owner));
    assert!(inventory.allow_write(&admin));
    assert!(inventory.allow_write(&writer));
    assert!(!inventory.allow_write(&reader));
    assert!(!inventory.allow_write(&stranger));

    assert!(inventory.allow_read(&owner));
    assert!(inventory.allow_read(&admin));
    assert!(inventory.allow_read(&writer));
    assert!(inventory.allow_read(&reader));
    assert!(!inventory.allow_read(&stranger));
}

#[test]
fn a_handle_answers_as_its_inventory() {
    let handle = InventoryHandle::create(shared()).unwrap();
    for user in 0..7u128 {
        let user = Id::from_u128(user);
        assert_eq!(handle.is_owned_by(&user), handle.inventory().is_owned_by(&user));
        assert_eq!(handle.allow_admin(&user), handle.inventory().allow_admin(&user));
        assert_eq!(handle.allow_write(&user), handle.inventory().allow_write(&user));
        assert_eq!(handle.allow_read(&user), handle.inventory().allow_read(&user));
    }
    assert!(handle.allow_admin(&Id::from_u128(2)));
    assert!(!handle.allow_write(&Id::from_u128(4)));
    assert!(handle.allow_read(&Id::from_u128(4)));
}

#[test]
fn the_owner_needs_no_grant() {
    let inventory = Inventory::new("Mine".to_string(), Id::from_u128(9));
    assert!(inventory.admins().is_empty());
    assert!(inventory.writables().is_empty());
    assert!(inventory.readables().is_empty());
    assert!(inventory.allow_admin(&Id::from_u128(9)));
    assert!(inventory.allow_write(&Id::from_u128(9)));
    assert!(inventory.allow_read(&Id::from_u128(9)));
    assert!(!inventory.allow_read(&Id::from_u128(10)));
}
