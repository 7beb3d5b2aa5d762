//! Inventories: the roots of the aggregate, each holding its items.

use crate::entry::{EntryView, EventKind, EventView, ProjectionEntry, ProjectionEvent};
use crate::ident::Id;
use crate::item::{item_views, Item, ItemView};
use crate::time::{current_time, Timestamp};
use crate::unit::{Unit, UnitView};
use vstd::prelude::*;

verus! {

/// An inventory with its items and the users who may work with it.
#[derive(Debug)]
pub struct Inventory {
    /// The identifier of the inventory
    uuid: Id,
    /// The items in the inventory
    items: Vec<Item>,
    /// The name of the inventory
    name: String,
    /// The timestamp of the creation of the inventory
    created_on: Timestamp,
    /// The identifier of the owner of the inventory
    owner: Id,
    /// The users who have administrative access to this inventory
    admins: Vec<Id>,
    /// The users who have write access to this inventory
    writables: Vec<Id>,
    /// The users who have read-only access to this inventory
    readables: Vec<Id>,
}

/// What an inventory is, as a mathematical value.
pub struct InventoryView {
    pub uuid: Id,
    pub items: Seq<ItemView>,
    pub name: Seq<char>,
    pub created_on: Timestamp,
    pub owner: Id,
    pub admins: Seq<Id>,
    pub writables: Seq<Id>,
    pub readables: Seq<Id>,
}

/// Some item of `items` has the identifier `id`.
pub open spec fn has_item(items: Seq<ItemView>, id: Id) -> bool {
    exists|k: int| 0 <= k < items.len() && (#[trigger] items[k]).uuid == id
}

/// `index` is the place of the first item of `items` with the identifier `id`.
pub open spec fn is_first_item(items: Seq<ItemView>, id: Id, index: int) -> bool {
    &&& 0 <= index < items.len()
    &&& items[index].uuid == id
    &&& forall|k: int| 0 <= k < index ==> (#[trigger] items[k]).uuid != id
}

/// The place of the first item of `items` with the identifier `id`, where
/// there is one.
pub open spec fn item_place(items: Seq<ItemView>, id: Id) -> int {
    choose|k: int| is_first_item(items, id, k)
}

/// The first item with a given identifier has one place only.
pub proof fn lemma_item_place(items: Seq<ItemView>, id: Id, index: int)
    requires
        is_first_item(items, id, index),
    ensures
        item_place(items, id) == index,
        has_item(items, id),
{
    let k = item_place(items, id);
    assert(is_first_item(items, id, k));
    if k < index {
        assert(items[k].uuid != id);
    } else if index < k {
        assert(items[index].uuid != id);
    }
}

impl InventoryView {
    /// The inventory without its items: the form in which it is written to
    /// the log.
    pub open spec fn flat(self) -> InventoryView {
        InventoryView { items: Seq::empty(), ..self }
    }

    /// The inventory with the given items in place of its own.
    pub open spec fn with_items(self, items: Seq<ItemView>) -> InventoryView {
        InventoryView { items, ..self }
    }

    /// Every item names this inventory as its owner, and every unit names the
    /// item that holds it.
    pub open spec fn parents_agree(self) -> bool {
        forall|k: int|
            0 <= k < self.items.len() ==> {
                &&& (#[trigger] self.items[k]).inventory_uuid == self.uuid
                &&& self.items[k].owns_its_units()
            }
    }

    /// No two items share an identifier.
    pub open spec fn items_distinct(self) -> bool {
        forall|j: int, k: int|
            0 <= j < k < self.items.len() ==> (#[trigger] self.items[j]).uuid != (
            #[trigger] self.items[k]).uuid
    }

    /// The tree is one that the log can hold: parents agree and items are
    /// told apart by their identifiers.
    pub open spec fn well_formed(self) -> bool {
        self.parents_agree() && self.items_distinct()
    }

    /// `user` owns the inventory.
    pub open spec fn owned_by(self, user: Id) -> bool {
        self.owner == user
    }

    /// `user` may administer the inventory: the owner and the admins.
    pub open spec fn admits_admin(self, user: Id) -> bool {
        self.owned_by(user) || self.admins.contains(user)
    }

    /// `user` may write: whoever may administer, and the writable grantees.
    pub open spec fn admits_write(self, user: Id) -> bool {
        self.admits_admin(user) || self.writables.contains(user)
    }

    /// `user` may read: whoever may write, and the readable grantees.
    pub open spec fn admits_read(self, user: Id) -> bool {
        self.admits_write(user) || self.readables.contains(user)
    }

    /// The tree after the root was replaced by `snapshot`: every field is the
    /// snapshot's but the items, which stay.
    pub open spec fn root_replaced(self, snapshot: InventoryView) -> InventoryView {
        snapshot.with_items(self.items)
    }

    /// The tree after `item` was created: it comes last, without units.
    pub open spec fn item_added(self, item: ItemView) -> InventoryView {
        self.with_items(self.items.push(item.flat()))
    }

    /// The tree after the item in the place `index` was replaced by `item`:
    /// the units that were there stay.
    pub open spec fn item_replaced(self, index: int, item: ItemView) -> InventoryView {
        self.with_items(self.items.update(index, item.with_units(self.items[index].units)))
    }

    /// The tree after the item in the place `index` was deleted.
    pub open spec fn item_removed(self, index: int) -> InventoryView {
        self.with_items(self.items.remove(index))
    }

    /// The tree after `unit` was created in the item in the place `index`.
    pub open spec fn unit_added(self, index: int, unit: UnitView) -> InventoryView {
        self.with_items(
            self.items.update(
                index,
                self.items[index].with_units(self.items[index].units.push(unit)),
            ),
        )
    }

    /// The tree after the unit in the place `place` of the item in the place
    /// `index` was replaced by `unit`.
    pub open spec fn unit_replaced(self, index: int, place: int, unit: UnitView) -> InventoryView {
        self.with_items(
            self.items.update(
                index,
                self.items[index].with_units(self.items[index].units.update(place, unit)),
            ),
        )
    }

    /// The tree after the unit in the place `place` of the item in the place
    /// `index` was deleted.
    pub open spec fn unit_removed(self, index: int, place: int) -> InventoryView {
        self.with_items(
            self.items.update(
                index,
                self.items[index].with_units(self.items[index].units.remove(place)),
            ),
        )
    }
}

/// Creating an item that names the inventory and is new to it keeps the tree
/// well-formed.
pub proof fn lemma_item_added_well_formed(tree: InventoryView, item: ItemView)
    requires
        tree.well_formed(),
        item.inventory_uuid == tree.uuid,
        !has_item(tree.items, item.uuid),
    ensures
        tree.item_added(item).well_formed(),
{
    let after = tree.item_added(item);
    assert forall|k: int| 0 <= k < after.items.len() implies {
        &&& (#[trigger] after.items[k]).inventory_uuid == after.uuid
        &&& after.items[k].owns_its_units()
    } by {
        if k < tree.items.len() {
            assert(after.items[k] == tree.items[k]);
        }
    }
    assert forall|j: int, k: int| 0 <= j < k < after.items.len() implies (
    #[trigger] after.items[j]).uuid != (#[trigger] after.items[k]).uuid by {
        assert(after.items[j] == tree.items[j]);
        if k < tree.items.len() {
            assert(after.items[k] == tree.items[k]);
        }
    }
}

/// Replacing an item by one with its identifier that names the inventory
/// keeps the tree well-formed.
pub proof fn lemma_item_replaced_well_formed(tree: InventoryView, index: int, item: ItemView)
    requires
        tree.well_formed(),
        0 <= index < tree.items.len(),
        tree.items[index].uuid == item.uuid,
        item.inventory_uuid == tree.uuid,
    ensures
        tree.item_replaced(index, item).well_formed(),
{
    let after = tree.item_replaced(index, item);
    assert forall|k: int| 0 <= k < after.items.len() implies {
        &&& (#[trigger] after.items[k]).inventory_uuid == after.uuid
        &&& after.items[k].owns_its_units()
    } by {
        assert(tree.items[k].owns_its_units());
        if k != index {
            assert(after.items[k] == tree.items[k]);
        }
    }
    assert forall|j: int, k: int| 0 <= j < k < after.items.len() implies (
    #[trigger] after.items[j]).uuid != (#[trigger] after.items[k]).uuid by {
        assert(after.items[j].uuid == tree.items[j].uuid);
        assert(after.items[k].uuid == tree.items[k].uuid);
    }
}

/// Deleting an item keeps the tree well-formed.
pub proof fn lemma_item_removed_well_formed(tree: InventoryView, index: int)
    requires
        tree.well_formed(),
        0 <= index < tree.items.len(),
    ensures
        tree.item_removed(index).well_formed(),
{
    let after = tree.item_removed(index);
    assert forall|k: int| 0 <= k < after.items.len() implies {
        &&& (#[trigger] after.items[k]).inventory_uuid == after.uuid
        &&& after.items[k].owns_its_units()
    } by {
        if k < index {
            assert(after.items[k] == tree.items[k]);
        } else {
            assert(after.items[k] == tree.items[k + 1]);
        }
    }
    assert forall|j: int, k: int| 0 <= j < k < after.items.len() implies (
    #[trigger] after.items[j]).uuid != (#[trigger] after.items[k]).uuid by {
        let jj = if j < index { j } else { j + 1 };
        let kk = if k < index { k } else { k + 1 };
        assert(after.items[j] == tree.items[jj]);
        assert(after.items[k] == tree.items[kk]);
    }
}

/// Changing the units of one item to units that all name it keeps the tree
/// well-formed.
pub proof fn lemma_units_changed_well_formed(tree: InventoryView, index: int, units: Seq<UnitView>)
    requires
        tree.well_formed(),
        0 <= index < tree.items.len(),
        tree.items[index].with_units(units).owns_its_units(),
    ensures
        tree.with_items(tree.items.update(index, tree.items[index].with_units(units))).well_formed(),
{
    let after = tree.with_items(tree.items.update(index, tree.items[index].with_units(units)));
    assert forall|k: int| 0 <= k < after.items.len() implies {
        &&& (#[trigger] after.items[k]).inventory_uuid == after.uuid
        &&& after.items[k].owns_its_units()
    } by {
        if k != index {
            assert(after.items[k] == tree.items[k]);
        } else {
            assert(tree.items[k].inventory_uuid == tree.uuid);
        }
    }
    assert forall|j: int, k: int| 0 <= j < k < after.items.len() implies (
    #[trigger] after.items[j]).uuid != (#[trigger] after.items[k]).uuid by {
        assert(after.items[j].uuid == tree.items[j].uuid);
        assert(after.items[k].uuid == tree.items[k].uuid);
    }
}

/// Creating a unit in the item that it names keeps the tree well-formed.
pub proof fn lemma_unit_added_well_formed(tree: InventoryView, index: int, unit: UnitView)
    requires
        tree.well_formed(),
        0 <= index < tree.items.len(),
        unit.item_uuid == tree.items[index].uuid,
    ensures
        tree.unit_added(index, unit).well_formed(),
{
    let item = tree.items[index];
    let units = item.units.push(unit);
    assert(item.owns_its_units());
    assert forall|k: int| 0 <= k < units.len() implies (#[trigger] units[k]).item_uuid
        == item.uuid by {
        if k < item.units.len() {
            assert(units[k] == item.units[k]);
        }
    }
    lemma_units_changed_well_formed(tree, index, units);
}

/// Replacing a unit by one that names the same item keeps the tree
/// well-formed.
pub proof fn lemma_unit_replaced_well_formed(
    tree: InventoryView,
    index: int,
    place: int,
    unit: UnitView,
)
    requires
        tree.well_formed(),
        0 <= index < tree.items.len(),
        0 <= place < tree.items[index].units.len(),
        unit.item_uuid == tree.items[index].uuid,
    ensures
        tree.unit_replaced(index, place, unit).well_formed(),
{
    let item = tree.items[index];
    let units = item.units.update(place, unit);
    assert(item.owns_its_units());
    assert forall|k: int| 0 <= k < units.len() implies (#[trigger] units[k]).item_uuid
        == item.uuid by {
        if k != place {
            assert(units[k] == item.units[k]);
        }
    }
    lemma_units_changed_well_formed(tree, index, units);
}

/// Deleting a unit keeps the tree well-formed.
pub proof fn lemma_unit_removed_well_formed(tree: InventoryView, index: int, place: int)
    requires
        tree.well_formed(),
        0 <= index < tree.items.len(),
        0 <= place < tree.items[index].units.len(),
    ensures
        tree.unit_removed(index, place).well_formed(),
{
    let item = tree.items[index];
    let units = item.units.remove(place);
    assert(item.owns_its_units());
    assert forall|k: int| 0 <= k < units.len() implies (#[trigger] units[k]).item_uuid
        == item.uuid by {
        if k < place {
            assert(units[k] == item.units[k]);
        } else {
            assert(units[k] == item.units[k + 1]);
        }
    }
    lemma_units_changed_well_formed(tree, index, units);
}

/// Replacing the root by a snapshot with its identifier keeps the tree
/// well-formed.
pub proof fn lemma_root_replaced_well_formed(tree: InventoryView, snapshot: InventoryView)
    requires
        tree.well_formed(),
        snapshot.uuid == tree.uuid,
    ensures
        tree.root_replaced(snapshot).well_formed(),
{
    let after = tree.root_replaced(snapshot);
    assert forall|k: int| 0 <= k < after.items.len() implies {
        &&& (#[trigger] after.items[k]).inventory_uuid == after.uuid
        &&& after.items[k].owns_its_units()
    } by {
        assert(after.items[k] == tree.items[k]);
    }
}

/// The permissions cascade: who owns may administer, who may administer
/// may write, and who may write may read.
pub proof fn lemma_permission_cascade(inventory: InventoryView, user: Id)
    ensures
        inventory.owned_by(user) ==> inventory.admits_admin(user),
        inventory.admits_admin(user) ==> inventory.admits_write(user),
        inventory.admits_write(user) ==> inventory.admits_read(user),
{
}

/// The grants tell users apart. In an inventory with one admin, one
/// writable grantee and one readable grantee, all different from the owner
/// and from each other: the owner and the admin may administer, the two
/// others may not; the owner, the admin and the writable grantee may write,
/// the readable grantee may not; all four may read; and a fifth user may do
/// none of these.
pub proof fn lemma_grants_tell_apart(
    inventory: InventoryView,
    admin: Id,
    writer: Id,
    reader: Id,
    stranger: Id,
)
    requires
        inventory.admins == seq![admin],
        inventory.writables == seq![writer],
        inventory.readables == seq![reader],
        inventory.owner != admin && inventory.owner != writer && inventory.owner != reader,
        admin != writer && admin != reader && writer != reader,
        stranger != inventory.owner && stranger != admin && stranger != writer && stranger
            != reader,
    ensures
        inventory.admits_admin(inventory.owner) && inventory.admits_admin(admin),
        !inventory.admits_admin(writer) && !inventory.admits_admin(reader),
        inventory.admits_write(inventory.owner) && inventory.admits_write(admin)
            && inventory.admits_write(writer),
        !inventory.admits_write(reader) && !inventory.admits_write(stranger),
        inventory.admits_read(inventory.owner) && inventory.admits_read(admin)
            && inventory.admits_read(writer) && inventory.admits_read(reader),
        !inventory.admits_read(stranger),
        !inventory.admits_admin(stranger),
{
    assert(inventory.admins[0] == admin);
    assert(inventory.writables[0] == writer);
    assert(inventory.readables[0] == reader);
}

/// Replacing the root by the root as it stands changes nothing.
pub proof fn lemma_root_replaced_by_itself(tree: InventoryView)
    ensures
        tree.root_replaced(tree) == tree,
        tree.root_replaced(tree.flat()) == tree,
{
}

impl View for Inventory {
    type V = InventoryView;

    closed spec fn view(&self) -> InventoryView {
        InventoryView {
            uuid: self.uuid,
            items: item_views(self.items@),
            name: self.name@,
            created_on: self.created_on,
            owner: self.owner,
            admins: self.admins@,
            writables: self.writables@,
            readables: self.readables@,
        }
    }
}

/// Whether `id` occurs in `ids`.
pub fn contains_id(ids: &Vec<Id>, id: &Id) -> (found: bool)
    ensures
        found == ids@.contains(*id),
{
    let mut k: usize = 0;
    while k < ids.len()
        invariant
            k <= ids.len(),
            forall|j: int| 0 <= j < k ==> ids@[j] != *id,
        decreases ids.len() - k,
    {
        if ids[k] == *id {
            return true;
        }
        k += 1;
    }
    false
}

/// A copy of `ids`, in the same order.
pub fn clone_ids(ids: &Vec<Id>) -> (copy: Vec<Id>)
    ensures
        copy@ == ids@,
{
    let mut copy: Vec<Id> = Vec::new();
    let mut k: usize = 0;
    while k < ids.len()
        invariant
            k <= ids.len(),
            copy@ == ids@.take(k as int),
        decreases ids.len() - k,
    {
        copy.push(ids[k]);
        assert(ids@.take(k as int).push(ids@[k as int]) =~= ids@.take(k + 1));
        k += 1;
    }
    assert(ids@.take(ids.len() as int) =~= ids@);
    copy
}

/// A copy of `items` with the same views in the same order.
pub fn clone_items(items: &Vec<Item>) -> (copy: Vec<Item>)
    ensures
        item_views(copy@) == item_views(items@),
{
    let mut copy: Vec<Item> = Vec::new();
    let mut k: usize = 0;
    while k < items.len()
        invariant
            k <= items.len(),
            copy.len() == k,
            forall|j: int| 0 <= j < k ==> (#[trigger] copy@[j])@ == items@[j]@,
        decreases items.len() - k,
    {
        copy.push(items[k].clone());
        k += 1;
    }
    assert(item_views(copy@) =~= item_views(items@));
    copy
}

/// The place of the first item of `items` with the identifier `id`, if there
/// is one.
pub fn position_of_item(items: &Vec<Item>, id: &Id) -> (found: Option<usize>)
    ensures
        match found {
            Some(index) => is_first_item(item_views(items@), *id, index as int),
            None => !has_item(item_views(items@), *id),
        },
{
    let mut k: usize = 0;
    while k < items.len()
        invariant
            k <= items.len(),
            forall|j: int| 0 <= j < k ==> (#[trigger] item_views(items@)[j]).uuid != *id,
        decreases items.len() - k,
    {
        if *items[k].uuid() == *id {
            return Some(k);
        }
        k += 1;
    }
    None
}

impl Inventory {
    /// Generates a new inventory of `owner`, without items and without
    /// grantees, with a fresh identifier and the current time as its creation
    /// time.
    pub fn new(name: String, owner: Id) -> (inventory: Self)
        ensures
            inventory@.name == name@,
            inventory@.owner == owner,
            inventory@.items == Seq::<ItemView>::empty(),
            inventory@.admins == Seq::<Id>::empty(),
            inventory@.writables == Seq::<Id>::empty(),
            inventory@.readables == Seq::<Id>::empty(),
    {
        let inventory = Self {
            uuid: crate::ident::random_id(),
            items: Vec::new(),
            name,
            created_on: current_time(),
            owner,
            admins: Vec::new(),
            writables: Vec::new(),
            readables: Vec::new(),
        };
        assert(inventory@.items =~= Seq::<ItemView>::empty());
        inventory
    }

    /// The inventory with exactly the given fields.
    pub fn from_parts(
        uuid: Id,
        items: Vec<Item>,
        name: String,
        created_on: Timestamp,
        owner: Id,
        admins: Vec<Id>,
        writables: Vec<Id>,
        readables: Vec<Id>,
    ) -> (inventory: Self)
        ensures
            inventory@ == (InventoryView {
                uuid,
                items: item_views(items@),
                name: name@,
                created_on,
                owner,
                admins: admins@,
                writables: writables@,
                readables: readables@,
            }),
    {
        Self { uuid, items, name, created_on, owner, admins, writables, readables }
    }

    /// The identifier of the inventory
    pub fn uuid(&self) -> (id: &Id)
        ensures
            *id == self@.uuid,
    {
        &self.uuid
    }

    /// The items in the inventory
    pub fn items(&self) -> (items: &Vec<Item>)
        ensures
            item_views(items@) == self@.items,
    {
        &self.items
    }

    /// The name of the inventory
    pub fn name(&self) -> (name: &String)
        ensures
            name@ == self@.name,
    {
        &self.name
    }

    /// The timestamp of the creation of the inventory
    pub fn created_on(&self) -> (time: &Timestamp)
        ensures
            *time == self@.created_on,
    {
        &self.created_on
    }

    /// The identifier of the owner of the inventory
    pub fn owner(&self) -> (id: &Id)
        ensures
            *id == self@.owner,
    {
        &self.owner
    }

    /// The users who have administrative access to this inventory
    pub fn admins(&self) -> (ids: &Vec<Id>)
        ensures
            ids@ == self@.admins,
    {
        &self.admins
    }

    /// The users who have write access to this inventory
    pub fn writables(&self) -> (ids: &Vec<Id>)
        ensures
            ids@ == self@.writables,
    {
        &self.writables
    }

    /// The users who have read-only access to this inventory
    pub fn readables(&self) -> (ids: &Vec<Id>)
        ensures
            ids@ == self@.readables,
    {
        &self.readables
    }

    /// Whether `user_uuid` owns the inventory.
    pub fn is_owned_by(&self, user_uuid: &Id) -> (allowed: bool)
        ensures
            allowed == self@.owned_by(*user_uuid),
    {
        self.owner == *user_uuid
    }

    /// Whether `user_uuid` may administer the inventory.
    pub fn allow_admin(&self, user_uuid: &Id) -> (allowed: bool)
        ensures
            allowed == self@.admits_admin(*user_uuid),
    {
        self.is_owned_by(user_uuid) || contains_id(&self.admins, user_uuid)
    }

    /// Whether `user_uuid` may change the inventory.
    pub fn allow_write(&self, user_uuid: &Id) -> (allowed: bool)
        ensures
            allowed == self@.admits_write(*user_uuid),
    {
        self.allow_admin(user_uuid) || contains_id(&self.writables, user_uuid)
    }

    /// Whether `user_uuid` may read the inventory.
    pub fn allow_read(&self, user_uuid: &Id) -> (allowed: bool)
        ensures
            allowed == self@.admits_read(*user_uuid),
    {
        self.allow_write(user_uuid) || contains_id(&self.readables, user_uuid)
    }

    /// A copy of the inventory without its items: the form in which it is
    /// written to the log.
    pub fn flat(&self) -> (copy: Self)
        ensures
            copy@ == self@.flat(),
    {
        let copy = Self {
            uuid: self.uuid,
            items: Vec::new(),
            name: self.name.clone(),
            created_on: self.created_on,
            owner: self.owner,
            admins: clone_ids(&self.admins),
            writables: clone_ids(&self.writables),
            readables: clone_ids(&self.readables),
        };
        assert(copy@.items =~= Seq::<ItemView>::empty());
        copy
    }

    /// The inventory with `items` in place of its own.
    pub fn with_items(self, items: Vec<Item>) -> (inventory: Self)
        ensures
            inventory@ == self@.with_items(item_views(items@)),
    {
        Self { items, ..self }
    }

    /// Hands out the items and leaves the rest behind.
    pub fn into_items(self) -> (items: Vec<Item>)
        ensures
            item_views(items@) == self@.items,
    {
        self.items
    }

    /// The place of the first item with the identifier `id`, if there is one.
    pub fn find_item(&self, id: &Id) -> (found: Option<usize>)
        ensures
            match found {
                Some(index) => is_first_item(self@.items, *id, index as int),
                None => !has_item(self@.items, *id),
            },
    {
        position_of_item(&self.items, id)
    }

    /// The place of the first unit with the identifier `id` among the units
    /// of the item in the place `index`, if there is one.
    pub fn find_unit(&self, index: usize, id: &Id) -> (found: Option<usize>)
        requires
            index < self@.items.len(),
        ensures
            match found {
                Some(place) => crate::item::is_first_unit(
                    self@.items[index as int].units,
                    *id,
                    place as int,
                ),
                None => !crate::item::has_unit(self@.items[index as int].units, *id),
            },
    {
        self.items[index].find_unit(id)
    }

    /// Replaces every field by that of `snapshot`, but the items, which stay.
    pub fn replace_root(&mut self, snapshot: Inventory)
        ensures
            final(self)@ == old(self)@.root_replaced(snapshot@),
    {
        self.uuid = snapshot.uuid;
        self.name = snapshot.name;
        self.created_on = snapshot.created_on;
        self.owner = snapshot.owner;
        self.admins = snapshot.admins;
        self.writables = snapshot.writables;
        self.readables = snapshot.readables;
    }

    /// Appends `item`, without the units it may carry, to the items.
    pub fn push_item(&mut self, item: Item)
        ensures
            final(self)@ == old(self)@.item_added(item@),
    {
        let bare = item.with_units(Vec::new());
        assert(bare@ =~= item@.flat()) by {
            assert(bare@.units =~= Seq::<UnitView>::empty());
        }
        self.items.push(bare);
        assert(item_views(self.items@) =~= item_views(old(self).items@).push(item@.flat()));
    }

    /// Puts `item` in the place `index`; the units of the item that was there
    /// stay.
    pub fn replace_item(&mut self, index: usize, item: Item)
        requires
            index < old(self)@.items.len(),
        ensures
            final(self)@ == old(self)@.item_replaced(index as int, item@),
    {
        let previous = self.items.remove(index);
        let merged = item.with_units(previous.into_units());
        self.items.insert(index, merged);
        assert(item_views(self.items@) =~= item_views(old(self).items@).update(
            index as int,
            item@.with_units(old(self)@.items[index as int].units),
        ));
    }

    /// Takes the item in the place `index` out of the inventory.
    pub fn remove_item(&mut self, index: usize) -> (item: Item)
        requires
            index < old(self)@.items.len(),
        ensures
            item@ == old(self)@.items[index as int],
            final(self)@ == old(self)@.item_removed(index as int),
    {
        let item = self.items.remove(index);
        assert(item_views(self.items@) =~= item_views(old(self).items@).remove(index as int));
        item
    }

    /// Appends `unit` to the units of the item in the place `index`.
    pub fn push_unit(&mut self, index: usize, unit: Unit)
        requires
            index < old(self)@.items.len(),
        ensures
            final(self)@ == old(self)@.unit_added(index as int, unit@),
    {
        let mut item = self.items.remove(index);
        item.push_unit(unit);
        self.items.insert(index, item);
        assert(item_views(self.items@) =~= old(self)@.unit_added(index as int, unit@).items);
    }

    /// Puts `unit` in the place `place` of the item in the place `index`.
    pub fn replace_unit(&mut self, index: usize, place: usize, unit: Unit)
        requires
            index < old(self)@.items.len(),
            place < old(self)@.items[index as int].units.len(),
        ensures
            final(self)@ == old(self)@.unit_replaced(index as int, place as int, unit@),
    {
        let mut item = self.items.remove(index);
        item.replace_unit(place, unit);
        self.items.insert(index, item);
        assert(item_views(self.items@) =~= old(self)@.unit_replaced(
            index as int,
            place as int,
            unit@,
        ).items);
    }

    /// Takes the unit in the place `place` out of the item in the place
    /// `index`.
    pub fn remove_unit(&mut self, index: usize, place: usize) -> (unit: Unit)
        requires
            index < old(self)@.items.len(),
            place < old(self)@.items[index as int].units.len(),
        ensures
            unit@ == old(self)@.items[index as int].units[place as int],
            final(self)@ == old(self)@.unit_removed(index as int, place as int),
    {
        let mut item = self.items.remove(index);
        let unit = item.remove_unit(place);
        self.items.insert(index, item);
        assert(item_views(self.items@) =~= old(self)@.unit_removed(index as int, place as int).items);
        unit
    }
}

// The events that create, change and delete an inventory. Each carries the
// inventory without its items.
impl Inventory {
    /// Generates a new inventory of `owner` and the event that creates it,
    /// and gives its identifier and its creation time beside the event.
    pub fn create(name: String, owner: Id) -> (created: (ProjectionEvent, Id, Timestamp))
        ensures
            created.0@.kind == EventKind::Create,
            created.0@.entry == EntryView::Inventory(
                InventoryView {
                    uuid: created.1,
                    items: Seq::empty(),
                    name: name@,
                    created_on: created.2,
                    owner,
                    admins: Seq::empty(),
                    writables: Seq::empty(),
                    readables: Seq::empty(),
                },
            ),
    {
        let inventory = Self::new(name, owner);
        let uuid = inventory.uuid;
        let created_on = inventory.created_on;
        (ProjectionEvent::create(ProjectionEntry::Inventory(inventory)), uuid, created_on)
    }

    /// The event that deletes the inventory.
    pub fn delete(self) -> (event: ProjectionEvent)
        ensures
            event@ == (EventView {
                kind: EventKind::Delete,
                entry: EntryView::Inventory(self@.flat()),
            }),
    {
        let bare = self.with_items(Vec::new());
        assert(bare@.items =~= Seq::<ItemView>::empty());
        ProjectionEvent::delete(ProjectionEntry::Inventory(bare))
    }

    /// The event that gives the inventory the name `name`.
    pub fn update_name(self, name: String) -> (event: ProjectionEvent)
        ensures
            event@ == (EventView {
                kind: EventKind::Update,
                entry: EntryView::Inventory(InventoryView { name: name@, ..self@.flat() }),
            }),
    {
        let changed = Self { items: Vec::new(), name, ..self };
        assert(changed@.items =~= Seq::<ItemView>::empty());
        ProjectionEvent::update(ProjectionEntry::Inventory(changed))
    }

    /// The event that gives the inventory the owner `owner`.
    pub fn update_owner(self, owner: Id) -> (event: ProjectionEvent)
        ensures
            event@ == (EventView {
                kind: EventKind::Update,
                entry: EntryView::Inventory(InventoryView { owner, ..self@.flat() }),
            }),
    {
        let changed = Self { items: Vec::new(), owner, ..self };
        assert(changed@.items =~= Seq::<ItemView>::empty());
        ProjectionEvent::update(ProjectionEntry::Inventory(changed))
    }

    /// The event that gives the inventory the admins `admins`.
    pub fn update_admins(self, admins: Vec<Id>) -> (event: ProjectionEvent)
        ensures
            event@ == (EventView {
                kind: EventKind::Update,
                entry: EntryView::Inventory(InventoryView { admins: admins@, ..self@.flat() }),
            }),
    {
        let changed = Self { items: Vec::new(), admins, ..self };
        assert(changed@.items =~= Seq::<ItemView>::empty());
        ProjectionEvent::update(ProjectionEntry::Inventory(changed))
    }

    /// The event that gives the inventory the writable grantees `writables`.
    pub fn update_writables(self, writables: Vec<Id>) -> (event: ProjectionEvent)
        ensures
            event@ == (EventView {
                kind: EventKind::Update,
                entry: EntryView::Inventory(
                    InventoryView { writables: writables@, ..self@.flat() },
                ),
            }),
    {
        let changed = Self { items: Vec::new(), writables, ..self };
        assert(changed@.items =~= Seq::<ItemView>::empty());
        ProjectionEvent::update(ProjectionEntry::Inventory(changed))
    }

    /// The event that gives the inventory the readable grantees `readables`.
    pub fn update_readables(self, readables: Vec<Id>) -> (event: ProjectionEvent)
        ensures
            event@ == (EventView {
                kind: EventKind::Update,
                entry: EntryView::Inventory(
                    InventoryView { readables: readables@, ..self@.flat() },
                ),
            }),
    {
        let changed = Self { items: Vec::new(), readables, ..self };
        assert(changed@.items =~= Seq::<ItemView>::empty());
        ProjectionEvent::update(ProjectionEntry::Inventory(changed))
    }
}

impl Clone for Inventory {
    fn clone(&self) -> (copy: Self)
        ensures
            copy@ == self@,
    {
        Self {
            uuid: self.uuid,
            items: clone_items(&self.items),
            name: self.name.clone(),
            created_on: self.created_on,
            owner: self.owner,
            admins: clone_ids(&self.admins),
            writables: clone_ids(&self.writables),
            readables: clone_ids(&self.readables),
        }
    }
}

impl PartialEq for Inventory {
    /// Two inventories are the same inventory when their identifiers agree.
    fn eq(&self, other: &Self) -> (same: bool) {
        self.uuid == other.uuid
    }
}

impl vstd::std_specs::cmp::PartialEqSpecImpl for Inventory {
    open spec fn obeys_eq_spec() -> bool {
        true
    }

    open spec fn eq_spec(&self, other: &Self) -> bool {
        self@.uuid == other@.uuid
    }
}

} // verus!
