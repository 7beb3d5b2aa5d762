//! Items: the middle level of the aggregate, each held by one inventory and
//! holding its units.

use crate::entry::{EntryView, EventKind, EventView, ProjectionEntry, ProjectionEvent};
use crate::error::StoreError;
use crate::ident::Id;
use crate::inventory::Inventory;
use crate::time::{current_time, Timestamp};
use crate::unit::{unit_views, Unit, UnitView};
use vstd::prelude::*;

verus! {

/// One kind of thing kept in an inventory.
#[derive(Debug)]
pub struct Item {
    /// The identifier of the item
    uuid: Id,
    /// The identifier of the inventory which this item belongs to
    inventory_uuid: Id,
    /// The name of the item
    name: String,
    /// The units of the item
    units: Vec<Unit>,
    /// The timestamp of the creation of the item
    created_on: Timestamp,
    /// The EAN code of the item
    ean: Option<String>,
}

/// What an item is, as a mathematical value.
pub struct ItemView {
    pub uuid: Id,
    pub inventory_uuid: Id,
    pub name: Seq<char>,
    pub units: Seq<UnitView>,
    pub created_on: Timestamp,
    pub ean: Option<Seq<char>>,
}

impl ItemView {
    /// The item without its units: the form in which it is written to the log.
    pub open spec fn flat(self) -> ItemView {
        ItemView { units: Seq::empty(), ..self }
    }

    /// The item with the given units in place of its own.
    pub open spec fn with_units(self, units: Seq<UnitView>) -> ItemView {
        ItemView { units, ..self }
    }

    /// Every unit names this item as its owner.
    pub open spec fn owns_its_units(self) -> bool {
        forall|k: int| 0 <= k < self.units.len() ==> (#[trigger] self.units[k]).item_uuid == self.uuid
    }
}

/// Some unit of `units` has the identifier `id`.
pub open spec fn has_unit(units: Seq<UnitView>, id: Id) -> bool {
    exists|k: int| 0 <= k < units.len() && (#[trigger] units[k]).uuid == id
}

/// `index` is the place of the first unit of `units` with the identifier `id`.
pub open spec fn is_first_unit(units: Seq<UnitView>, id: Id, index: int) -> bool {
    &&& 0 <= index < units.len()
    &&& units[index].uuid == id
    &&& forall|k: int| 0 <= k < index ==> (#[trigger] units[k]).uuid != id
}

/// The place of the first unit of `units` with the identifier `id`, where
/// there is one.
pub open spec fn unit_place(units: Seq<UnitView>, id: Id) -> int {
    choose|k: int| is_first_unit(units, id, k)
}

/// The first unit with a given identifier has one place only.
pub proof fn lemma_unit_place(units: Seq<UnitView>, id: Id, index: int)
    requires
        is_first_unit(units, id, index),
    ensures
        unit_place(units, id) == index,
        has_unit(units, id),
{
    let k = unit_place(units, id);
    assert(is_first_unit(units, id, k));
    if k < index {
        assert(units[k].uuid != id);
    } else if index < k {
        assert(units[index].uuid != id);
    }
}

impl View for Item {
    type V = ItemView;

    closed spec fn view(&self) -> ItemView {
        ItemView {
            uuid: self.uuid,
            inventory_uuid: self.inventory_uuid,
            name: self.name@,
            units: unit_views(self.units@),
            created_on: self.created_on,
            ean: match self.ean {
                Some(code) => Some(code@),
                None => None,
            },
        }
    }
}

/// The views of a sequence of items, in the same order.
pub open spec fn item_views(items: Seq<Item>) -> Seq<ItemView> {
    items.map_values(|i: Item| i@)
}

/// A copy of `units` with the same views in the same order.
pub fn clone_units(units: &Vec<Unit>) -> (copy: Vec<Unit>)
    ensures
        unit_views(copy@) == unit_views(units@),
{
    let mut copy: Vec<Unit> = Vec::new();
    let mut k: usize = 0;
    while k < units.len()
        invariant
            k <= units.len(),
            copy.len() == k,
            forall|j: int| 0 <= j < k ==> (#[trigger] copy@[j])@ == units@[j]@,
        decreases units.len() - k,
    {
        copy.push(units[k].clone());
        k += 1;
    }
    assert(unit_views(copy@) =~= unit_views(units@));
    copy
}

fn clone_text(text: &Option<String>) -> (copy: Option<String>)
    ensures
        copy == *text,
{
    match text {
        Some(s) => Some(s.clone()),
        None => None,
    }
}

impl Item {
    /// Generates a new item of `inventory`, without units, with a fresh
    /// identifier and the current time as its creation time.
    pub fn new(inventory: &Inventory, name: String, ean: Option<String>) -> (item: Self)
        ensures
            item@.inventory_uuid == inventory@.uuid,
            item@.name == name@,
            item@.units == Seq::<UnitView>::empty(),
            item@.ean == match ean {
                Some(code) => Some(code@),
                None => None,
            },
    {
        let item = Self {
            uuid: crate::ident::random_id(),
            inventory_uuid: *inventory.uuid(),
            name,
            units: Vec::new(),
            created_on: current_time(),
            ean,
        };
        assert(item@.units =~= Seq::<UnitView>::empty());
        item
    }

    /// The item with exactly the given fields.
    pub fn from_parts(
        uuid: Id,
        inventory_uuid: Id,
        name: String,
        units: Vec<Unit>,
        created_on: Timestamp,
        ean: Option<String>,
    ) -> (item: Self)
        ensures
            item@ == (ItemView {
                uuid,
                inventory_uuid,
                name: name@,
                units: unit_views(units@),
                created_on,
                ean: match ean {
                    Some(code) => Some(code@),
                    None => None,
                },
            }),
    {
        Self { uuid, inventory_uuid, name, units, created_on, ean }
    }

    /// The identifier of the item
    pub fn uuid(&self) -> (id: &Id)
        ensures
            *id == self@.uuid,
    {
        &self.uuid
    }

    /// The inventory which this item belongs to, by its identifier
    pub fn inventory(&self) -> (id: &Id)
        ensures
            *id == self@.inventory_uuid,
    {
        &self.inventory_uuid
    }

    /// The identifier of the inventory which this item belongs to
    pub fn inventory_uuid(&self) -> (id: &Id)
        ensures
            *id == self@.inventory_uuid,
    {
        &self.inventory_uuid
    }

    /// The name of the item
    pub fn name(&self) -> (name: &String)
        ensures
            name@ == self@.name,
    {
        &self.name
    }

    /// The units of the item
    pub fn units(&self) -> (units: &Vec<Unit>)
        ensures
            unit_views(units@) == self@.units,
    {
        &self.units
    }

    /// The timestamp of the creation of the item
    pub fn created_on(&self) -> (time: &Timestamp)
        ensures
            *time == self@.created_on,
    {
        &self.created_on
    }

    /// The EAN code of the item
    pub fn ean(&self) -> (code: &Option<String>)
        ensures
            match *code {
                Some(c) => self@.ean == Some(c@),
                None => self@.ean.is_none(),
            },
    {
        &self.ean
    }

    /// A copy of the item without its units: the form in which it is written
    /// to the log.
    pub fn flat(&self) -> (copy: Self)
        ensures
            copy@ == self@.flat(),
    {
        let copy = Self {
            uuid: self.uuid,
            inventory_uuid: self.inventory_uuid,
            name: self.name.clone(),
            units: Vec::new(),
            created_on: self.created_on,
            ean: clone_text(&self.ean),
        };
        assert(copy@.units =~= Seq::<UnitView>::empty());
        copy
    }

    /// The item with `units` in place of its own.
    pub fn with_units(self, units: Vec<Unit>) -> (item: Self)
        ensures
            item@ == self@.with_units(unit_views(units@)),
    {
        Self { units, ..self }
    }

    /// Hands out the units and leaves the rest behind.
    pub fn into_units(self) -> (units: Vec<Unit>)
        ensures
            unit_views(units@) == self@.units,
    {
        self.units
    }

    /// The place of the first unit with the identifier `id`, if there is one.
    pub fn find_unit(&self, id: &Id) -> (found: Option<usize>)
        ensures
            match found {
                Some(index) => is_first_unit(self@.units, *id, index as int),
                None => !has_unit(self@.units, *id),
            },
    {
        let mut k: usize = 0;
        while k < self.units.len()
            invariant
                k <= self.units.len(),
                forall|j: int| 0 <= j < k ==> (#[trigger] self@.units[j]).uuid != *id,
            decreases self.units.len() - k,
        {
            if *self.units[k].uuid() == *id {
                return Some(k);
            }
            k += 1;
        }
        None
    }

    /// Appends `unit` to the units of the item.
    pub fn push_unit(&mut self, unit: Unit)
        ensures
            final(self)@ == old(self)@.with_units(old(self)@.units.push(unit@)),
    {
        self.units.push(unit);
        assert(unit_views(self.units@) =~= unit_views(old(self).units@).push(unit@));
    }

    /// Puts `unit` in the place `index`, in place of the unit that was there.
    pub fn replace_unit(&mut self, index: usize, unit: Unit)
        requires
            index < old(self)@.units.len(),
        ensures
            final(self)@ == old(self)@.with_units(old(self)@.units.update(index as int, unit@)),
    {
        self.units.set(index, unit);
        assert(unit_views(self.units@) =~= unit_views(old(self).units@).update(index as int, unit@));
    }

    /// Takes the unit in the place `index` out of the item.
    pub fn remove_unit(&mut self, index: usize) -> (unit: Unit)
        requires
            index < old(self)@.units.len(),
        ensures
            unit@ == old(self)@.units[index as int],
            final(self)@ == old(self)@.with_units(old(self)@.units.remove(index as int)),
    {
        let unit = self.units.remove(index);
        assert(unit_views(self.units@) =~= unit_views(old(self).units@).remove(index as int));
        unit
    }
}

// The events that create, change and delete an item. Each carries the item
// without its units.
impl Item {
    /// Generates a new item of `inventory` and the event that creates it.
    pub fn create(inventory: &Inventory, name: String, ean: Option<String>) -> (event:
        ProjectionEvent)
        ensures
            event@.kind == EventKind::Create,
            match event@.entry {
                EntryView::Item(item) => {
                    &&& item.inventory_uuid == inventory@.uuid
                    &&& item.name == name@
                    &&& item.units == Seq::<UnitView>::empty()
                    &&& item.ean == match ean {
                        Some(code) => Some(code@),
                        None => None,
                    }
                },
                _ => false,
            },
    {
        ProjectionEvent::create(ProjectionEntry::Item(Self::new(inventory, name, ean)))
    }

    /// The event that deletes the item.
    pub fn delete(self) -> (event: ProjectionEvent)
        ensures
            event@ == (EventView { kind: EventKind::Delete, entry: EntryView::Item(self@.flat()) }),
    {
        let bare = self.with_units(Vec::new());
        assert(bare@.units =~= Seq::<UnitView>::empty());
        ProjectionEvent::delete(ProjectionEntry::Item(bare))
    }

    /// Moving an item to another inventory is not supported yet: there is no
    /// event for it, whatever the inventory.
    pub fn update_inventory(self, inventory: &Inventory) -> (event: Result<
        ProjectionEvent,
        StoreError,
    >)
        ensures
            event matches Err(error) && error is TransferNotSupported,
    {
        Err(StoreError::TransferNotSupported)
    }

    /// The event that gives the item the name `name`.
    pub fn update_name(self, name: String) -> (event: ProjectionEvent)
        ensures
            event@ == (EventView {
                kind: EventKind::Update,
                entry: EntryView::Item(ItemView { name: name@, ..self@.flat() }),
            }),
    {
        let changed = Self { units: Vec::new(), name, ..self };
        assert(changed@.units =~= Seq::<UnitView>::empty());
        ProjectionEvent::update(ProjectionEntry::Item(changed))
    }

    /// The event that gives the item the EAN code `ean`, or none.
    pub fn update_ean(self, ean: Option<String>) -> (event: ProjectionEvent)
        ensures
            event@ == (EventView {
                kind: EventKind::Update,
                entry: EntryView::Item(
                    ItemView {
                        ean: match ean {
                            Some(code) => Some(code@),
                            None => None,
                        },
                        ..self@.flat()
                    },
                ),
            }),
    {
        let changed = Self { units: Vec::new(), ean, ..self };
        assert(changed@.units =~= Seq::<UnitView>::empty());
        ProjectionEvent::update(ProjectionEntry::Item(changed))
    }
}

impl Clone for Item {
    fn clone(&self) -> (copy: Self)
        ensures
            copy@ == self@,
    {
        Self {
            uuid: self.uuid,
            inventory_uuid: self.inventory_uuid,
            name: self.name.clone(),
            units: clone_units(&self.units),
            created_on: self.created_on,
            ean: clone_text(&self.ean),
        }
    }
}

impl PartialEq for Item {
    /// Two items are the same item when their identifiers agree.
    fn eq(&self, other: &Self) -> (same: bool) {
        self.uuid == other.uuid
    }
}

impl vstd::std_specs::cmp::PartialEqSpecImpl for Item {
    open spec fn obeys_eq_spec() -> bool {
        true
    }

    open spec fn eq_spec(&self, other: &Self) -> bool {
        self@.uuid == other@.uuid
    }
}

} // verus!
