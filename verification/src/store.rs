//! Handles: one aggregate each, its log and the tree that the log stands
//! for; and the store that keeps them.
//!
//! Every mutation checks the request against the tree, submits the event to
//! the log, and changes the tree only once the log has accepted. A request
//! that is refused, by the check or by the log, changes nothing.
//!
//! The handle does not ask who is calling. Whoever offers a mutation to a
//! user asks `allow_write` or `allow_admin` first.

use crate::entry::{
    projects_to, EntryView, EventKind, EventView, ProjectionEntry, ProjectionEvent,
};
use crate::error::StoreError;
use crate::flatten::{flattened, lemma_flattened_reconstructs};
use crate::ident::Id;
use crate::inventory::{
    has_item, item_place, lemma_item_added_well_formed, lemma_item_place,
    lemma_item_removed_well_formed, lemma_item_replaced_well_formed,
    lemma_root_replaced_well_formed, lemma_unit_added_well_formed,
    lemma_unit_removed_well_formed, lemma_unit_replaced_well_formed, Inventory, InventoryView,
};
use crate::item::{has_unit, lemma_unit_place, unit_place, Item, ItemView};
use crate::log::{
    log_events, log_projection, log_segments, new_log, projection_entries, push_event,
    segment_count,
};
use crate::rebuild::{lemma_reconstruction_well_formed, reconstruct, reconstruction};
use crate::step::{
    entities_unique, in_step, lemma_item_created_in_step, lemma_item_deleted_in_step,
    lemma_item_updated_in_step, lemma_root_updated_in_step, lemma_unit_created_in_step,
    lemma_unit_deleted_in_step, lemma_unit_updated_in_step,
};
use crate::unit::{Unit, UnitView};
use libocc::Projector;
use vstd::prelude::*;

verus! {

/// The tree that a log stands for, or the reason why a handle cannot be made
/// of it: a log without a segment has no projection, and the projection of
/// any other must reconstruct.
pub open spec fn opening(log: Projector<'static, ProjectionEntry>) -> Result<
    InventoryView,
    StoreError,
> {
    if log_segments(log) == 0 {
        Err(StoreError::EmptyLog)
    } else {
        reconstruction(log_projection(log))
    }
}

/// One aggregate: the log of one inventory and the tree that was rebuilt
/// from it and has followed it since.
pub struct InventoryHandle {
    projector: Projector<'static, ProjectionEntry>,
    inventory: Inventory,
    deleted: bool,
}

impl InventoryHandle {
    /// The handle is one that `try_from` made and the mutations have kept:
    /// its log has a segment to write to, and its tree is well-formed.
    pub closed spec fn well_formed(self) -> bool {
        log_segments(self.projector) > 0 && self.inventory@.well_formed()
    }

    /// The tree of the aggregate, as a mathematical value.
    pub closed spec fn tree(self) -> InventoryView {
        self.inventory@
    }

    /// The projection that the log holds.
    pub closed spec fn projection(self) -> Seq<EntryView> {
        log_projection(self.projector)
    }

    /// The events that the log holds, oldest first.
    pub closed spec fn events(self) -> Seq<EventView> {
        log_events(self.projector)
    }

    /// The inventory was deleted through this handle.
    pub closed spec fn is_deleted(self) -> bool {
        self.deleted
    }

    /// The log that the handle owns.
    pub closed spec fn log(self) -> Projector<'static, ProjectionEntry> {
        self.projector
    }

    /// The tree and the log are in step: the projection of the log holds
    /// every entity once, and the tree is what it reconstructs to. A handle
    /// starts in step and every accepted mutation keeps it so, but for two:
    /// the deletion of the inventory, after which the projection holds no
    /// inventory, and the deletion of an item that has units, whose payloads
    /// stay behind in the projection.
    pub open spec fn in_step(self) -> bool {
        in_step(self.tree(), self.projection())
    }

    /// Nothing has changed since `before`: neither the tree nor the log.
    pub open spec fn same_as(self, before: InventoryHandle) -> bool {
        &&& self.tree() == before.tree()
        &&& self.projection() == before.projection()
        &&& self.events() == before.events()
        &&& self.is_deleted() == before.is_deleted()
    }

    /// What a mutation that passed its check leaves behind. Where the log
    /// accepted `event`, it is the last event of the log, the projection has
    /// followed it, and the tree is `tree`. Where the log refused, the
    /// result is a conflict and nothing has changed since `before`.
    pub open spec fn settled(
        self,
        before: InventoryHandle,
        event: EventView,
        tree: InventoryView,
        deleted: bool,
        result: Result<(), StoreError>,
    ) -> bool {
        match result {
            Ok(()) => {
                &&& self.tree() == tree
                &&& self.is_deleted() == deleted
                &&& self.events() == before.events().push(event)
                &&& projects_to(before.projection(), event, self.projection())
            },
            Err(error) => error is Conflict && self.same_as(before),
        }
    }

    /// Why `update_inventory` refuses `snapshot` before it asks the log.
    pub open spec fn root_update_refusal(self, snapshot: InventoryView) -> Option<StoreError> {
        if self.is_deleted() {
            Some(StoreError::AggregateDeleted)
        } else if snapshot.uuid != self.tree().uuid {
            Some(StoreError::InventoryNotFound)
        } else {
            None
        }
    }

    /// Why `delete_inventory` refuses before it asks the log.
    pub open spec fn root_delete_refusal(self) -> Option<StoreError> {
        if self.is_deleted() {
            Some(StoreError::AggregateDeleted)
        } else {
            None
        }
    }

    /// Why `create_item` refuses `item` before it asks the log.
    pub open spec fn item_create_refusal(self, item: ItemView) -> Option<StoreError> {
        if self.is_deleted() {
            Some(StoreError::AggregateDeleted)
        } else if item.inventory_uuid != self.tree().uuid {
            Some(StoreError::OrphanItem)
        } else if has_item(self.tree().items, item.uuid) {
            Some(StoreError::DuplicateEntityIdentifier)
        } else {
            None
        }
    }

    /// Why `update_item` refuses `item` before it asks the log.
    pub open spec fn item_update_refusal(self, item: ItemView) -> Option<StoreError> {
        if self.is_deleted() {
            Some(StoreError::AggregateDeleted)
        } else if !has_item(self.tree().items, item.uuid) {
            Some(StoreError::ItemNotFound)
        } else if item.inventory_uuid != self.tree().uuid {
            Some(StoreError::TransferNotSupported)
        } else {
            None
        }
    }

    /// Why `delete_item` refuses `item` before it asks the log.
    pub open spec fn item_delete_refusal(self, item: ItemView) -> Option<StoreError> {
        if self.is_deleted() {
            Some(StoreError::AggregateDeleted)
        } else if !has_item(self.tree().items, item.uuid) {
            Some(StoreError::ItemNotFound)
        } else {
            None
        }
    }

    /// Why `create_unit` refuses `unit` before it asks the log.
    pub open spec fn unit_create_refusal(self, unit: UnitView) -> Option<StoreError> {
        if self.is_deleted() {
            Some(StoreError::AggregateDeleted)
        } else if !has_item(self.tree().items, unit.item_uuid) {
            Some(StoreError::ItemNotFound)
        } else {
            None
        }
    }

    /// Why `update_unit` and `delete_unit` refuse `unit` before they ask the
    /// log.
    pub open spec fn unit_change_refusal(self, unit: UnitView) -> Option<StoreError> {
        if self.is_deleted() {
            Some(StoreError::AggregateDeleted)
        } else if !has_item(self.tree().items, unit.item_uuid) {
            Some(StoreError::ItemNotFound)
        } else if !has_unit(
            self.tree().items[item_place(self.tree().items, unit.item_uuid)].units,
            unit.uuid,
        ) {
            Some(StoreError::UnitNotFound)
        } else {
            None
        }
    }

    /// Starts the aggregate of `inventory`: a new log with the event that
    /// creates the inventory, and the inventory as the tree. The items that
    /// `inventory` may carry are left out of both.
    pub fn create(inventory: Inventory) -> (result: Result<Self, StoreError>)
        ensures
            match result {
                Ok(handle) => {
                    &&& handle.well_formed()
                    &&& handle.tree() == inventory@.flat()
                    &&& !handle.is_deleted()
                    &&& handle.events() == seq![
                        EventView {
                            kind: EventKind::Create,
                            entry: EntryView::Inventory(inventory@.flat()),
                        },
                    ]
                    &&& handle.projection() == seq![EntryView::Inventory(inventory@.flat())]
                    &&& handle.in_step()
                },
                Err(error) => error is Conflict,
            },
    {
        let mut projector = new_log();
        let event = ProjectionEvent::create(ProjectionEntry::of_inventory(&inventory));
        match StoreError::surface(push_event(&mut projector, event)) {
            Err(error) => Err(error),
            Ok(()) => {
                let inventory = inventory.with_items(Vec::new());
                assert(inventory@.items =~= Seq::<ItemView>::empty());
                assert(log_events(projector) =~= seq![event@]);
                assert(log_projection(projector) =~= seq![event@.entry]);
                proof {
                    lemma_flattened_reconstructs(inventory@);
                    assert(flattened(inventory@) =~= seq![event@.entry]);
                }
                Ok(InventoryHandle { projector, inventory, deleted: false })
            },
        }
    }

    /// Makes a handle of a log: rebuilds the tree from the log's projection.
    pub fn try_from(projector: Projector<'static, ProjectionEntry>) -> (result: Result<
        Self,
        StoreError,
    >)
        ensures
            match result {
                Ok(handle) => {
                    &&& handle.well_formed()
                    &&& opening(projector) == Ok::<InventoryView, StoreError>(handle.tree())
                    &&& handle.log() == projector
                    &&& !handle.is_deleted()
                    &&& entities_unique(log_projection(projector)) ==> handle.in_step()
                },
                Err(error) => opening(projector) == Err::<InventoryView, StoreError>(error),
            },
    {
        if segment_count(&projector) == 0 {
            return Err(StoreError::EmptyLog);
        }
        let entries = projection_entries(&projector);
        match reconstruct(&entries) {
            Ok(inventory) => {
                proof {
                    lemma_reconstruction_well_formed(log_projection(projector));
                }
                Ok(InventoryHandle { projector, inventory, deleted: false })
            },
            Err(error) => Err(error),
        }
    }

    /// The log of the aggregate.
    pub fn get_projector(&self) -> (projector: &Projector<'static, ProjectionEntry>)
        ensures
            *projector == self.log(),
    {
        &self.projector
    }

    /// Hands out the log and gives up the tree.
    pub fn into_projector(self) -> (projector: Projector<'static, ProjectionEntry>)
        ensures
            projector == self.log(),
    {
        self.projector
    }

    /// The tree of the aggregate. It is well-formed: every item names the
    /// inventory, every unit the item that holds it, and no two items share
    /// an identifier.
    pub fn inventory(&self) -> (inventory: &Inventory)
        ensures
            inventory@ == self.tree(),
            self.well_formed() ==> inventory@.well_formed(),
    {
        &self.inventory
    }

    /// Whether the inventory was deleted through this handle. A handle of a
    /// deleted inventory takes no further mutation.
    pub fn deleted(&self) -> (deleted: bool)
        ensures
            deleted == self.is_deleted(),
    {
        self.deleted
    }

    /// Whether `user_uuid` owns the inventory.
    pub fn is_owned_by(&self, user_uuid: &Id) -> (allowed: bool)
        ensures
            allowed == self.tree().owned_by(*user_uuid),
    {
        self.inventory.is_owned_by(user_uuid)
    }

    /// Whether `user_uuid` may administer the inventory.
    pub fn allow_admin(&self, user_uuid: &Id) -> (allowed: bool)
        ensures
            allowed == self.tree().admits_admin(*user_uuid),
    {
        self.inventory.allow_admin(user_uuid)
    }

    /// Whether `user_uuid` may change the inventory.
    pub fn allow_write(&self, user_uuid: &Id) -> (allowed: bool)
        ensures
            allowed == self.tree().admits_write(*user_uuid),
    {
        self.inventory.allow_write(user_uuid)
    }

    /// Whether `user_uuid` may read the inventory.
    pub fn allow_read(&self, user_uuid: &Id) -> (allowed: bool)
        ensures
            allowed == self.tree().admits_read(*user_uuid),
    {
        self.inventory.allow_read(user_uuid)
    }

    /// Replaces the fields of the inventory by those of `inventory`. The
    /// items stay: those that `inventory` may carry are left out of the event
    /// and of the tree.
    pub fn update_inventory(&mut self, inventory: Inventory) -> (result: Result<(), StoreError>)
        requires
            old(self).well_formed(),
        ensures
            final(self).well_formed(),
            old(self).in_step() && result is Ok ==> final(self).in_step(),
            match old(self).root_update_refusal(inventory@) {
                Some(error) => result == Err::<(), StoreError>(error) && final(self).same_as(
                    *old(self),
                ),
                None => final(self).settled(
                    *old(self),
                    EventView {
                        kind: EventKind::Update,
                        entry: EntryView::Inventory(inventory@.flat()),
                    },
                    old(self).tree().root_replaced(inventory@),
                    false,
                    result,
                ),
            },
    {
        if self.deleted {
            return Err(StoreError::AggregateDeleted);
        }
        if *inventory.uuid() != *self.inventory.uuid() {
            return Err(StoreError::InventoryNotFound);
        }
        let event = ProjectionEvent::update(ProjectionEntry::of_inventory(&inventory));
        match StoreError::surface(push_event(&mut self.projector, event)) {
            Err(error) => Err(error),
            Ok(()) => {
                proof {
                    lemma_root_replaced_well_formed(self.inventory@, inventory@);
                    if old(self).in_step() {
                        lemma_root_updated_in_step(
                            old(self).tree(),
                            old(self).projection(),
                            inventory@,
                            self.projection(),
                        );
                    }
                }
                self.inventory.replace_root(inventory);
                Ok(())
            },
        }
    }

    /// Deletes the inventory. The handle stays readable and takes no further
    /// mutation.
    pub fn delete_inventory(&mut self) -> (result: Result<(), StoreError>)
        requires
            old(self).well_formed(),
        ensures
            final(self).well_formed(),
            match old(self).root_delete_refusal() {
                Some(error) => result == Err::<(), StoreError>(error) && final(self).same_as(
                    *old(self),
                ),
                None => final(self).settled(
                    *old(self),
                    EventView {
                        kind: EventKind::Delete,
                        entry: EntryView::Inventory(old(self).tree().flat()),
                    },
                    old(self).tree(),
                    true,
                    result,
                ),
            },
    {
        if self.deleted {
            return Err(StoreError::AggregateDeleted);
        }
        let event = ProjectionEvent::delete(ProjectionEntry::of_inventory(&self.inventory));
        match StoreError::surface(push_event(&mut self.projector, event)) {
            Err(error) => Err(error),
            Ok(()) => {
                self.deleted = true;
                Ok(())
            },
        }
    }

    /// Creates `item` in the inventory: it must name the inventory and be
    /// new to it. It comes last, without the units it may carry.
    pub fn create_item(&mut self, item: Item) -> (result: Result<(), StoreError>)
        requires
            old(self).well_formed(),
        ensures
            final(self).well_formed(),
            old(self).in_step() && result is Ok ==> final(self).in_step(),
            match old(self).item_create_refusal(item@) {
                Some(error) => result == Err::<(), StoreError>(error) && final(self).same_as(
                    *old(self),
                ),
                None => final(self).settled(
                    *old(self),
                    EventView { kind: EventKind::Create, entry: EntryView::Item(item@.flat()) },
                    old(self).tree().item_added(item@),
                    false,
                    result,
                ),
            },
    {
        if self.deleted {
            return Err(StoreError::AggregateDeleted);
        }
        if *item.inventory_uuid() != *self.inventory.uuid() {
            return Err(StoreError::OrphanItem);
        }
        if self.inventory.find_item(item.uuid()).is_some() {
            return Err(StoreError::DuplicateEntityIdentifier);
        }
        let event = ProjectionEvent::create(ProjectionEntry::of_item(&item));
        match StoreError::surface(push_event(&mut self.projector, event)) {
            Err(error) => Err(error),
            Ok(()) => {
                proof {
                    lemma_item_added_well_formed(self.inventory@, item@);
                    if old(self).in_step() {
                        lemma_item_created_in_step(
                            old(self).tree(),
                            old(self).projection(),
                            item@,
                            self.projection(),
                        );
                    }
                }
                self.inventory.push_item(item);
                Ok(())
            },
        }
    }

    /// Replaces the item with the identifier of `item` by `item`. The units
    /// of the item stay: those that `item` may carry are left out of the
    /// event and of the tree.
    pub fn update_item(&mut self, item: Item) -> (result: Result<(), StoreError>)
        requires
            old(self).well_formed(),
        ensures
            final(self).well_formed(),
            old(self).in_step() && result is Ok ==> final(self).in_step(),
            match old(self).item_update_refusal(item@) {
                Some(error) => result == Err::<(), StoreError>(error) && final(self).same_as(
                    *old(self),
                ),
                None => final(self).settled(
                    *old(self),
                    EventView { kind: EventKind::Update, entry: EntryView::Item(item@.flat()) },
                    old(self).tree().item_replaced(
                        item_place(old(self).tree().items, item@.uuid),
                        item@,
                    ),
                    false,
                    result,
                ),
            },
    {
        if self.deleted {
            return Err(StoreError::AggregateDeleted);
        }
        let index = match self.inventory.find_item(item.uuid()) {
            Some(index) => index,
            None => {
                return Err(StoreError::ItemNotFound);
            },
        };
        proof {
            lemma_item_place(self.inventory@.items, item@.uuid, index as int);
        }
        if *item.inventory_uuid() != *self.inventory.uuid() {
            return Err(StoreError::TransferNotSupported);
        }
        let event = ProjectionEvent::update(ProjectionEntry::of_item(&item));
        match StoreError::surface(push_event(&mut self.projector, event)) {
            Err(error) => Err(error),
            Ok(()) => {
                proof {
                    lemma_item_replaced_well_formed(self.inventory@, index as int, item@);
                    if old(self).in_step() {
                        lemma_item_updated_in_step(
                            old(self).tree(),
                            old(self).projection(),
                            index as int,
                            item@,
                            self.projection(),
                        );
                    }
                }
                self.inventory.replace_item(index, item);
                Ok(())
            },
        }
    }

    /// Deletes the item with the identifier of `item`, and its units with
    /// it.
    pub fn delete_item(&mut self, item: Item) -> (result: Result<(), StoreError>)
        requires
            old(self).well_formed(),
        ensures
            final(self).well_formed(),
            old(self).in_step() && result is Ok && old(self).tree().items[item_place(
                old(self).tree().items,
                item@.uuid,
            )].units.len() == 0 ==> final(self).in_step(),
            match old(self).item_delete_refusal(item@) {
                Some(error) => result == Err::<(), StoreError>(error) && final(self).same_as(
                    *old(self),
                ),
                None => final(self).settled(
                    *old(self),
                    EventView { kind: EventKind::Delete, entry: EntryView::Item(item@.flat()) },
                    old(self).tree().item_removed(item_place(old(self).tree().items, item@.uuid)),
                    false,
                    result,
                ),
            },
    {
        if self.deleted {
            return Err(StoreError::AggregateDeleted);
        }
        let index = match self.inventory.find_item(item.uuid()) {
            Some(index) => index,
            None => {
                return Err(StoreError::ItemNotFound);
            },
        };
        proof {
            lemma_item_place(self.inventory@.items, item@.uuid, index as int);
        }
        let event = ProjectionEvent::delete(ProjectionEntry::of_item(&item));
        match StoreError::surface(push_event(&mut self.projector, event)) {
            Err(error) => Err(error),
            Ok(()) => {
                proof {
                    lemma_item_removed_well_formed(self.inventory@, index as int);
                    if old(self).in_step() && old(self).tree().items[index as int].units.len()
                        == 0 {
                        lemma_item_deleted_in_step(
                            old(self).tree(),
                            old(self).projection(),
                            index as int,
                            item@,
                            self.projection(),
                        );
                    }
                }
                self.inventory.remove_item(index);
                Ok(())
            },
        }
    }

    /// Creates `unit` in the item that it names: it comes last among the
    /// units of that item.
    pub fn create_unit(&mut self, unit: Unit) -> (result: Result<(), StoreError>)
        requires
            old(self).well_formed(),
        ensures
            final(self).well_formed(),
            old(self).in_step() && result is Ok ==> final(self).in_step(),
            match old(self).unit_create_refusal(unit@) {
                Some(error) => result == Err::<(), StoreError>(error) && final(self).same_as(
                    *old(self),
                ),
                None => final(self).settled(
                    *old(self),
                    EventView { kind: EventKind::Create, entry: EntryView::Unit(unit@) },
                    old(self).tree().unit_added(
                        item_place(old(self).tree().items, unit@.item_uuid),
                        unit@,
                    ),
                    false,
                    result,
                ),
            },
    {
        if self.deleted {
            return Err(StoreError::AggregateDeleted);
        }
        let index = match self.inventory.find_item(unit.item_uuid()) {
            Some(index) => index,
            None => {
                return Err(StoreError::ItemNotFound);
            },
        };
        proof {
            lemma_item_place(self.inventory@.items, unit@.item_uuid, index as int);
        }
        let event = ProjectionEvent::create(ProjectionEntry::of_unit(&unit));
        match StoreError::surface(push_event(&mut self.projector, event)) {
            Err(error) => Err(error),
            Ok(()) => {
                proof {
                    lemma_unit_added_well_formed(self.inventory@, index as int, unit@);
                    if old(self).in_step() {
                        lemma_unit_created_in_step(
                            old(self).tree(),
                            old(self).projection(),
                            index as int,
                            unit@,
                            self.projection(),
                        );
                    }
                }
                self.inventory.push_unit(index, unit);
                Ok(())
            },
        }
    }

    /// Replaces the unit with the identifier of `unit`, in the item that
    /// `unit` names, by `unit`.
    pub fn update_unit(&mut self, unit: Unit) -> (result: Result<(), StoreError>)
        requires
            old(self).well_formed(),
        ensures
            final(self).well_formed(),
            old(self).in_step() && result is Ok ==> final(self).in_step(),
            match old(self).unit_change_refusal(unit@) {
                Some(error) => result == Err::<(), StoreError>(error) && final(self).same_as(
                    *old(self),
                ),
                None => final(self).settled(
                    *old(self),
                    EventView { kind: EventKind::Update, entry: EntryView::Unit(unit@) },
                    old(self).tree().unit_replaced(
                        item_place(old(self).tree().items, unit@.item_uuid),
                        unit_place(
                            old(self).tree().items[item_place(
                                old(self).tree().items,
                                unit@.item_uuid,
                            )].units,
                            unit@.uuid,
                        ),
                        unit@,
                    ),
                    false,
                    result,
                ),
            },
    {
        if self.deleted {
            return Err(StoreError::AggregateDeleted);
        }
        let index = match self.inventory.find_item(unit.item_uuid()) {
            Some(index) => index,
            None => {
                return Err(StoreError::ItemNotFound);
            },
        };
        proof {
            lemma_item_place(self.inventory@.items, unit@.item_uuid, index as int);
        }
        let place = match self.inventory.find_unit(index, unit.uuid()) {
            Some(place) => place,
            None => {
                return Err(StoreError::UnitNotFound);
            },
        };
        proof {
            lemma_unit_place(self.inventory@.items[index as int].units, unit@.uuid, place as int);
        }
        let event = ProjectionEvent::update(ProjectionEntry::of_unit(&unit));
        match StoreError::surface(push_event(&mut self.projector, event)) {
            Err(error) => Err(error),
            Ok(()) => {
                proof {
                    lemma_unit_replaced_well_formed(
                        self.inventory@,
                        index as int,
                        place as int,
                        unit@,
                    );
                    if old(self).in_step() {
                        lemma_unit_updated_in_step(
                            old(self).tree(),
                            old(self).projection(),
                            index as int,
                            place as int,
                            unit@,
                            self.projection(),
                        );
                    }
                }
                self.inventory.replace_unit(index, place, unit);
                Ok(())
            },
        }
    }

    /// Deletes the unit with the identifier of `unit` from the item that
    /// `unit` names.
    pub fn delete_unit(&mut self, unit: Unit) -> (result: Result<(), StoreError>)
        requires
            old(self).well_formed(),
        ensures
            final(self).well_formed(),
            old(self).in_step() && result is Ok ==> final(self).in_step(),
            match old(self).unit_change_refusal(unit@) {
                Some(error) => result == Err::<(), StoreError>(error) && final(self).same_as(
                    *old(self),
                ),
                None => final(self).settled(
                    *old(self),
                    EventView { kind: EventKind::Delete, entry: EntryView::Unit(unit@) },
                    old(self).tree().unit_removed(
                        item_place(old(self).tree().items, unit@.item_uuid),
                        unit_place(
                            old(self).tree().items[item_place(
                                old(self).tree().items,
                                unit@.item_uuid,
                            )].units,
                            unit@.uuid,
                        ),
                    ),
                    false,
                    result,
                ),
            },
    {
        if self.deleted {
            return Err(StoreError::AggregateDeleted);
        }
        let index = match self.inventory.find_item(unit.item_uuid()) {
            Some(index) => index,
            None => {
                return Err(StoreError::ItemNotFound);
            },
        };
        proof {
            lemma_item_place(self.inventory@.items, unit@.item_uuid, index as int);
        }
        let place = match self.inventory.find_unit(index, unit.uuid()) {
            Some(place) => place,
            None => {
                return Err(StoreError::UnitNotFound);
            },
        };
        proof {
            lemma_unit_place(self.inventory@.items[index as int].units, unit@.uuid, place as int);
        }
        let event = ProjectionEvent::delete(ProjectionEntry::of_unit(&unit));
        match StoreError::surface(push_event(&mut self.projector, event)) {
            Err(error) => Err(error),
            Ok(()) => {
                proof {
                    lemma_unit_removed_well_formed(self.inventory@, index as int, place as int);
                    if old(self).in_step() {
                        lemma_unit_deleted_in_step(
                            old(self).tree(),
                            old(self).projection(),
                            index as int,
                            place as int,
                            unit@,
                            self.projection(),
                        );
                    }
                }
                self.inventory.remove_unit(index, place);
                Ok(())
            },
        }
    }
}

/// Updating the inventory with the snapshot that the handle holds is never
/// refused by the check, and leaves the tree as it was whatever the log
/// answers: where the log accepts, one update event has joined the log.
pub proof fn lemma_update_with_current_snapshot(
    before: InventoryHandle,
    after: InventoryHandle,
    result: Result<(), StoreError>,
)
    requires
        !before.is_deleted(),
        after.settled(
            before,
            EventView { kind: EventKind::Update, entry: EntryView::Inventory(before.tree().flat()) },
            before.tree().root_replaced(before.tree()),
            false,
            result,
        ),
    ensures
        before.root_update_refusal(before.tree()).is_none(),
        after.tree() == before.tree(),
        !after.is_deleted(),
        result is Ok ==> after.events() == before.events().push(
            EventView { kind: EventKind::Update, entry: EntryView::Inventory(before.tree().flat()) },
        ),
{
    crate::inventory::lemma_root_replaced_by_itself(before.tree());
}

/// The items of `items` in the opposite order.
fn reversed<T>(items: Vec<T>) -> (turned: Vec<T>)
    ensures
        turned@.len() == items@.len(),
        forall|k: int| 0 <= k < turned@.len() ==> turned@[k] == items@[items@.len() - 1 - k],
{
    let ghost given = items@;
    let mut rest = items;
    let mut turned: Vec<T> = Vec::new();
    while rest.len() > 0
        invariant
            rest@.len() + turned@.len() == given.len(),
            rest@ == given.take(rest@.len() as int),
            forall|k: int| 0 <= k < turned@.len() ==> turned@[k] == given[given.len() - 1 - k],
        decreases rest.len(),
    {
        let last = rest.pop().unwrap();
        turned.push(last);
        assert(rest@ =~= given.take(rest@.len() as int));
    }
    turned
}

/// A registry of aggregates, one handle for each inventory. Each is a
/// consistency domain of its own: no operation spans two of them.
pub struct Store {
    inventory_handles: Vec<InventoryHandle>,
}

impl Store {
    /// The handles of the store, in their order.
    pub closed spec fn handles(self) -> Seq<InventoryHandle> {
        self.inventory_handles@
    }

    /// Every handle of the store is well-formed.
    pub open spec fn well_formed(self) -> bool {
        forall|k: int| 0 <= k < self.handles().len() ==> (#[trigger] self.handles()[k]).well_formed()
    }

    /// A store without inventories.
    pub fn new() -> (store: Self)
        ensures
            store.handles().len() == 0,
            store.well_formed(),
    {
        Self { inventory_handles: Vec::new() }
    }

    /// Makes a store of the logs of its inventories: a handle of each, in
    /// their order. The first log that gives no handle fails the whole store
    /// with its error.
    pub fn try_from(projectors: Vec<Projector<'static, ProjectionEntry>>) -> (result: Result<
        Self,
        StoreError,
    >)
        ensures
            match result {
                Ok(store) => {
                    &&& store.well_formed()
                    &&& store.handles().len() == projectors@.len()
                    &&& forall|k: int|
                        0 <= k < projectors@.len() ==> {
                            &&& opening(#[trigger] projectors@[k]) == Ok::<
                                InventoryView,
                                StoreError,
                            >(store.handles()[k].tree())
                            &&& store.handles()[k].log() == projectors@[k]
                            &&& !store.handles()[k].is_deleted()
                        }
                },
                Err(error) => exists|k: int|
                    {
                        &&& 0 <= k < projectors@.len()
                        &&& opening(#[trigger] projectors@[k]) == Err::<InventoryView, StoreError>(
                            error,
                        )
                        &&& forall|j: int| 0 <= j < k ==> opening(#[trigger] projectors@[j]) is Ok
                    },
            },
    {
        let ghost given = projectors@;
        let mut pending = reversed(projectors);
        let mut inventory_handles: Vec<InventoryHandle> = Vec::new();
        while pending.len() > 0
            invariant
                given == projectors@,
                pending@.len() + inventory_handles@.len() == given.len(),
                forall|k: int|
                    0 <= k < pending@.len() ==> pending@[k] == given[given.len() - 1 - k],
                forall|k: int|
                    0 <= k < inventory_handles@.len() ==> {
                        &&& (#[trigger] inventory_handles@[k]).well_formed()
                        &&& opening(given[k]) == Ok::<InventoryView, StoreError>(
                            inventory_handles@[k].tree(),
                        )
                        &&& inventory_handles@[k].log() == given[k]
                        &&& !inventory_handles@[k].is_deleted()
                    },
            decreases pending.len(),
        {
            let ghost place = inventory_handles@.len() as int;
            let projector = pending.pop().unwrap();
            assert(projector == given[place]);
            match InventoryHandle::try_from(projector) {
                Ok(handle) => {
                    inventory_handles.push(handle);
                },
                Err(error) => {
                    assert(opening(given[place]) == Err::<InventoryView, StoreError>(error));
                    assert forall|j: int| 0 <= j < place implies opening(
                        #[trigger] given[j],
                    ) is Ok by {
                        assert(inventory_handles@[j].well_formed());
                    }
                    return Err(error);
                },
            }
        }
        Ok(Self { inventory_handles })
    }

    /// Hands out the logs of the inventories, in the order of their handles,
    /// and gives up the trees.
    pub fn into_projectors(self) -> (projectors: Vec<Projector<'static, ProjectionEntry>>)
        ensures
            projectors@.len() == self.handles().len(),
            forall|k: int|
                0 <= k < projectors@.len() ==> projectors@[k] == (#[trigger] self.handles()[k]).log(),
    {
        let ghost given = self.inventory_handles@;
        let mut pending = reversed(self.inventory_handles);
        let mut projectors: Vec<Projector<'static, ProjectionEntry>> = Vec::new();
        while pending.len() > 0
            invariant
                pending@.len() + projectors@.len() == given.len(),
                forall|k: int|
                    0 <= k < pending@.len() ==> pending@[k] == given[given.len() - 1 - k],
                forall|k: int| 0 <= k < projectors@.len() ==> projectors@[k] == given[k].log(),
            decreases pending.len(),
        {
            let handle = pending.pop().unwrap();
            projectors.push(handle.into_projector());
        }
        projectors
    }

    /// The handles of the store.
    pub fn inventory_handles(&self) -> (handles: &Vec<InventoryHandle>)
        ensures
            handles@ == self.handles(),
    {
        &self.inventory_handles
    }

    /// Adds the aggregate of `handle` to the store: it comes last.
    pub fn insert(&mut self, handle: InventoryHandle)
        ensures
            final(self).handles() == old(self).handles().push(handle),
            old(self).well_formed() && handle.well_formed() ==> final(self).well_formed(),
    {
        self.inventory_handles.push(handle);
        proof {
            if old(self).well_formed() && handle.well_formed() {
                assert forall|k: int| 0 <= k < self.handles().len() implies (
                #[trigger] self.handles()[k]).well_formed() by {
                    if k < old(self).handles().len() {
                        assert(self.handles()[k] == old(self).handles()[k]);
                    }
                }
            }
        }
    }

    /// Takes the handle in the place `index` out of the store, to read or
    /// change its aggregate.
    pub fn take(&mut self, index: usize) -> (handle: Option<InventoryHandle>)
        ensures
            match handle {
                Some(taken) => {
                    &&& index < old(self).handles().len()
                    &&& taken == old(self).handles()[index as int]
                    &&& final(self).handles() == old(self).handles().remove(index as int)
                    &&& old(self).well_formed() ==> taken.well_formed() && final(self).well_formed()
                },
                None => index >= old(self).handles().len() && final(self).handles() == old(
                    self,
                ).handles(),
            },
    {
        if index < self.inventory_handles.len() {
            let taken = self.inventory_handles.remove(index);
            proof {
                if old(self).well_formed() {
                    assert(old(self).handles()[index as int].well_formed());
                    assert forall|k: int| 0 <= k < self.handles().len() implies (
                    #[trigger] self.handles()[k]).well_formed() by {
                        if k < index {
                            assert(self.handles()[k] == old(self).handles()[k]);
                        } else {
                            assert(self.handles()[k] == old(self).handles()[k + 1]);
                        }
                    }
                }
            }
            Some(taken)
        } else {
            None
        }
    }
}

} // verus!
