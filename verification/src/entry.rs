//! The flat payloads that the log stores, and the events that carry them.

use crate::inventory::{Inventory, InventoryView};
use crate::item::{Item, ItemView};
use crate::unit::{Unit, UnitView};
use vstd::prelude::*;

verus! {

/// A snapshot of exactly one entity. The log stores nothing else: a tree is
/// written as one payload for each of its entities, an inventory without its
/// items and an item without its units.
#[derive(Debug)]
pub enum ProjectionEntry {
    Inventory(Inventory),
    Item(Item),
    Unit(Unit),
}

/// What a payload is, as a mathematical value.
pub enum EntryView {
    Inventory(InventoryView),
    Item(ItemView),
    Unit(UnitView),
}

impl EntryView {
    /// Two payloads speak of the same entity: they are of the same kind and
    /// their identifiers agree.
    pub open spec fn same_entity(self, other: EntryView) -> bool {
        match (self, other) {
            (EntryView::Inventory(s), EntryView::Inventory(o)) => s.uuid == o.uuid,
            (EntryView::Item(s), EntryView::Item(o)) => s.uuid == o.uuid,
            (EntryView::Unit(s), EntryView::Unit(o)) => s.uuid == o.uuid,
            _ => false,
        }
    }

    /// The payload carries no children.
    pub open spec fn is_flat(self) -> bool {
        match self {
            EntryView::Inventory(i) => i.items.len() == 0,
            EntryView::Item(i) => i.units.len() == 0,
            EntryView::Unit(_) => true,
        }
    }

    /// The payload without the children it may carry.
    pub open spec fn flat(self) -> EntryView {
        match self {
            EntryView::Inventory(i) => EntryView::Inventory(i.flat()),
            EntryView::Item(i) => EntryView::Item(i.flat()),
            EntryView::Unit(u) => EntryView::Unit(u),
        }
    }
}

impl View for ProjectionEntry {
    type V = EntryView;

    open spec fn view(&self) -> EntryView {
        match self {
            ProjectionEntry::Inventory(i) => EntryView::Inventory(i@),
            ProjectionEntry::Item(i) => EntryView::Item(i@),
            ProjectionEntry::Unit(u) => EntryView::Unit(u@),
        }
    }
}

/// The views of a sequence of payloads, in the same order.
pub open spec fn entry_views(entries: Seq<ProjectionEntry>) -> Seq<EntryView> {
    entries.map_values(|e: ProjectionEntry| e@)
}

impl ProjectionEntry {
    /// The payload for `inventory`: a copy of it without its items.
    pub fn of_inventory(inventory: &Inventory) -> (entry: Self)
        ensures
            entry@ == EntryView::Inventory(inventory@.flat()),
            entry@.is_flat(),
    {
        ProjectionEntry::Inventory(inventory.flat())
    }

    /// The payload for `item`: a copy of it without its units.
    pub fn of_item(item: &Item) -> (entry: Self)
        ensures
            entry@ == EntryView::Item(item@.flat()),
            entry@.is_flat(),
    {
        ProjectionEntry::Item(item.flat())
    }

    /// The payload for `unit`: a copy of it.
    pub fn of_unit(unit: &Unit) -> (entry: Self)
        ensures
            entry@ == EntryView::Unit(unit@),
            entry@.is_flat(),
    {
        ProjectionEntry::Unit(unit.clone())
    }
}

impl Clone for ProjectionEntry {
    fn clone(&self) -> (copy: Self)
        ensures
            copy@ == self@,
    {
        match self {
            ProjectionEntry::Inventory(i) => ProjectionEntry::Inventory(i.clone()),
            ProjectionEntry::Item(i) => ProjectionEntry::Item(i.clone()),
            ProjectionEntry::Unit(u) => ProjectionEntry::Unit(u.clone()),
        }
    }
}

impl PartialEq for ProjectionEntry {
    /// Payloads of the same kind are equal when the entities in them are;
    /// payloads of different kinds never are.
    fn eq(&self, other: &Self) -> (same: bool) {
        match (self, other) {
            (ProjectionEntry::Inventory(s), ProjectionEntry::Inventory(o)) => s.uuid() == o.uuid(),
            (ProjectionEntry::Item(s), ProjectionEntry::Item(o)) => s.uuid() == o.uuid(),
            (ProjectionEntry::Unit(s), ProjectionEntry::Unit(o)) => s.uuid() == o.uuid(),
            (ProjectionEntry::Inventory(_), ProjectionEntry::Item(_)) => false,
            (ProjectionEntry::Inventory(_), ProjectionEntry::Unit(_)) => false,
            (ProjectionEntry::Item(_), ProjectionEntry::Inventory(_)) => false,
            (ProjectionEntry::Item(_), ProjectionEntry::Unit(_)) => false,
            (ProjectionEntry::Unit(_), ProjectionEntry::Inventory(_)) => false,
            (ProjectionEntry::Unit(_), ProjectionEntry::Item(_)) => false,
        }
    }
}

impl vstd::std_specs::cmp::PartialEqSpecImpl for ProjectionEntry {
    open spec fn obeys_eq_spec() -> bool {
        true
    }

    open spec fn eq_spec(&self, other: &Self) -> bool {
        self@.same_entity(other@)
    }
}

/// What an event does to the entity in its payload.
#[derive(Clone, Copy, Debug, PartialEq, Eq, Structural)]
pub enum EventKind {
    Create,
    Update,
    Delete,
}

/// One change of one entity, ready to be submitted to the log.
#[derive(Debug)]
pub struct ProjectionEvent {
    pub kind: EventKind,
    pub entry: ProjectionEntry,
}

/// What an event is, as a mathematical value.
pub struct EventView {
    pub kind: EventKind,
    pub entry: EntryView,
}

impl View for ProjectionEvent {
    type V = EventView;

    open spec fn view(&self) -> EventView {
        EventView { kind: self.kind, entry: self.entry@ }
    }
}

impl ProjectionEvent {
    /// The event that creates the entity in `entry`.
    pub fn create(entry: ProjectionEntry) -> (event: Self)
        ensures
            event@ == (EventView { kind: EventKind::Create, entry: entry@ }),
    {
        ProjectionEvent { kind: EventKind::Create, entry }
    }

    /// The event that replaces the entity in `entry` by what `entry` holds.
    pub fn update(entry: ProjectionEntry) -> (event: Self)
        ensures
            event@ == (EventView { kind: EventKind::Update, entry: entry@ }),
    {
        ProjectionEvent { kind: EventKind::Update, entry }
    }

    /// The event that deletes the entity in `entry`.
    pub fn delete(entry: ProjectionEntry) -> (event: Self)
        ensures
            event@ == (EventView { kind: EventKind::Delete, entry: entry@ }),
    {
        ProjectionEvent { kind: EventKind::Delete, entry }
    }
}

/// Some payload of `entries` speaks of the same entity as `entry`.
pub open spec fn has_entity(entries: Seq<EntryView>, entry: EntryView) -> bool {
    exists|k: int| 0 <= k < entries.len() && (#[trigger] entries[k]).same_entity(entry)
}

/// `index` is the place of the first payload of `entries` that speaks of the
/// same entity as `entry`.
pub open spec fn is_first_entity(entries: Seq<EntryView>, entry: EntryView, index: int) -> bool {
    &&& 0 <= index < entries.len()
    &&& entries[index].same_entity(entry)
    &&& forall|k: int| 0 <= k < index ==> !(#[trigger] entries[k]).same_entity(entry)
}

/// `after` is what a projection `before` becomes when `event` is applied to
/// it: a created entity comes last and must be new; an updated entity takes
/// the place of the first payload that speaks of it; a deleted entity leaves
/// from that place.
pub open spec fn projects_to(before: Seq<EntryView>, event: EventView, after: Seq<EntryView>) -> bool {
    match event.kind {
        EventKind::Create => !has_entity(before, event.entry) && after == before.push(event.entry),
        EventKind::Update => exists|k: int|
            #[trigger] is_first_entity(before, event.entry, k) && after == before.update(
                k,
                event.entry,
            ),
        EventKind::Delete => exists|k: int|
            #[trigger] is_first_entity(before, event.entry, k) && after == before.remove(k),
    }
}

} // verus!
