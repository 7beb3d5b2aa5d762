//! Units: the leaves of the aggregate, each held by one item.

use crate::ident::Id;
use crate::item::Item;
use crate::time::{current_time, Timestamp};
use std::time::Duration;
use vstd::prelude::*;

verus! {

/// One physical unit of an item.
#[derive(Debug)]
pub struct Unit {
    /// The identifier of the unit
    uuid: Id,
    /// The identifier of the item which this unit belongs to
    item_uuid: Id,
    /// The duration after opening after which the unit expires (if applicable)
    use_up_after: Option<Duration>,
    /// The name of the unit
    name: String,
    /// How much of the unit is left, a fraction between 0.0 and 1.0, held as
    /// the bit pattern of an IEEE 754 double
    percent_left: u64,
    /// The timestamp of the creation of the unit
    created_on: Timestamp,
    /// The timestamp this unit was opened for the first time (if ever)
    opened_on: Option<Timestamp>,
}

/// What a unit is, as a mathematical value.
pub struct UnitView {
    pub uuid: Id,
    pub item_uuid: Id,
    pub use_up_after: Option<Duration>,
    pub name: Seq<char>,
    pub percent_left: u64,
    pub created_on: Timestamp,
    pub opened_on: Option<Timestamp>,
}

impl View for Unit {
    type V = UnitView;

    closed spec fn view(&self) -> UnitView {
        UnitView {
            uuid: self.uuid,
            item_uuid: self.item_uuid,
            use_up_after: self.use_up_after,
            name: self.name@,
            percent_left: self.percent_left,
            created_on: self.created_on,
            opened_on: self.opened_on,
        }
    }
}

/// The views of a sequence of units, in the same order.
pub open spec fn unit_views(units: Seq<Unit>) -> Seq<UnitView> {
    units.map_values(|u: Unit| u@)
}

impl Unit {
    /// Generates a new, unopened unit of `item`, with a fresh identifier and
    /// the current time as its creation time.
    pub fn new(item: &Item, use_up_after: Option<Duration>, name: String, percent_left: u64) -> (unit:
        Self)
        ensures
            unit@.item_uuid == item@.uuid,
            unit@.use_up_after == use_up_after,
            unit@.name == name@,
            unit@.percent_left == percent_left,
            unit@.opened_on.is_none(),
    {
        Self {
            uuid: crate::ident::random_id(),
            item_uuid: *item.uuid(),
            use_up_after,
            name,
            percent_left,
            created_on: current_time(),
            opened_on: None,
        }
    }

    /// The unit with exactly the given fields.
    pub fn from_parts(
        uuid: Id,
        item_uuid: Id,
        use_up_after: Option<Duration>,
        name: String,
        percent_left: u64,
        created_on: Timestamp,
        opened_on: Option<Timestamp>,
    ) -> (unit: Self)
        ensures
            unit@ == (UnitView {
                uuid,
                item_uuid,
                use_up_after,
                name: name@,
                percent_left,
                created_on,
                opened_on,
            }),
    {
        Self { uuid, item_uuid, use_up_after, name, percent_left, created_on, opened_on }
    }

    /// The identifier of the unit
    pub fn uuid(&self) -> (id: &Id)
        ensures
            *id == self@.uuid,
    {
        &self.uuid
    }

    /// The identifier of the item which this unit belongs to
    pub fn item_uuid(&self) -> (id: &Id)
        ensures
            *id == self@.item_uuid,
    {
        &self.item_uuid
    }

    /// The item which this unit belongs to, by its identifier
    pub fn inventory(&self) -> (id: &Id)
        ensures
            *id == self@.item_uuid,
    {
        &self.item_uuid
    }

    /// The duration after opening after which the unit expires (if applicable)
    pub fn use_up_after(&self) -> (duration: &Option<Duration>)
        ensures
            *duration == self@.use_up_after,
    {
        &self.use_up_after
    }

    /// The name of the unit
    pub fn name(&self) -> (name: &String)
        ensures
            name@ == self@.name,
    {
        &self.name
    }

    /// How much of the unit is left, as the bit pattern of an IEEE 754 double
    pub fn percent_left(&self) -> (bits: &u64)
        ensures
            *bits == self@.percent_left,
    {
        &self.percent_left
    }

    /// The timestamp of the creation of the unit
    pub fn created_on(&self) -> (time: &Timestamp)
        ensures
            *time == self@.created_on,
    {
        &self.created_on
    }

    /// The timestamp this unit was opened for the first time (if ever)
    pub fn opened_on(&self) -> (time: &Option<Timestamp>)
        ensures
            *time == self@.opened_on,
    {
        &self.opened_on
    }
}

impl Clone for Unit {
    fn clone(&self) -> (copy: Self)
        ensures
            copy@ == self@,
    {
        Self {
            uuid: self.uuid,
            item_uuid: self.item_uuid,
            use_up_after: self.use_up_after,
            name: self.name.clone(),
            percent_left: self.percent_left,
            created_on: self.created_on,
            opened_on: self.opened_on,
        }
    }
}

impl PartialEq for Unit {
    /// Two units are the same unit when their identifiers agree.
    fn eq(&self, other: &Self) -> (same: bool) {
        self.uuid == other.uuid
    }
}

impl vstd::std_specs::cmp::PartialEqSpecImpl for Unit {
    open spec fn obeys_eq_spec() -> bool {
        true
    }

    open spec fn eq_spec(&self, other: &Self) -> bool {
        self@.uuid == other@.uuid
    }
}

} // verus!
