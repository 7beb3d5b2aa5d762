//! The failures that the aggregate reports to its caller.

use vstd::prelude::*;

verus! {

/// The error type of the log: what its `push` returns when it turns a
/// submission down. Its contents are the log's own.
#[verifier::external_type_specification]
#[verifier::external_body]
pub struct ExLogError(anyhow::Error);

/// Why a reconstruction or a mutation failed. None of these is fatal: the
/// aggregate is as it was before the call.
#[derive(Debug)]
pub enum StoreError {
    /// The log holds no inventory snapshot.
    MissingAggregateRoot,
    /// The log holds more than one inventory snapshot.
    DuplicateAggregateRoot,
    /// Two sibling snapshots of the same kind share an identifier.
    DuplicateEntityIdentifier,
    /// An item names an inventory other than the one that holds it.
    OrphanItem,
    /// A unit names an item that the aggregate does not hold.
    OrphanUnit,
    /// A mutation named an item that the tree does not hold.
    ItemNotFound,
    /// A mutation named a unit that its item does not hold.
    UnitNotFound,
    /// A mutation named an inventory other than the one that the handle holds.
    InventoryNotFound,
    /// The log turned the submission down.
    Conflict(anyhow::Error),
    /// The inventory was deleted: the handle takes no further mutation.
    AggregateDeleted,
    /// Moving an item to another inventory is not supported yet.
    TransferNotSupported,
    /// The log holds no segment, so it has no projection to read or extend.
    EmptyLog,
}

impl StoreError {
    /// The text that describes the error. For a conflict it is one sentence
    /// for all: what the log said stands in the error that the conflict
    /// carries.
    pub open spec fn text(self) -> Seq<char> {
        match self {
            StoreError::MissingAggregateRoot => "No such inventory"@,
            StoreError::DuplicateAggregateRoot => "Cannot have two inventories in one projector"@,
            StoreError::DuplicateEntityIdentifier => "Cannot have two items with the same uuid"@,
            StoreError::OrphanItem => "The item is not part of the inventory"@,
            StoreError::OrphanUnit => "No such item"@,
            StoreError::ItemNotFound => "Item not found"@,
            StoreError::UnitNotFound => "Unit not found"@,
            StoreError::InventoryNotFound => "Inventory not found"@,
            StoreError::Conflict(_) => "The log rejected the event"@,
            StoreError::AggregateDeleted => "The inventory was deleted"@,
            StoreError::TransferNotSupported => "Moving an item to another inventory is not supported"@,
            StoreError::EmptyLog => "The projector has no segment"@,
        }
    }

    /// A description of the error for people to read.
    pub fn message(&self) -> (message: String)
        ensures
            message@ == self.text(),
    {
        match self {
            StoreError::MissingAggregateRoot => "No such inventory".to_string(),
            StoreError::DuplicateAggregateRoot => "Cannot have two inventories in one projector".to_string(),
            StoreError::DuplicateEntityIdentifier => "Cannot have two items with the same uuid".to_string(),
            StoreError::OrphanItem => "The item is not part of the inventory".to_string(),
            StoreError::OrphanUnit => "No such item".to_string(),
            StoreError::ItemNotFound => "Item not found".to_string(),
            StoreError::UnitNotFound => "Unit not found".to_string(),
            StoreError::InventoryNotFound => "Inventory not found".to_string(),
            StoreError::Conflict(_) => "The log rejected the event".to_string(),
            StoreError::AggregateDeleted => "The inventory was deleted".to_string(),
            StoreError::TransferNotSupported => "Moving an item to another inventory is not supported".to_string(),
            StoreError::EmptyLog => "The projector has no segment".to_string(),
        }
    }

    /// Reports what the log answered to a submission: its error, if it gave
    /// one, as a conflict.
    pub fn surface(outcome: Result<(), anyhow::Error>) -> (result: Result<(), StoreError>)
        ensures
            match outcome {
                Ok(()) => result is Ok,
                Err(e) => result == Err::<(), StoreError>(StoreError::Conflict(e)),
            },
    {
        match outcome {
            Ok(()) => Ok(()),
            Err(e) => Err(StoreError::Conflict(e)),
        }
    }
}

} // verus!
