//! A three-level inventory aggregate (inventories, items, units) kept as a
//! validated tree over an append-only, optimistically-concurrent event log.

pub mod entry;
pub mod error;
pub mod flatten;
pub mod ident;
pub mod inventory;
pub mod item;
pub mod log;
pub mod node;
pub mod order;
pub mod quantity;
pub mod rebuild;
pub mod step;
pub mod store;
pub mod time;
pub mod unit;
pub mod users;

pub use error::StoreError;
pub use ident::Id;
pub use inventory::{Inventory, InventoryView};
pub use item::{Item, ItemView};
pub use quantity::Quantity;
pub use time::Timestamp;
pub use unit::{Unit, UnitView};
