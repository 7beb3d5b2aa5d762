//! Rebuilding the tree of an aggregate from the flat payloads of its log.

use crate::entry::{entry_views, EntryView, ProjectionEntry};
use crate::error::StoreError;
use crate::ident::Id;
use crate::inventory::{has_item, position_of_item, Inventory, InventoryView};
use crate::item::{item_views, Item, ItemView};
use crate::unit::{unit_views, Unit, UnitView};
use vstd::prelude::*;

verus! {

/// The first inventory payload of `entries`, if there is one.
pub open spec fn first_root(entries: Seq<EntryView>) -> Option<InventoryView>
    decreases entries.len(),
{
    if entries.len() == 0 {
        None
    } else {
        match first_root(entries.drop_last()) {
            Some(root) => Some(root),
            None => match entries.last() {
                EntryView::Inventory(root) => Some(root),
                _ => None,
            },
        }
    }
}

/// The item payloads of `entries`, in their order, each without the units it
/// may carry.
pub open spec fn item_payloads(entries: Seq<EntryView>) -> Seq<ItemView>
    decreases entries.len(),
{
    if entries.len() == 0 {
        Seq::empty()
    } else {
        let earlier = item_payloads(entries.drop_last());
        match entries.last() {
            EntryView::Item(item) => earlier.push(item.flat()),
            _ => earlier,
        }
    }
}

/// The unit payloads of `entries`, in their order.
pub open spec fn unit_payloads(entries: Seq<EntryView>) -> Seq<UnitView>
    decreases entries.len(),
{
    if entries.len() == 0 {
        Seq::empty()
    } else {
        let earlier = unit_payloads(entries.drop_last());
        match entries.last() {
            EntryView::Unit(unit) => earlier.push(unit),
            _ => earlier,
        }
    }
}

/// The units of `units` that name `item` as their owner, in their order.
pub open spec fn units_of(units: Seq<UnitView>, item: Id) -> Seq<UnitView>
    decreases units.len(),
{
    if units.len() == 0 {
        Seq::empty()
    } else {
        let earlier = units_of(units.drop_last(), item);
        if units.last().item_uuid == item {
            earlier.push(units.last())
        } else {
            earlier
        }
    }
}

/// Each item of `items` with the units of `units` that name it.
pub open spec fn attach(items: Seq<ItemView>, units: Seq<UnitView>) -> Seq<ItemView> {
    Seq::new(items.len(), |k: int| items[k].with_units(units_of(units, items[k].uuid)))
}

/// What stops the sorting of `entries` by kind, if anything does: the first
/// payload that is a second inventory, or an item with the identifier of an
/// earlier item.
pub open spec fn partition_failure(entries: Seq<EntryView>) -> Option<StoreError>
    decreases entries.len(),
{
    if entries.len() == 0 {
        None
    } else {
        let earlier = entries.drop_last();
        match partition_failure(earlier) {
            Some(error) => Some(error),
            None => match entries.last() {
                EntryView::Inventory(_) => if first_root(earlier).is_some() {
                    Some(StoreError::DuplicateAggregateRoot)
                } else {
                    None
                },
                EntryView::Item(item) => if has_item(item_payloads(earlier), item.uuid) {
                    Some(StoreError::DuplicateEntityIdentifier)
                } else {
                    None
                },
                EntryView::Unit(_) => None,
            },
        }
    }
}

/// Some unit of `units` names an item that `items` does not hold.
pub open spec fn has_orphan_unit(items: Seq<ItemView>, units: Seq<UnitView>) -> bool {
    exists|k: int| 0 <= k < units.len() && !has_item(items, (#[trigger] units[k]).item_uuid)
}

/// Some item of `items` names an inventory other than `root`.
pub open spec fn has_orphan_item(root: Id, items: Seq<ItemView>) -> bool {
    exists|k: int| 0 <= k < items.len() && (#[trigger] items[k]).inventory_uuid != root
}

/// The tree that the payloads `entries` of one log stand for, or the reason
/// why they stand for none.
///
/// The payloads are sorted by kind; a second inventory or a repeated item
/// identifier stops that at once. Then there must be an inventory, every
/// unit must name an item that is there, and every item must name the
/// inventory. The tree is the inventory with the items in the order of their
/// payloads, each with the units that name it, in the order of theirs.
pub open spec fn reconstruction(entries: Seq<EntryView>) -> Result<InventoryView, StoreError> {
    let items = item_payloads(entries);
    let units = unit_payloads(entries);
    match partition_failure(entries) {
        Some(error) => Err(error),
        None => match first_root(entries) {
            None => Err(StoreError::MissingAggregateRoot),
            Some(root) => if has_orphan_unit(items, units) {
                Err(StoreError::OrphanUnit)
            } else if has_orphan_item(root.uuid, items) {
                Err(StoreError::OrphanItem)
            } else {
                Ok(root.with_items(attach(items, units)))
            },
        },
    }
}

/// Copies of the units of `units` that name `item`, in their order.
fn collect_units(units: &Vec<Unit>, item: &Id) -> (own: Vec<Unit>)
    ensures
        unit_views(own@) == units_of(unit_views(units@), *item),
{
    let ghost all = unit_views(units@);
    let mut own: Vec<Unit> = Vec::new();
    let mut k: usize = 0;
    assert(unit_views(own@) =~= units_of(all.take(0), *item));
    while k < units.len()
        invariant
            k <= units.len(),
            all == unit_views(units@),
            unit_views(own@) == units_of(all.take(k as int), *item),
        decreases units.len() - k,
    {
        assert(all.take(k + 1).drop_last() =~= all.take(k as int));
        if *units[k].item_uuid() == *item {
            let ghost before = unit_views(own@);
            own.push(units[k].clone());
            assert(unit_views(own@) =~= before.push(all[k as int]));
        }
        k += 1;
    }
    assert(all.take(units.len() as int) =~= all);
    own
}

/// Rebuilds the tree of an aggregate from the payloads of its log.
pub fn reconstruct(entries: &Vec<ProjectionEntry>) -> (result: Result<Inventory, StoreError>)
    ensures
        match result {
            Ok(tree) => reconstruction(entry_views(entries@)) == Ok::<InventoryView, StoreError>(
                tree@,
            ),
            Err(error) => reconstruction(entry_views(entries@)) == Err::<
                InventoryView,
                StoreError,
            >(error),
        },
{
    let ghost all = entry_views(entries@);
    let mut root: Option<Inventory> = None;
    let mut items: Vec<Item> = Vec::new();
    let mut units: Vec<Unit> = Vec::new();
    let mut k: usize = 0;
    assert(item_views(items@) =~= item_payloads(all.take(0)));
    assert(unit_views(units@) =~= unit_payloads(all.take(0)));
    while k < entries.len()
        invariant
            k <= entries.len(),
            all == entry_views(entries@),
            partition_failure(all.take(k as int)).is_none(),
            match root {
                Some(inventory) => first_root(all.take(k as int)).is_some() && first_root(
                    all.take(k as int),
                ).unwrap().flat() == inventory@,
                None => first_root(all.take(k as int)).is_none(),
            },
            item_views(items@) == item_payloads(all.take(k as int)),
            unit_views(units@) == unit_payloads(all.take(k as int)),
        decreases entries.len() - k,
    {
        assert(all.take(k + 1).drop_last() =~= all.take(k as int));
        assert(all.take(k + 1).last() == all[k as int]);
        match &entries[k] {
            ProjectionEntry::Inventory(inventory) => {
                if root.is_some() {
                    proof {
                        lemma_failure_stays(all, k + 1);
                    }
                    return Err(StoreError::DuplicateAggregateRoot);
                }
                root = Some(inventory.flat());
            },
            ProjectionEntry::Item(item) => {
                if position_of_item(&items, item.uuid()).is_some() {
                    proof {
                        lemma_failure_stays(all, k + 1);
                    }
                    return Err(StoreError::DuplicateEntityIdentifier);
                }
                let ghost before = item_views(items@);
                items.push(item.flat());
                assert(item_views(items@) =~= before.push(item@.flat()));
            },
            ProjectionEntry::Unit(unit) => {
                let ghost before = unit_views(units@);
                units.push(unit.clone());
                assert(unit_views(units@) =~= before.push(unit@));
            },
        }
        k += 1;
    }
    assert(all.take(entries.len() as int) =~= all);
    let root = match root {
        Some(inventory) => inventory,
        None => {
            return Err(StoreError::MissingAggregateRoot);
        },
    };
    let ghost found = first_root(all).unwrap();
    assert(root@ == found.flat());
    let mut u: usize = 0;
    while u < units.len()
        invariant
            u <= units.len(),
            all == entry_views(entries@),
            item_views(items@) == item_payloads(all),
            unit_views(units@) == unit_payloads(all),
            partition_failure(all).is_none(),
            first_root(all) == Some(found),
            forall|j: int|
                0 <= j < u ==> has_item(item_views(items@), (#[trigger] unit_views(units@)[j]).item_uuid),
        decreases units.len() - u,
    {
        if position_of_item(&items, units[u].item_uuid()).is_none() {
            assert(!has_item(item_payloads(all), unit_payloads(all)[u as int].item_uuid));
            assert(has_orphan_unit(item_payloads(all), unit_payloads(all)));
            return Err(StoreError::OrphanUnit);
        }
        u += 1;
    }
    let mut i: usize = 0;
    while i < items.len()
        invariant
            i <= items.len(),
            all == entry_views(entries@),
            item_views(items@) == item_payloads(all),
            unit_views(units@) == unit_payloads(all),
            partition_failure(all).is_none(),
            first_root(all) == Some(found),
            root@.uuid == found.uuid,
            !has_orphan_unit(item_payloads(all), unit_payloads(all)),
            forall|j: int|
                0 <= j < i ==> (#[trigger] item_views(items@)[j]).inventory_uuid == root@.uuid,
        decreases items.len() - i,
    {
        if *items[i].inventory_uuid() != *root.uuid() {
            assert(item_payloads(all)[i as int].inventory_uuid != found.uuid);
            assert(has_orphan_item(found.uuid, item_payloads(all)));
            return Err(StoreError::OrphanItem);
        }
        i += 1;
    }
    let mut attached: Vec<Item> = Vec::new();
    let mut a: usize = 0;
    while a < items.len()
        invariant
            a <= items.len(),
            attached.len() == a,
            all == entry_views(entries@),
            item_views(items@) == item_payloads(all),
            unit_views(units@) == unit_payloads(all),
            forall|j: int|
                0 <= j < a ==> (#[trigger] attached@[j])@ == item_views(items@)[j].with_units(
                    units_of(unit_views(units@), item_views(items@)[j].uuid),
                ),
        decreases items.len() - a,
    {
        let own = collect_units(&units, items[a].uuid());
        attached.push(items[a].flat().with_units(own));
        a += 1;
    }
    assert(item_views(attached@) =~= attach(item_views(items@), unit_views(units@)));
    assert(!has_orphan_item(found.uuid, item_payloads(all)));
    assert(root@.with_items(item_views(attached@)) == found.with_items(item_views(attached@)));
    Ok(root.with_items(attached))
}

/// Every unit of `units_of(units, item)` names `item`.
pub proof fn lemma_units_of_named(units: Seq<UnitView>, item: Id)
    ensures
        forall|k: int|
            0 <= k < units_of(units, item).len() ==> (#[trigger] units_of(units, item)[k]).item_uuid
                == item,
    decreases units.len(),
{
    if units.len() > 0 {
        lemma_units_of_named(units.drop_last(), item);
    }
}

/// Where the sorting of `entries` does not fail, no two item payloads share
/// an identifier.
pub proof fn lemma_sorted_items_distinct(entries: Seq<EntryView>)
    requires
        partition_failure(entries).is_none(),
    ensures
        forall|j: int, k: int|
            0 <= j < k < item_payloads(entries).len() ==> (#[trigger] item_payloads(entries)[j]).uuid
                != (#[trigger] item_payloads(entries)[k]).uuid,
    decreases entries.len(),
{
    if entries.len() > 0 {
        let earlier = entries.drop_last();
        lemma_sorted_items_distinct(earlier);
        let before = item_payloads(earlier);
        let now = item_payloads(entries);
        assert forall|j: int, k: int| 0 <= j < k < now.len() implies (#[trigger] now[j]).uuid != (
        #[trigger] now[k]).uuid by {
            if k < before.len() {
                assert(now[j] == before[j] && now[k] == before[k]);
            } else {
                assert(now[j] == before[j]);
                assert(!has_item(before, now[k].uuid));
            }
        }
    }
}

/// In every tree that a reconstruction gives, each item names the inventory
/// and each unit names the item that holds it; and no two items share an
/// identifier.
pub proof fn lemma_reconstruction_well_formed(entries: Seq<EntryView>)
    requires
        reconstruction(entries) is Ok,
    ensures
        reconstruction(entries).unwrap().well_formed(),
{
    let items = item_payloads(entries);
    let units = unit_payloads(entries);
    let root = first_root(entries).unwrap();
    let tree = reconstruction(entries).unwrap();
    assert(tree == root.with_items(attach(items, units)));
    lemma_sorted_items_distinct(entries);
    assert forall|k: int| 0 <= k < tree.items.len() implies {
        &&& (#[trigger] tree.items[k]).inventory_uuid == tree.uuid
        &&& tree.items[k].owns_its_units()
    } by {
        assert(items[k].inventory_uuid == root.uuid);
        lemma_units_of_named(units, items[k].uuid);
    }
    assert forall|j: int, k: int| 0 <= j < k < tree.items.len() implies (
    #[trigger] tree.items[j]).uuid != (#[trigger] tree.items[k]).uuid by {
        assert(items[j].uuid != items[k].uuid);
    }
}

/// A failure of the sorting of a prefix is the failure of the whole.
proof fn lemma_failure_stays(entries: Seq<EntryView>, n: int)
    requires
        0 <= n <= entries.len(),
        partition_failure(entries.take(n)).is_some(),
    ensures
        partition_failure(entries) == partition_failure(entries.take(n)),
    decreases entries.len() - n,
{
    if n < entries.len() {
        assert(entries.take(n + 1).drop_last() =~= entries.take(n));
        lemma_failure_stays(entries, n + 1);
    } else {
        assert(entries.take(n) =~= entries);
    }
}

} // verus!
