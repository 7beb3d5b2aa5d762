//! Writing a tree out as the flat payloads of its entities, and the way
//! back.

use crate::entry::{entry_views, EntryView, ProjectionEntry};
use crate::error::StoreError;
use crate::ident::Id;
use crate::inventory::{has_item, Inventory, InventoryView};
use crate::item::{item_views, ItemView};
use crate::rebuild::{
    attach, first_root, has_orphan_item, has_orphan_unit, item_payloads,
    lemma_reconstruction_well_formed, partition_failure, reconstruction, unit_payloads,
    units_of,
};
use crate::unit::{unit_views, UnitView};
use vstd::prelude::*;

verus! {

/// The payloads of `items`, in their order, each without its units.
pub open spec fn item_entries(items: Seq<ItemView>) -> Seq<EntryView> {
    items.map_values(|item: ItemView| EntryView::Item(item.flat()))
}

/// The payloads of `units`, in their order.
pub open spec fn unit_entries(units: Seq<UnitView>) -> Seq<EntryView> {
    units.map_values(|unit: UnitView| EntryView::Unit(unit))
}

/// The units of all of `items`: those of the first item, then those of the
/// second, and so on.
pub open spec fn all_units(items: Seq<ItemView>) -> Seq<UnitView>
    decreases items.len(),
{
    if items.len() == 0 {
        Seq::empty()
    } else {
        all_units(items.drop_last()) + items.last().units
    }
}

/// The payloads that stand for `tree`: that of the inventory, then those of
/// its items, then those of their units.
pub open spec fn flattened(tree: InventoryView) -> Seq<EntryView> {
    seq![EntryView::Inventory(tree.flat())] + item_entries(tree.items) + unit_entries(
        all_units(tree.items),
    )
}

/// Writes `tree` out as the payloads of its entities.
pub fn flatten(tree: &Inventory) -> (entries: Vec<ProjectionEntry>)
    ensures
        entry_views(entries@) == flattened(tree@),
{
    let items = tree.items();
    let ghost views = tree@.items;
    let mut entries: Vec<ProjectionEntry> = Vec::new();
    entries.push(ProjectionEntry::of_inventory(tree));
    let ghost head = seq![EntryView::Inventory(tree@.flat())];
    assert(entry_views(entries@) =~= head + item_entries(views.take(0)));
    let mut k: usize = 0;
    while k < items.len()
        invariant
            k <= items.len(),
            views == item_views(items@),
            entry_views(entries@) == head + item_entries(views.take(k as int)),
        decreases items.len() - k,
    {
        let ghost before = entry_views(entries@);
        entries.push(ProjectionEntry::of_item(&items[k]));
        assert(entry_views(entries@) =~= before.push(EntryView::Item(views[k as int].flat())));
        assert(item_entries(views.take(k + 1)) =~= item_entries(views.take(k as int)).push(
            EntryView::Item(views[k as int].flat()),
        ));
        assert(entry_views(entries@) =~= head + item_entries(views.take(k + 1)));
        k += 1;
    }
    assert(views.take(items.len() as int) =~= views);
    let ghost front = head + item_entries(views);
    assert(all_units(views.take(0)) =~= Seq::<UnitView>::empty());
    assert(entry_views(entries@) =~= front + unit_entries(all_units(views.take(0))));
    let mut i: usize = 0;
    while i < items.len()
        invariant
            i <= items.len(),
            views == item_views(items@),
            entry_views(entries@) == front + unit_entries(all_units(views.take(i as int))),
        decreases items.len() - i,
    {
        let units = items[i].units();
        let ghost done = all_units(views.take(i as int));
        let ghost own = views[i as int].units;
        assert(views.take(i + 1).drop_last() =~= views.take(i as int));
        assert(all_units(views.take(i + 1)) == done + own);
        let mut u: usize = 0;
        assert(done + own.take(0) =~= done);
        while u < units.len()
            invariant
                u <= units.len(),
                own == unit_views(units@),
                entry_views(entries@) == front + unit_entries(done + own.take(u as int)),
            decreases units.len() - u,
        {
            let ghost before = entry_views(entries@);
            entries.push(ProjectionEntry::of_unit(&units[u]));
            assert(entry_views(entries@) =~= before.push(EntryView::Unit(own[u as int])));
            assert(done + own.take(u + 1) =~= (done + own.take(u as int)).push(own[u as int]));
            assert(unit_entries(done + own.take(u + 1)) =~= unit_entries(
                done + own.take(u as int),
            ).push(EntryView::Unit(own[u as int])));
            assert(entry_views(entries@) =~= front + unit_entries(done + own.take(u + 1)));
            u += 1;
        }
        assert(own.take(units.len() as int) =~= own);
        i += 1;
    }
    assert(views.take(items.len() as int) =~= views);
    entries
}

/// Unit payloads at the end of a sequence add their units and change nothing
/// else of what the sorting finds.
proof fn lemma_units_at_the_end(front: Seq<EntryView>, units: Seq<UnitView>)
    ensures
        first_root(front + unit_entries(units)) == first_root(front),
        item_payloads(front + unit_entries(units)) == item_payloads(front),
        unit_payloads(front + unit_entries(units)) == unit_payloads(front) + units,
        partition_failure(front + unit_entries(units)) == partition_failure(front),
    decreases units.len(),
{
    let whole = front + unit_entries(units);
    if units.len() == 0 {
        assert(whole =~= front);
        assert(unit_payloads(front) + units =~= unit_payloads(front));
    } else {
        let earlier = units.drop_last();
        lemma_units_at_the_end(front, earlier);
        assert(whole.drop_last() =~= front + unit_entries(earlier));
        assert(whole.last() == EntryView::Unit(units.last()));
        assert(unit_payloads(front) + units =~= (unit_payloads(front) + earlier).push(units.last()));
    }
}

/// The items of `items`, each without its units.
pub open spec fn flat_items(items: Seq<ItemView>) -> Seq<ItemView> {
    items.map_values(|item: ItemView| item.flat())
}

/// What the sorting finds in the payload of an inventory followed by the
/// payloads of items that no two of which share an identifier.
proof fn lemma_root_then_items(root: InventoryView, items: Seq<ItemView>)
    requires
        forall|j: int, k: int|
            0 <= j < k < items.len() ==> (#[trigger] items[j]).uuid != (#[trigger] items[k]).uuid,
    ensures
        first_root(seq![EntryView::Inventory(root)] + item_entries(items)) == Some(root),
        item_payloads(seq![EntryView::Inventory(root)] + item_entries(items)) == flat_items(items),
        unit_payloads(seq![EntryView::Inventory(root)] + item_entries(items)) == Seq::<
            UnitView,
        >::empty(),
        partition_failure(seq![EntryView::Inventory(root)] + item_entries(items)).is_none(),
    decreases items.len(),
{
    let head = seq![EntryView::Inventory(root)];
    let whole = head + item_entries(items);
    if items.len() == 0 {
        assert(whole =~= head);
        assert(head.drop_last() =~= Seq::<EntryView>::empty());
        assert(first_root(head.drop_last()).is_none());
        assert(partition_failure(head.drop_last()).is_none());
        assert(item_payloads(head.drop_last()) =~= Seq::<ItemView>::empty());
        assert(unit_payloads(head.drop_last()) =~= Seq::<UnitView>::empty());
        assert(head.last() == EntryView::Inventory(root));
        assert(item_payloads(head) =~= flat_items(items));
    } else {
        let earlier = items.drop_last();
        lemma_root_then_items(root, earlier);
        assert(whole.drop_last() =~= head + item_entries(earlier));
        assert(whole.last() == EntryView::Item(items.last().flat()));
        assert(flat_items(items) =~= flat_items(earlier).push(items.last().flat()));
        assert(!has_item(flat_items(earlier), items.last().uuid)) by {
            assert forall|k: int| 0 <= k < flat_items(earlier).len() implies (
            #[trigger] flat_items(earlier)[k]).uuid != items.last().uuid by {
                assert(items[k].uuid != items[items.len() - 1].uuid);
            }
        }
    }
}

/// The units that name `item` among `front` followed by `back` are those
/// among `front` followed by those among `back`.
pub proof fn lemma_units_of_both(front: Seq<UnitView>, back: Seq<UnitView>, item: Id)
    ensures
        units_of(front + back, item) == units_of(front, item) + units_of(back, item),
    decreases back.len(),
{
    if back.len() == 0 {
        assert(front + back =~= front);
        assert(units_of(front, item) + units_of(back, item) =~= units_of(front, item));
    } else {
        lemma_units_of_both(front, back.drop_last(), item);
        assert((front + back).drop_last() =~= front + back.drop_last());
        assert((front + back).last() == back.last());
        if back.last().item_uuid == item {
            assert(units_of(front, item) + units_of(back, item) =~= (units_of(front, item)
                + units_of(back.drop_last(), item)).push(back.last()));
        }
    }
}

/// Units that all name `item` are all of them units of `item`.
pub proof fn lemma_units_of_own(units: Seq<UnitView>, item: Id)
    requires
        forall|k: int| 0 <= k < units.len() ==> (#[trigger] units[k]).item_uuid == item,
    ensures
        units_of(units, item) == units,
    decreases units.len(),
{
    if units.len() > 0 {
        let earlier = units.drop_last();
        assert forall|k: int| 0 <= k < earlier.len() implies (#[trigger] earlier[k]).item_uuid
            == item by {
            assert(earlier[k] == units[k]);
        }
        lemma_units_of_own(earlier, item);
        assert(units[units.len() - 1].item_uuid == item);
        assert(earlier.push(units.last()) =~= units);
    } else {
        assert(units =~= Seq::<UnitView>::empty());
    }
}

/// Units none of which names `item` hold no unit of `item`.
pub proof fn lemma_units_of_others(units: Seq<UnitView>, item: Id)
    requires
        forall|k: int| 0 <= k < units.len() ==> (#[trigger] units[k]).item_uuid != item,
    ensures
        units_of(units, item) == Seq::<UnitView>::empty(),
    decreases units.len(),
{
    if units.len() > 0 {
        let earlier = units.drop_last();
        assert forall|k: int| 0 <= k < earlier.len() implies (#[trigger] earlier[k]).item_uuid
            != item by {
            assert(earlier[k] == units[k]);
        }
        lemma_units_of_others(earlier, item);
        assert(units[units.len() - 1].item_uuid != item);
    }
}

/// Every unit of items that own their units names one of the items.
proof fn lemma_all_units_named(items: Seq<ItemView>)
    requires
        forall|k: int| 0 <= k < items.len() ==> (#[trigger] items[k]).owns_its_units(),
    ensures
        forall|m: int|
            0 <= m < all_units(items).len() ==> has_item(
                items,
                (#[trigger] all_units(items)[m]).item_uuid,
            ),
    decreases items.len(),
{
    if items.len() > 0 {
        let earlier = items.drop_last();
        let last = items.last();
        assert forall|k: int| 0 <= k < earlier.len() implies (
        #[trigger] earlier[k]).owns_its_units() by {
            assert(earlier[k] == items[k]);
        }
        lemma_all_units_named(earlier);
        assert forall|m: int| 0 <= m < all_units(items).len() implies has_item(
            items,
            (#[trigger] all_units(items)[m]).item_uuid,
        ) by {
            let before = all_units(earlier);
            if m < before.len() {
                assert(all_units(items)[m] == before[m]);
                let k = choose|k: int|
                    0 <= k < earlier.len() && (#[trigger] earlier[k]).uuid == before[m].item_uuid;
                assert(items[k].uuid == before[m].item_uuid);
            } else {
                assert(all_units(items)[m] == last.units[m - before.len()]);
                assert(items[items.len() - 1].owns_its_units());
                assert(items[items.len() - 1].uuid == all_units(items)[m].item_uuid);
            }
        }
    }
}

/// Among the units of well-formed items, those that name one of the items
/// are the units of that item.
proof fn lemma_own_units_come_back(items: Seq<ItemView>, place: int)
    requires
        0 <= place < items.len(),
        forall|k: int| 0 <= k < items.len() ==> (#[trigger] items[k]).owns_its_units(),
        forall|j: int, k: int|
            0 <= j < k < items.len() ==> (#[trigger] items[j]).uuid != (#[trigger] items[k]).uuid,
    ensures
        units_of(all_units(items), items[place].uuid) == items[place].units,
    decreases items.len(),
{
    let id = items[place].uuid;
    let earlier = items.drop_last();
    let last = items.last();
    lemma_units_of_both(all_units(earlier), last.units, id);
    assert forall|k: int| 0 <= k < earlier.len() implies (#[trigger] earlier[k]).owns_its_units() by {
        assert(earlier[k] == items[k]);
    }
    assert(items[items.len() - 1].owns_its_units());
    if place == items.len() - 1 {
        lemma_units_of_own(last.units, id);
        lemma_all_units_named(earlier);
        assert forall|m: int| 0 <= m < all_units(earlier).len() implies (#[trigger] all_units(
            earlier,
        )[m]).item_uuid != id by {
            let k = choose|k: int|
                0 <= k < earlier.len() && (#[trigger] earlier[k]).uuid == all_units(
                    earlier,
                )[m].item_uuid;
            assert(items[k].uuid != items[place].uuid);
        }
        lemma_units_of_others(all_units(earlier), id);
        assert(Seq::<UnitView>::empty() + last.units =~= last.units);
    } else {
        assert forall|j: int, k: int| 0 <= j < k < earlier.len() implies (
        #[trigger] earlier[j]).uuid != (#[trigger] earlier[k]).uuid by {
            assert(earlier[j] == items[j] && earlier[k] == items[k]);
        }
        assert(earlier[place] == items[place]);
        lemma_own_units_come_back(earlier, place);
        assert(items[place].uuid != items[items.len() - 1].uuid);
        assert forall|m: int| 0 <= m < last.units.len() implies (#[trigger] last.units[m]).item_uuid
            != id by {}
        lemma_units_of_others(last.units, id);
        assert(items[place].units + Seq::<UnitView>::empty() =~= items[place].units);
    }
}

/// A well-formed tree comes back from its payloads as it was.
pub proof fn lemma_flattened_reconstructs(tree: InventoryView)
    requires
        tree.well_formed(),
    ensures
        reconstruction(flattened(tree)) == Ok::<InventoryView, StoreError>(tree),
{
    let head = seq![EntryView::Inventory(tree.flat())];
    let front = head + item_entries(tree.items);
    let units = all_units(tree.items);
    let items = flat_items(tree.items);
    lemma_root_then_items(tree.flat(), tree.items);
    lemma_units_at_the_end(front, units);
    assert(Seq::<UnitView>::empty() + units =~= units);
    assert(unit_payloads(flattened(tree)) == units);
    assert(item_payloads(flattened(tree)) == items);
    lemma_all_units_named(tree.items);
    assert(!has_orphan_unit(items, units)) by {
        assert forall|m: int| 0 <= m < units.len() implies has_item(
            items,
            (#[trigger] units[m]).item_uuid,
        ) by {
            let k = choose|k: int|
                0 <= k < tree.items.len() && (#[trigger] tree.items[k]).uuid == units[m].item_uuid;
            assert(items[k].uuid == units[m].item_uuid);
        }
    }
    assert(!has_orphan_item(tree.uuid, items)) by {
        assert forall|k: int| 0 <= k < items.len() implies (#[trigger] items[k]).inventory_uuid
            == tree.uuid by {
            assert(tree.items[k].inventory_uuid == tree.uuid);
        }
    }
    assert(attach(items, units) =~= tree.items) by {
        assert forall|k: int| 0 <= k < tree.items.len() implies attach(items, units)[k]
            == tree.items[k] by {
            lemma_own_units_come_back(tree.items, k);
        }
    }
}

/// A tree that was reconstructed, written out as payloads and
/// reconstructed again, is the tree that it was.
pub proof fn lemma_round_trip(entries: Seq<EntryView>)
    requires
        reconstruction(entries) is Ok,
    ensures
        reconstruction(flattened(reconstruction(entries).unwrap())) == reconstruction(entries),
{
    lemma_reconstruction_well_formed(entries);
    lemma_flattened_reconstructs(reconstruction(entries).unwrap());
}

} // verus!
