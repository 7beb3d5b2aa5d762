//! The tree of an aggregate and the projection of its log stay in step:
//! what an accepted event does to the projection is what the mutation does
//! to the tree.

use crate::entry::{is_first_entity, projects_to, EntryView, EventKind, EventView};
use crate::error::StoreError;
use crate::flatten::{lemma_units_of_both, lemma_units_of_others};
use crate::ident::Id;
use crate::inventory::{has_item, is_first_item, InventoryView};
use crate::item::{is_first_unit, ItemView};
use crate::order::{
    count_of, lemma_root_counted, lemma_sorting_by_counts, lemma_unit_payloads_are_entries, Probe,
};
use crate::rebuild::{
    attach, first_root, has_orphan_item, has_orphan_unit, item_payloads,
    lemma_reconstruction_well_formed, partition_failure, reconstruction, unit_payloads,
    units_of,
};
use crate::unit::UnitView;
use vstd::assert_by_contradiction;
use vstd::prelude::*;

verus! {

/// No two payloads of `entries` speak of the same entity.
pub open spec fn entities_unique(entries: Seq<EntryView>) -> bool {
    forall|j: int, k: int|
        0 <= j < k < entries.len() ==> !(#[trigger] entries[j]).same_entity(#[trigger] entries[k])
}

/// The tree `tree` and the projection `entries` are in step: the projection
/// holds every entity once, and the tree is what it reconstructs to.
pub open spec fn in_step(tree: InventoryView, entries: Seq<EntryView>) -> bool {
    entities_unique(entries) && reconstruction(entries) == Ok::<InventoryView, StoreError>(tree)
}

/// A projection that holds every entity once still does after an event
/// that it accepted.
pub proof fn lemma_projection_stays_unique(
    before: Seq<EntryView>,
    event: EventView,
    after: Seq<EntryView>,
)
    requires
        entities_unique(before),
        projects_to(before, event, after),
    ensures
        entities_unique(after),
{
    match event.kind {
        EventKind::Create => {
            assert forall|j: int, k: int| 0 <= j < k < after.len() implies !(
            #[trigger] after[j]).same_entity(#[trigger] after[k]) by {
                if k < before.len() {
                    assert(after[j] == before[j] && after[k] == before[k]);
                } else {
                    assert(after[j] == before[j]);
                    assert(!before[j].same_entity(event.entry));
                }
            }
        },
        EventKind::Update => {
            let place = choose|k: int|
                #[trigger] is_first_entity(before, event.entry, k) && after == before.update(
                    k,
                    event.entry,
                );
            assert forall|j: int, k: int| 0 <= j < k < after.len() implies !(
            #[trigger] after[j]).same_entity(#[trigger] after[k]) by {
                assert(!before[j].same_entity(before[k]));
                if j == place {
                    assert(!before[place].same_entity(before[k]));
                } else if k == place {
                    assert(!before[j].same_entity(before[place]));
                }
            }
        },
        EventKind::Delete => {
            let place = choose|k: int|
                #[trigger] is_first_entity(before, event.entry, k) && after == before.remove(k);
            assert forall|j: int, k: int| 0 <= j < k < after.len() implies !(
            #[trigger] after[j]).same_entity(#[trigger] after[k]) by {
                let jj = if j < place { j } else { j + 1 };
                let kk = if k < place { k } else { k + 1 };
                assert(after[j] == before[jj] && after[k] == before[kk]);
                assert(!before[jj].same_entity(before[kk]));
            }
        },
    }
}

/// The item payloads of two sequences, one after the other, are those of
/// the first followed by those of the second; so for the unit payloads; and
/// the first inventory payload is that of the first sequence, or else that
/// of the second.
pub proof fn lemma_payloads_of_both(front: Seq<EntryView>, back: Seq<EntryView>)
    ensures
        item_payloads(front + back) == item_payloads(front) + item_payloads(back),
        unit_payloads(front + back) == unit_payloads(front) + unit_payloads(back),
        first_root(front + back) == match first_root(front) {
            Some(root) => Some(root),
            None => first_root(back),
        },
    decreases back.len(),
{
    if back.len() == 0 {
        assert(front + back =~= front);
        assert(item_payloads(front) + item_payloads(back) =~= item_payloads(front));
        assert(unit_payloads(front) + unit_payloads(back) =~= unit_payloads(front));
    } else {
        let earlier = back.drop_last();
        lemma_payloads_of_both(front, earlier);
        assert((front + back).drop_last() =~= front + earlier);
        assert((front + back).last() == back.last());
        match back.last() {
            EntryView::Item(item) => {
                assert(item_payloads(front) + item_payloads(back) =~= (item_payloads(front)
                    + item_payloads(earlier)).push(item.flat()));
            },
            EntryView::Unit(unit) => {
                assert(unit_payloads(front) + unit_payloads(back) =~= (unit_payloads(front)
                    + unit_payloads(earlier)).push(unit));
            },
            EntryView::Inventory(_) => {},
        }
    }
}

/// A probe counts in two sequences, one after the other, what it counts in
/// the first and what it counts in the second.
pub proof fn lemma_count_of_both(front: Seq<EntryView>, back: Seq<EntryView>, probe: Probe)
    ensures
        count_of(front + back, probe) == count_of(front, probe) + count_of(back, probe),
    decreases back.len(),
{
    if back.len() == 0 {
        assert(front + back =~= front);
    } else {
        lemma_count_of_both(front, back.drop_last(), probe);
        assert((front + back).drop_last() =~= front + back.drop_last());
        assert((front + back).last() == back.last());
    }
}

/// What the sorting finds in one payload alone.
pub proof fn lemma_payloads_of_one(entry: EntryView)
    ensures
        item_payloads(seq![entry]) == match entry {
            EntryView::Item(item) => seq![item.flat()],
            _ => Seq::<ItemView>::empty(),
        },
        unit_payloads(seq![entry]) == match entry {
            EntryView::Unit(unit) => seq![unit],
            _ => Seq::<UnitView>::empty(),
        },
        first_root(seq![entry]) == match entry {
            EntryView::Inventory(root) => Some(root),
            _ => None,
        },
{
    let one = seq![entry];
    assert(one.drop_last() =~= Seq::<EntryView>::empty());
    assert(one.last() == entry);
    assert(item_payloads(one.drop_last()) =~= Seq::<ItemView>::empty());
    assert(unit_payloads(one.drop_last()) =~= Seq::<UnitView>::empty());
    assert(first_root(one.drop_last()).is_none());
    match entry {
        EntryView::Item(item) => {
            assert(item_payloads(one) =~= seq![item.flat()]);
        },
        EntryView::Unit(unit) => {
            assert(unit_payloads(one) =~= seq![unit]);
        },
        EntryView::Inventory(_) => {},
    }
}

/// Units that name no item of `items` where every unit names one: there are
/// none.
proof fn lemma_new_item_has_no_units(items: Seq<ItemView>, units: Seq<UnitView>, id: Id)
    requires
        !has_orphan_unit(items, units),
        !has_item(items, id),
    ensures
        units_of(units, id) == Seq::<UnitView>::empty(),
{
    assert forall|m: int| 0 <= m < units.len() implies (#[trigger] units[m]).item_uuid != id by {
        assert(has_item(items, units[m].item_uuid));
    }
    lemma_units_of_others(units, id);
}

/// The tree and the projection stay in step when an item is created: one
/// that names the inventory and is new to the tree.
pub proof fn lemma_item_created_in_step(
    tree: InventoryView,
    before: Seq<EntryView>,
    item: ItemView,
    after: Seq<EntryView>,
)
    requires
        in_step(tree, before),
        item.inventory_uuid == tree.uuid,
        !has_item(tree.items, item.uuid),
        projects_to(
            before,
            EventView { kind: EventKind::Create, entry: EntryView::Item(item.flat()) },
            after,
        ),
    ensures
        in_step(tree.item_added(item), after),
{
    let event = EventView { kind: EventKind::Create, entry: EntryView::Item(item.flat()) };
    lemma_projection_stays_unique(before, event, after);
    let items = item_payloads(before);
    let units = unit_payloads(before);
    let root = first_root(before).unwrap();
    assert(after.drop_last() =~= before);
    assert(after.last() == EntryView::Item(item.flat()));
    assert(tree.items == attach(items, units));
    assert(!has_item(items, item.uuid)) by {
        if has_item(items, item.uuid) {
            let k = choose|k: int| 0 <= k < items.len() && (#[trigger] items[k]).uuid == item.uuid;
            assert(tree.items[k].uuid == item.uuid);
        }
    }
    let items2 = item_payloads(after);
    assert(items2 == items.push(item.flat().flat()));
    assert(item.flat().flat() == item.flat());
    assert(!has_orphan_unit(items2, units)) by {
        assert forall|m: int| 0 <= m < units.len() implies has_item(
            items2,
            (#[trigger] units[m]).item_uuid,
        ) by {
            assert(has_item(items, units[m].item_uuid));
            let k = choose|k: int|
                0 <= k < items.len() && (#[trigger] items[k]).uuid == units[m].item_uuid;
            assert(items2[k].uuid == units[m].item_uuid);
        }
    }
    assert(!has_orphan_item(root.uuid, items2)) by {
        assert forall|k: int| 0 <= k < items2.len() implies (#[trigger] items2[k]).inventory_uuid
            == root.uuid by {
            if k < items.len() {
                assert(items2[k] == items[k]);
            }
        }
    }
    lemma_new_item_has_no_units(items, units, item.uuid);
    assert(attach(items2, units) =~= tree.items.push(item.flat())) by {
        assert forall|k: int| 0 <= k < items2.len() implies attach(items2, units)[k]
            == tree.items.push(item.flat())[k] by {
            if k < items.len() {
                assert(items2[k] == items[k]);
            } else {
                assert(item.flat().with_units(Seq::<UnitView>::empty()) == item.flat());
            }
        }
    }
}

/// The tree and the projection stay in step when a unit is created in the
/// item that it names.
pub proof fn lemma_unit_created_in_step(
    tree: InventoryView,
    before: Seq<EntryView>,
    index: int,
    unit: UnitView,
    after: Seq<EntryView>,
)
    requires
        in_step(tree, before),
        is_first_item(tree.items, unit.item_uuid, index),
        projects_to(
            before,
            EventView { kind: EventKind::Create, entry: EntryView::Unit(unit) },
            after,
        ),
    ensures
        in_step(tree.unit_added(index, unit), after),
{
    let event = EventView { kind: EventKind::Create, entry: EntryView::Unit(unit) };
    lemma_projection_stays_unique(before, event, after);
    lemma_reconstruction_well_formed(before);
    let items = item_payloads(before);
    let units = unit_payloads(before);
    assert(after.drop_last() =~= before);
    assert(after.last() == EntryView::Unit(unit));
    assert(tree.items == attach(items, units));
    let units2 = unit_payloads(after);
    assert(units2 == units.push(unit));
    assert(units2.drop_last() =~= units);
    assert(!has_orphan_unit(items, units2)) by {
        assert forall|m: int| 0 <= m < units2.len() implies has_item(
            items,
            (#[trigger] units2[m]).item_uuid,
        ) by {
            if m < units.len() {
                assert(units2[m] == units[m]);
                assert(has_item(items, units[m].item_uuid));
            } else {
                assert(items[index].uuid == unit.item_uuid);
            }
        }
    }
    assert(attach(items, units2) =~= tree.unit_added(index, unit).items) by {
        assert forall|k: int| 0 <= k < items.len() implies attach(items, units2)[k]
            == tree.unit_added(index, unit).items[k] by {
            if k != index {
                assert(tree.items[k].uuid != tree.items[index].uuid);
            }
        }
    }
}

/// A sequence is what stands before a place, what stands in it and what
/// stands after it; with another payload in the place, or with none, it is
/// the same but for the middle.
proof fn lemma_parts(entries: Seq<EntryView>, place: int, entry: EntryView)
    requires
        0 <= place < entries.len(),
    ensures
        entries == entries.take(place) + seq![entries[place]] + entries.skip(place + 1),
        entries.update(place, entry) == entries.take(place) + seq![entry] + entries.skip(place + 1),
        entries.remove(place) == entries.take(place) + entries.skip(place + 1),
{
    assert(entries =~= entries.take(place) + seq![entries[place]] + entries.skip(place + 1));
    assert(entries.update(place, entry) =~= entries.take(place) + seq![entry] + entries.skip(
        place + 1,
    ));
    assert(entries.remove(place) =~= entries.take(place) + entries.skip(place + 1));
}

/// What a probe counts in one payload alone.
proof fn lemma_count_of_one(entry: EntryView, probe: Probe)
    ensures
        count_of(seq![entry], probe) == if crate::order::answers(entry, probe) {
            1nat
        } else {
            0nat
        },
{
    let one = seq![entry];
    assert(one.drop_last() =~= Seq::<EntryView>::empty());
    assert(one.last() == entry);
    assert(count_of(one.drop_last(), probe) == 0);
}

/// What the sorting finds in a sequence with `middle` between `front` and
/// `back`.
proof fn lemma_payloads_of_three(front: Seq<EntryView>, middle: EntryView, back: Seq<EntryView>)
    ensures
        item_payloads(front + seq![middle] + back) == item_payloads(front) + item_payloads(
            seq![middle],
        ) + item_payloads(back),
        unit_payloads(front + seq![middle] + back) == unit_payloads(front) + unit_payloads(
            seq![middle],
        ) + unit_payloads(back),
        first_root(front + seq![middle] + back) == match first_root(front) {
            Some(root) => Some(root),
            None => match first_root(seq![middle]) {
                Some(root) => Some(root),
                None => first_root(back),
            },
        },
        forall|probe: Probe|
            #[trigger] count_of(front + seq![middle] + back, probe) == count_of(front, probe)
                + count_of(seq![middle], probe) + count_of(back, probe),
{
    lemma_payloads_of_both(front, seq![middle]);
    lemma_payloads_of_both(front + seq![middle], back);
    assert forall|probe: Probe|
        #[trigger] count_of(front + seq![middle] + back, probe) == count_of(front, probe)
            + count_of(seq![middle], probe) + count_of(back, probe) by {
        lemma_count_of_both(front, seq![middle], probe);
        lemma_count_of_both(front + seq![middle], back, probe);
    }
}

/// The sorting of a sequence does not fail where no probe counts more in it
/// than in one whose sorting does not fail.
proof fn lemma_sorting_of_no_more(before: Seq<EntryView>, after: Seq<EntryView>)
    requires
        partition_failure(before).is_none(),
        forall|probe: Probe| #[trigger] count_of(after, probe) <= count_of(before, probe),
    ensures
        partition_failure(after).is_none(),
{
    lemma_sorting_by_counts(before);
    lemma_sorting_by_counts(after);
    assert(count_of(after, Probe::Root) <= count_of(before, Probe::Root));
    assert forall|id: Id| #[trigger] count_of(after, Probe::Item(id)) <= 1 by {
        assert(count_of(after, Probe::Item(id)) <= count_of(before, Probe::Item(id)));
        assert(count_of(before, Probe::Item(id)) <= 1);
    }
}

/// The tree and the projection stay in step when the inventory is updated
/// with a snapshot that has its identifier.
pub proof fn lemma_root_updated_in_step(
    tree: InventoryView,
    before: Seq<EntryView>,
    snapshot: InventoryView,
    after: Seq<EntryView>,
)
    requires
        in_step(tree, before),
        snapshot.uuid == tree.uuid,
        projects_to(
            before,
            EventView { kind: EventKind::Update, entry: EntryView::Inventory(snapshot.flat()) },
            after,
        ),
    ensures
        in_step(tree.root_replaced(snapshot), after),
{
    let entry = EntryView::Inventory(snapshot.flat());
    let event = EventView { kind: EventKind::Update, entry };
    lemma_projection_stays_unique(before, event, after);
    let place = choose|k: int|
        #[trigger] is_first_entity(before, entry, k) && after == before.update(k, entry);
    let front = before.take(place);
    let back = before.skip(place + 1);
    let held = before[place];
    assert(held is Inventory);
    lemma_parts(before, place, entry);
    lemma_payloads_of_three(front, held, back);
    lemma_payloads_of_three(front, entry, back);
    lemma_payloads_of_one(held);
    lemma_payloads_of_one(entry);
    assert forall|probe: Probe| #[trigger] count_of(after, probe) <= count_of(before, probe) by {
        lemma_count_of_one(held, probe);
        lemma_count_of_one(entry, probe);
        assert(count_of(front + seq![held] + back, probe) == count_of(front, probe) + count_of(
            seq![held],
            probe,
        ) + count_of(back, probe));
        assert(count_of(front + seq![entry] + back, probe) == count_of(front, probe) + count_of(
            seq![entry],
            probe,
        ) + count_of(back, probe));
    }
    lemma_sorting_of_no_more(before, after);
    lemma_sorting_by_counts(before);
    lemma_count_of_one(held, Probe::Root);
    assert(count_of(front + seq![held] + back, Probe::Root) == count_of(front, Probe::Root)
        + count_of(seq![held], Probe::Root) + count_of(back, Probe::Root));
    assert(count_of(front, Probe::Root) == 0);
    lemma_root_counted(front);
    assert(first_root(after) == Some(snapshot.flat()));
    assert(item_payloads(after) =~= item_payloads(before));
    assert(unit_payloads(after) =~= unit_payloads(before));
    assert(first_root(before).unwrap().uuid == tree.uuid);
}

/// The tree and the projection stay in step when an item is updated with a
/// snapshot that names the inventory.
pub proof fn lemma_item_updated_in_step(
    tree: InventoryView,
    before: Seq<EntryView>,
    index: int,
    item: ItemView,
    after: Seq<EntryView>,
)
    requires
        in_step(tree, before),
        is_first_item(tree.items, item.uuid, index),
        item.inventory_uuid == tree.uuid,
        projects_to(
            before,
            EventView { kind: EventKind::Update, entry: EntryView::Item(item.flat()) },
            after,
        ),
    ensures
        in_step(tree.item_replaced(index, item), after),
{
    let entry = EntryView::Item(item.flat());
    let event = EventView { kind: EventKind::Update, entry };
    lemma_projection_stays_unique(before, event, after);
    lemma_reconstruction_well_formed(before);
    let place = choose|k: int|
        #[trigger] is_first_entity(before, entry, k) && after == before.update(k, entry);
    let front = before.take(place);
    let back = before.skip(place + 1);
    let held = before[place];
    assert(held is Item);
    lemma_parts(before, place, entry);
    lemma_payloads_of_three(front, held, back);
    lemma_payloads_of_three(front, entry, back);
    lemma_payloads_of_one(held);
    lemma_payloads_of_one(entry);
    assert forall|probe: Probe| #[trigger] count_of(after, probe) <= count_of(before, probe) by {
        lemma_count_of_one(held, probe);
        lemma_count_of_one(entry, probe);
        assert(count_of(front + seq![held] + back, probe) == count_of(front, probe) + count_of(
            seq![held],
            probe,
        ) + count_of(back, probe));
        assert(count_of(front + seq![entry] + back, probe) == count_of(front, probe) + count_of(
            seq![entry],
            probe,
        ) + count_of(back, probe));
    }
    lemma_sorting_of_no_more(before, after);
    let items = item_payloads(before);
    let units = unit_payloads(before);
    let items2 = item_payloads(after);
    let rank = item_payloads(front).len() as int;
    assert(item.flat().flat() == item.flat());
    assert(items2 =~= items.update(rank, item.flat()));
    assert(items[rank].uuid == item.uuid);
    assert(tree.items[rank].uuid == item.uuid);
    assert(rank == index) by {
        if rank < index {
            assert(tree.items[rank].uuid != tree.items[index].uuid);
        } else if index < rank {
            assert(tree.items[index].uuid != tree.items[rank].uuid);
        }
    }
    assert(unit_payloads(after) =~= units);
    assert(first_root(after) == first_root(before));
    assert(!has_orphan_unit(items2, units)) by {
        assert forall|m: int| 0 <= m < units.len() implies has_item(
            items2,
            (#[trigger] units[m]).item_uuid,
        ) by {
            assert(has_item(items, units[m].item_uuid));
            let k = choose|k: int|
                0 <= k < items.len() && (#[trigger] items[k]).uuid == units[m].item_uuid;
            assert(items2[k].uuid == units[m].item_uuid);
        }
    }
    assert(!has_orphan_item(tree.uuid, items2)) by {
        assert forall|k: int| 0 <= k < items2.len() implies (#[trigger] items2[k]).inventory_uuid
            == tree.uuid by {
            if k != rank {
                assert(items2[k] == items[k]);
            }
        }
    }
    assert(attach(items2, units) =~= tree.item_replaced(index, item).items) by {
        assert forall|k: int| 0 <= k < items2.len() implies attach(items2, units)[k]
            == tree.item_replaced(index, item).items[k] by {
            if k != rank {
                assert(items2[k] == items[k]);
            }
        }
    }
}

/// Where a unit names an item, the item has units among them.
proof fn lemma_units_of_holds(units: Seq<UnitView>, item: Id, place: int)
    requires
        0 <= place < units.len(),
        units[place].item_uuid == item,
    ensures
        units_of(units, item).len() > 0,
    decreases units.len(),
{
    if place < units.len() - 1 {
        lemma_units_of_holds(units.drop_last(), item, place);
    }
}

/// The tree and the projection stay in step when an item without units is
/// deleted. (An item with units leaves their payloads behind, as orphans.)
pub proof fn lemma_item_deleted_in_step(
    tree: InventoryView,
    before: Seq<EntryView>,
    index: int,
    item: ItemView,
    after: Seq<EntryView>,
)
    requires
        in_step(tree, before),
        is_first_item(tree.items, item.uuid, index),
        tree.items[index].units.len() == 0,
        projects_to(
            before,
            EventView { kind: EventKind::Delete, entry: EntryView::Item(item.flat()) },
            after,
        ),
    ensures
        in_step(tree.item_removed(index), after),
{
    let entry = EntryView::Item(item.flat());
    let event = EventView { kind: EventKind::Delete, entry };
    lemma_projection_stays_unique(before, event, after);
    lemma_reconstruction_well_formed(before);
    let place = choose|k: int|
        #[trigger] is_first_entity(before, entry, k) && after == before.remove(k);
    let front = before.take(place);
    let back = before.skip(place + 1);
    let held = before[place];
    assert(held is Item);
    lemma_parts(before, place, entry);
    lemma_payloads_of_three(front, held, back);
    lemma_payloads_of_both(front, back);
    lemma_payloads_of_one(held);
    assert forall|probe: Probe| #[trigger] count_of(after, probe) <= count_of(before, probe) by {
        lemma_count_of_both(front, back, probe);
        assert(count_of(front + seq![held] + back, probe) == count_of(front, probe) + count_of(
            seq![held],
            probe,
        ) + count_of(back, probe));
    }
    lemma_sorting_of_no_more(before, after);
    let items = item_payloads(before);
    let units = unit_payloads(before);
    let items2 = item_payloads(after);
    let rank = item_payloads(front).len() as int;
    assert(items2 =~= items.remove(rank));
    assert(items[rank].uuid == item.uuid);
    assert(tree.items[rank].uuid == item.uuid);
    assert(rank == index) by {
        if rank < index {
            assert(tree.items[rank].uuid != tree.items[index].uuid);
        } else if index < rank {
            assert(tree.items[index].uuid != tree.items[rank].uuid);
        }
    }
    assert(unit_payloads(after) =~= units);
    assert(first_root(after) == first_root(before));
    assert(!has_orphan_unit(items2, units)) by {
        assert forall|m: int| 0 <= m < units.len() implies has_item(
            items2,
            (#[trigger] units[m]).item_uuid,
        ) by {
            assert(has_item(items, units[m].item_uuid));
            let k = choose|k: int|
                0 <= k < items.len() && (#[trigger] items[k]).uuid == units[m].item_uuid;
            if k == rank {
                lemma_units_of_holds(units, item.uuid, m);
                assert(tree.items[rank].units == units_of(units, items[rank].uuid));
            } else if k < rank {
                assert(items2[k].uuid == units[m].item_uuid);
            } else {
                assert(items2[k - 1].uuid == units[m].item_uuid);
            }
        }
    }
    assert(!has_orphan_item(tree.uuid, items2)) by {
        assert forall|k: int| 0 <= k < items2.len() implies (#[trigger] items2[k]).inventory_uuid
            == tree.uuid by {
            if k < rank {
                assert(items2[k] == items[k]);
            } else {
                assert(items2[k] == items[k + 1]);
            }
        }
    }
    assert(attach(items2, units) =~= tree.item_removed(index).items) by {
        assert forall|k: int| 0 <= k < items2.len() implies attach(items2, units)[k]
            == tree.item_removed(index).items[k] by {
            if k < rank {
                assert(items2[k] == items[k]);
            } else {
                assert(items2[k] == items[k + 1]);
            }
        }
    }
}

/// The units of an item among one unit alone: the unit where it names the
/// item, and none otherwise.
proof fn lemma_units_of_one(unit: UnitView, item: Id)
    ensures
        units_of(seq![unit], item) == if unit.item_uuid == item {
            seq![unit]
        } else {
            Seq::<UnitView>::empty()
        },
{
    let one = seq![unit];
    assert(one.drop_last() =~= Seq::<UnitView>::empty());
    assert(one.last() == unit);
    assert(units_of(one.drop_last(), item) =~= Seq::<UnitView>::empty());
    if unit.item_uuid == item {
        assert(units_of(one, item) =~= seq![unit]);
    }
}

/// Every unit of an item among `units` is one of `units`.
proof fn lemma_units_of_members(units: Seq<UnitView>, item: Id)
    ensures
        forall|t: int|
            0 <= t < units_of(units, item).len() ==> units.contains(
                #[trigger] units_of(units, item)[t],
            ),
    decreases units.len(),
{
    if units.len() > 0 {
        let earlier = units.drop_last();
        lemma_units_of_members(earlier, item);
        let own = units_of(units, item);
        let before = units_of(earlier, item);
        assert forall|t: int| 0 <= t < own.len() implies units.contains(#[trigger] own[t]) by {
            if t < before.len() {
                assert(own[t] == before[t]);
                let m = choose|m: int| 0 <= m < earlier.len() && earlier[m] == before[t];
                assert(units[m] == own[t]);
            } else {
                assert(units[units.len() - 1] == own[t]);
            }
        }
    }
}

/// Where the tree and the projection are in step, the unit that a mutation
/// finds in the tree is the unit that the log finds in the projection: the
/// first unit with the identifier `uuid` in the item in the place `index`
/// stands in the payload in the place `place`, the first that speaks of a
/// unit with that identifier; and the units of the item are those before
/// that payload, the unit, and those after it.
proof fn lemma_unit_found_in_both(
    tree: InventoryView,
    entries: Seq<EntryView>,
    index: int,
    spot: int,
    probe: UnitView,
    place: int,
)
    requires
        in_step(tree, entries),
        0 <= index < tree.items.len(),
        is_first_unit(tree.items[index].units, probe.uuid, spot),
        is_first_entity(entries, EntryView::Unit(probe), place),
    ensures
        entries[place] == EntryView::Unit(tree.items[index].units[spot]),
        spot == units_of(unit_payloads(entries.take(place)), tree.items[index].uuid).len(),
        tree.items[index].units == units_of(
            unit_payloads(entries.take(place)),
            tree.items[index].uuid,
        ) + seq![tree.items[index].units[spot]] + units_of(
            unit_payloads(entries.skip(place + 1)),
            tree.items[index].uuid,
        ),
{
    let front = entries.take(place);
    let back = entries.skip(place + 1);
    let held = entries[place];
    let own = tree.items[index].units;
    let item = tree.items[index].uuid;
    let found = own[spot];
    assert(held is Unit);
    let unit = held->Unit_0;
    lemma_parts(entries, place, held);
    lemma_payloads_of_three(front, held, back);
    lemma_payloads_of_one(held);
    let units = unit_payloads(entries);
    let before = unit_payloads(front);
    let after = unit_payloads(back);
    assert(units == before + seq![unit] + after);
    assert(own == units_of(units, item));
    lemma_units_of_both(before, seq![unit], item);
    lemma_units_of_both(before + seq![unit], after, item);
    lemma_units_of_one(unit, item);
    let first = units_of(before, item);
    let last = units_of(after, item);
    lemma_units_of_members(before, item);
    lemma_units_of_members(after, item);
    lemma_unit_payloads_are_entries(front);
    lemma_unit_payloads_are_entries(back);
    assert_by_contradiction!(spot >= first.len(), {
        assert(own[spot] == first[spot]);
        assert(before.contains(first[spot]));
        let m = choose|m: int| 0 <= m < before.len() && before[m] == found;
        assert(front.contains(EntryView::Unit(before[m])));
        let n = choose|n: int| 0 <= n < front.len() && front[n] == EntryView::Unit(found);
        assert(entries[n] == EntryView::Unit(found));
        assert(entries[n].same_entity(EntryView::Unit(probe)));
    });
    assert_by_contradiction!(unit.item_uuid == item, {
        assert(own =~= first + last);
        let t = spot - first.len();
        assert(own[spot] == last[t]);
        assert(after.contains(last[t]));
        let m = choose|m: int| 0 <= m < after.len() && after[m] == found;
        assert(back.contains(EntryView::Unit(after[m])));
        let n = choose|n: int| 0 <= n < back.len() && back[n] == EntryView::Unit(found);
        assert(entries[place + 1 + n] == EntryView::Unit(found));
        assert(held.same_entity(entries[place + 1 + n]));
    });
    assert(own =~= first + seq![unit] + last);
    assert(own[first.len() as int] == unit);
    assert(spot == first.len());
}

/// The tree and the projection stay in step when a unit is updated.
pub proof fn lemma_unit_updated_in_step(
    tree: InventoryView,
    before: Seq<EntryView>,
    index: int,
    spot: int,
    unit: UnitView,
    after: Seq<EntryView>,
)
    requires
        in_step(tree, before),
        is_first_item(tree.items, unit.item_uuid, index),
        is_first_unit(tree.items[index].units, unit.uuid, spot),
        projects_to(
            before,
            EventView { kind: EventKind::Update, entry: EntryView::Unit(unit) },
            after,
        ),
    ensures
        in_step(tree.unit_replaced(index, spot, unit), after),
{
    let entry = EntryView::Unit(unit);
    let event = EventView { kind: EventKind::Update, entry };
    lemma_projection_stays_unique(before, event, after);
    lemma_reconstruction_well_formed(before);
    let place = choose|k: int|
        #[trigger] is_first_entity(before, entry, k) && after == before.update(k, entry);
    lemma_unit_found_in_both(tree, before, index, spot, unit, place);
    let front = before.take(place);
    let back = before.skip(place + 1);
    let held = before[place];
    let old_unit = tree.items[index].units[spot];
    let item = tree.items[index].uuid;
    lemma_parts(before, place, entry);
    lemma_payloads_of_three(front, held, back);
    lemma_payloads_of_three(front, entry, back);
    lemma_payloads_of_one(held);
    lemma_payloads_of_one(entry);
    assert forall|probe: Probe| #[trigger] count_of(after, probe) <= count_of(before, probe) by {
        lemma_count_of_one(held, probe);
        lemma_count_of_one(entry, probe);
        assert(count_of(front + seq![held] + back, probe) == count_of(front, probe) + count_of(
            seq![held],
            probe,
        ) + count_of(back, probe));
        assert(count_of(front + seq![entry] + back, probe) == count_of(front, probe) + count_of(
            seq![entry],
            probe,
        ) + count_of(back, probe));
    }
    lemma_sorting_of_no_more(before, after);
    let items = item_payloads(before);
    let units = unit_payloads(before);
    let units2 = unit_payloads(after);
    let a = unit_payloads(front);
    let b = unit_payloads(back);
    assert(item_payloads(after) =~= items);
    assert(first_root(after) == first_root(before));
    assert(units == a + seq![old_unit] + b);
    assert(units2 == a + seq![unit] + b);
    assert(old_unit.item_uuid == item) by {
        crate::rebuild::lemma_units_of_named(units, item);
    }
    assert(!has_orphan_unit(items, units2)) by {
        assert forall|m: int| 0 <= m < units2.len() implies has_item(
            items,
            (#[trigger] units2[m]).item_uuid,
        ) by {
            if m == a.len() {
                assert(items[index].uuid == unit.item_uuid);
            } else {
                assert(units2[m] == units[m]);
                assert(has_item(items, units[m].item_uuid));
            }
        }
    }
    assert(attach(items, units2) =~= tree.unit_replaced(index, spot, unit).items) by {
        assert forall|k: int| 0 <= k < items.len() implies attach(items, units2)[k]
            == tree.unit_replaced(index, spot, unit).items[k] by {
            let id = items[k].uuid;
            lemma_units_of_both(a, seq![old_unit], id);
            lemma_units_of_both(a + seq![old_unit], b, id);
            lemma_units_of_both(a, seq![unit], id);
            lemma_units_of_both(a + seq![unit], b, id);
            lemma_units_of_one(old_unit, id);
            lemma_units_of_one(unit, id);
            if k != index {
                assert(tree.items[k].uuid != tree.items[index].uuid);
            } else {
                assert(units_of(units2, id) =~= tree.items[index].units.update(spot, unit));
            }
        }
    }
}

/// The tree and the projection stay in step when a unit is deleted.
pub proof fn lemma_unit_deleted_in_step(
    tree: InventoryView,
    before: Seq<EntryView>,
    index: int,
    spot: int,
    unit: UnitView,
    after: Seq<EntryView>,
)
    requires
        in_step(tree, before),
        is_first_item(tree.items, unit.item_uuid, index),
        is_first_unit(tree.items[index].units, unit.uuid, spot),
        projects_to(
            before,
            EventView { kind: EventKind::Delete, entry: EntryView::Unit(unit) },
            after,
        ),
    ensures
        in_step(tree.unit_removed(index, spot), after),
{
    let entry = EntryView::Unit(unit);
    let event = EventView { kind: EventKind::Delete, entry };
    lemma_projection_stays_unique(before, event, after);
    lemma_reconstruction_well_formed(before);
    let place = choose|k: int|
        #[trigger] is_first_entity(before, entry, k) && after == before.remove(k);
    lemma_unit_found_in_both(tree, before, index, spot, unit, place);
    let front = before.take(place);
    let back = before.skip(place + 1);
    let held = before[place];
    let old_unit = tree.items[index].units[spot];
    let item = tree.items[index].uuid;
    lemma_parts(before, place, entry);
    lemma_payloads_of_three(front, held, back);
    lemma_payloads_of_both(front, back);
    lemma_payloads_of_one(held);
    assert forall|probe: Probe| #[trigger] count_of(after, probe) <= count_of(before, probe) by {
        lemma_count_of_both(front, back, probe);
        assert(count_of(front + seq![held] + back, probe) == count_of(front, probe) + count_of(
            seq![held],
            probe,
        ) + count_of(back, probe));
    }
    lemma_sorting_of_no_more(before, after);
    let items = item_payloads(before);
    let units = unit_payloads(before);
    let units2 = unit_payloads(after);
    let a = unit_payloads(front);
    let b = unit_payloads(back);
    assert(item_payloads(after) =~= items);
    assert(first_root(after) == first_root(before));
    assert(units == a + seq![old_unit] + b);
    assert(units2 == a + b);
    assert(old_unit.item_uuid == item) by {
        crate::rebuild::lemma_units_of_named(units, item);
    }
    assert(!has_orphan_unit(items, units2)) by {
        assert forall|m: int| 0 <= m < units2.len() implies has_item(
            items,
            (#[trigger] units2[m]).item_uuid,
        ) by {
            if m < a.len() {
                assert(units2[m] == units[m]);
                assert(has_item(items, units[m].item_uuid));
            } else {
                assert(units2[m] == units[m + 1]);
                assert(has_item(items, units[m + 1].item_uuid));
            }
        }
    }
    assert(attach(items, units2) =~= tree.unit_removed(index, spot).items) by {
        assert forall|k: int| 0 <= k < items.len() implies attach(items, units2)[k]
            == tree.unit_removed(index, spot).items[k] by {
            let id = items[k].uuid;
            lemma_units_of_both(a, seq![old_unit], id);
            lemma_units_of_both(a + seq![old_unit], b, id);
            lemma_units_of_both(a, b, id);
            lemma_units_of_one(old_unit, id);
            if k != index {
                assert(tree.items[k].uuid != tree.items[index].uuid);
            } else {
                assert(units_of(units2, id) =~= tree.items[index].units.remove(spot));
            }
        }
    }
}

} // verus!
