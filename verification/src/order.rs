//! The order of the payloads of a log does not decide whether a tree can be
//! rebuilt from them, nor which inventory and which items it has.

use crate::entry::EntryView;
use crate::ident::Id;
use crate::inventory::has_item;
use crate::item::ItemView;
use crate::rebuild::{
    attach, first_root, has_orphan_item, has_orphan_unit, item_payloads, partition_failure,
    reconstruction, unit_payloads, units_of,
};
use crate::unit::UnitView;
use vstd::multiset::{lemma_insert_increases_count_by_1, lemma_insert_other_elements_unchanged};
use vstd::prelude::*;
use vstd::seq_lib::{
    to_multiset_build, to_multiset_contains, to_multiset_len, to_multiset_remove,
};

verus! {

/// What to look for among payloads: any inventory, or the item with a given
/// identifier.
pub enum Probe {
    Root,
    Item(Id),
}

/// `entry` is what `probe` looks for.
pub open spec fn answers(entry: EntryView, probe: Probe) -> bool {
    match (probe, entry) {
        (Probe::Root, EntryView::Inventory(_)) => true,
        (Probe::Item(id), EntryView::Item(item)) => item.uuid == id,
        _ => false,
    }
}

/// How many payloads of `entries` are what `probe` looks for.
pub open spec fn count_of(entries: Seq<EntryView>, probe: Probe) -> nat
    decreases entries.len(),
{
    if entries.len() == 0 {
        0
    } else {
        count_of(entries.drop_last(), probe) + if answers(entries.last(), probe) {
            1nat
        } else {
            0nat
        }
    }
}

/// `entries` holds the payload of an item that, without its units, is
/// `item`.
pub open spec fn holds_item(entries: Seq<EntryView>, item: ItemView) -> bool {
    exists|k: int|
        0 <= k < entries.len() && match #[trigger] entries[k] {
            EntryView::Item(held) => held.flat() == item,
            _ => false,
        }
}

/// Taking one payload out lowers the count by one where the payload is what
/// the probe looks for, and leaves it otherwise.
pub proof fn lemma_count_without(entries: Seq<EntryView>, probe: Probe, place: int)
    requires
        0 <= place < entries.len(),
    ensures
        count_of(entries, probe) == count_of(entries.remove(place), probe) + if answers(
            entries[place],
            probe,
        ) {
            1nat
        } else {
            0nat
        },
    decreases entries.len(),
{
    if place == entries.len() - 1 {
        assert(entries.remove(place) =~= entries.drop_last());
    } else {
        lemma_count_without(entries.drop_last(), probe, place);
        assert(entries.remove(place).drop_last() =~= entries.drop_last().remove(place));
        assert(entries.remove(place).last() == entries.last());
    }
}

/// Two sequences with the same payloads, each as often in one as in the
/// other, give every probe the same count.
pub proof fn lemma_count_of_permutation(first: Seq<EntryView>, second: Seq<EntryView>, probe: Probe)
    requires
        first.to_multiset() == second.to_multiset(),
    ensures
        count_of(first, probe) == count_of(second, probe),
    decreases first.len(),
{
    to_multiset_len(first);
    to_multiset_len(second);
    if first.len() != 0 {
        let last = first.last();
        assert(first[first.len() - 1] == last);
        to_multiset_contains(first, last);
        to_multiset_contains(second, last);
        let place = choose|i: int| 0 <= i < second.len() && second[i] == last;
        let rest = first.drop_last();
        let others = second.remove(place);
        assert(first.remove(first.len() - 1) =~= rest);
        to_multiset_remove(first, first.len() - 1);
        to_multiset_remove(second, place);
        lemma_count_of_permutation(rest, others, probe);
        lemma_count_without(second, probe, place);
    }
}

/// A payload that is what the probe looks for is counted.
pub proof fn lemma_counted(entries: Seq<EntryView>, probe: Probe, place: int)
    requires
        0 <= place < entries.len(),
        answers(entries[place], probe),
    ensures
        count_of(entries, probe) >= 1,
{
    lemma_count_without(entries, probe, place);
}

/// Where a probe counts at most one payload, two payloads that are what it
/// looks for are one and the same.
pub proof fn lemma_counted_once(entries: Seq<EntryView>, probe: Probe, j: int, k: int)
    requires
        count_of(entries, probe) <= 1,
        0 <= j < entries.len(),
        0 <= k < entries.len(),
        answers(entries[j], probe),
        answers(entries[k], probe),
    ensures
        j == k,
{
    if j != k {
        lemma_count_without(entries, probe, j);
        let rest = entries.remove(j);
        let moved = if k < j {
            k
        } else {
            k - 1
        };
        assert(rest[moved] == entries[k]);
        lemma_counted(rest, probe, moved);
    }
}

/// There is a first inventory payload exactly where the probe for
/// inventories counts one or more.
pub proof fn lemma_root_counted(entries: Seq<EntryView>)
    ensures
        first_root(entries).is_some() <==> count_of(entries, Probe::Root) >= 1,
    decreases entries.len(),
{
    if entries.len() > 0 {
        lemma_root_counted(entries.drop_last());
    }
}

/// The first inventory payload is one of the payloads.
pub proof fn lemma_root_is_entry(entries: Seq<EntryView>)
    requires
        first_root(entries).is_some(),
    ensures
        entries.contains(EntryView::Inventory(first_root(entries).unwrap())),
    decreases entries.len(),
{
    let earlier = entries.drop_last();
    if first_root(earlier).is_some() {
        lemma_root_is_entry(earlier);
        let root = EntryView::Inventory(first_root(earlier).unwrap());
        let k = choose|k: int| 0 <= k < earlier.len() && earlier[k] == root;
        assert(entries[k] == root);
    } else {
        assert(entries[entries.len() - 1] == EntryView::Inventory(first_root(entries).unwrap()));
    }
}

/// The item payloads hold an identifier exactly where the probe for it
/// counts one or more.
pub proof fn lemma_item_counted(entries: Seq<EntryView>, id: Id)
    ensures
        has_item(item_payloads(entries), id) <==> count_of(entries, Probe::Item(id)) >= 1,
    decreases entries.len(),
{
    if entries.len() > 0 {
        let earlier = entries.drop_last();
        lemma_item_counted(earlier, id);
        let before = item_payloads(earlier);
        let now = item_payloads(entries);
        match entries.last() {
            EntryView::Item(item) => {
                assert(now == before.push(item.flat()));
                if has_item(before, id) {
                    let k = choose|k: int| 0 <= k < before.len() && (#[trigger] before[k]).uuid == id;
                    assert(now[k].uuid == id);
                }
                if item.uuid == id {
                    assert(now[now.len() - 1].uuid == id);
                }
                if has_item(now, id) {
                    let k = choose|k: int| 0 <= k < now.len() && (#[trigger] now[k]).uuid == id;
                    if k < before.len() {
                        assert(before[k].uuid == id);
                    }
                }
            },
            _ => {},
        }
    }
}

/// The sorting of payloads by kind fails nowhere exactly where they hold at
/// most one inventory and no identifier of an item twice.
pub proof fn lemma_sorting_by_counts(entries: Seq<EntryView>)
    ensures
        partition_failure(entries).is_none() <==> {
            &&& count_of(entries, Probe::Root) <= 1
            &&& forall|id: Id| #[trigger] count_of(entries, Probe::Item(id)) <= 1
        },
    decreases entries.len(),
{
    if entries.len() == 0 {
        assert forall|id: Id| #[trigger] count_of(entries, Probe::Item(id)) <= 1 by {}
    } else {
        let earlier = entries.drop_last();
        let last = entries.last();
        lemma_sorting_by_counts(earlier);
        lemma_root_counted(earlier);
        if partition_failure(entries).is_none() {
            assert(partition_failure(earlier).is_none());
            assert forall|id: Id| #[trigger] count_of(entries, Probe::Item(id)) <= 1 by {
                assert(count_of(earlier, Probe::Item(id)) <= 1);
                lemma_item_counted(earlier, id);
            }
        }
        if count_of(entries, Probe::Root) <= 1 && (forall|id: Id| #[trigger]
            count_of(entries, Probe::Item(id)) <= 1) {
            assert forall|id: Id| #[trigger] count_of(earlier, Probe::Item(id)) <= 1 by {
                assert(count_of(entries, Probe::Item(id)) <= 1);
            }
            assert(partition_failure(earlier).is_none());
            match last {
                EntryView::Item(item) => {
                    assert(count_of(entries, Probe::Item(item.uuid)) <= 1);
                    lemma_item_counted(earlier, item.uuid);
                },
                _ => {},
            }
        }
    }
}

/// The unit payloads are the units among the payloads: each of the first is
/// one of the second, and each of the second one of the first.
pub proof fn lemma_unit_payloads_are_entries(entries: Seq<EntryView>)
    ensures
        forall|m: int|
            0 <= m < unit_payloads(entries).len() ==> entries.contains(
                EntryView::Unit(#[trigger] unit_payloads(entries)[m]),
            ),
        forall|unit: UnitView|
            #[trigger] entries.contains(EntryView::Unit(unit)) ==> unit_payloads(entries).contains(
                unit,
            ),
    decreases entries.len(),
{
    if entries.len() > 0 {
        let earlier = entries.drop_last();
        lemma_unit_payloads_are_entries(earlier);
        let before = unit_payloads(earlier);
        let now = unit_payloads(entries);
        assert forall|m: int| 0 <= m < now.len() implies entries.contains(
            EntryView::Unit(#[trigger] now[m]),
        ) by {
            if m < before.len() {
                assert(now[m] == before[m]);
                let k = choose|k: int|
                    0 <= k < earlier.len() && earlier[k] == EntryView::Unit(before[m]);
                assert(entries[k] == EntryView::Unit(now[m]));
            } else {
                assert(entries[entries.len() - 1] == EntryView::Unit(now[m]));
            }
        }
        assert forall|unit: UnitView|
            #[trigger] entries.contains(EntryView::Unit(unit)) implies now.contains(unit) by {
            let k = choose|k: int| 0 <= k < entries.len() && entries[k] == EntryView::Unit(unit);
            if k < earlier.len() {
                assert(earlier[k] == EntryView::Unit(unit));
                assert(earlier.contains(EntryView::Unit(unit)));
                let m = choose|m: int| 0 <= m < before.len() && before[m] == unit;
                assert(now[m] == unit);
            } else {
                assert(now[now.len() - 1] == unit);
            }
        }
    }
}

/// The item payloads are the items among the payloads, without their units:
/// each of the first is one of the second, and each of the second one of the
/// first.
pub proof fn lemma_item_payloads_are_entries(entries: Seq<EntryView>)
    ensures
        forall|m: int|
            0 <= m < item_payloads(entries).len() ==> holds_item(
                entries,
                #[trigger] item_payloads(entries)[m],
            ),
        forall|item: ItemView|
            #[trigger] entries.contains(EntryView::Item(item)) ==> item_payloads(entries).contains(
                item.flat(),
            ),
    decreases entries.len(),
{
    if entries.len() > 0 {
        let earlier = entries.drop_last();
        lemma_item_payloads_are_entries(earlier);
        let before = item_payloads(earlier);
        let now = item_payloads(entries);
        assert forall|m: int| 0 <= m < now.len() implies holds_item(entries, #[trigger] now[m]) by {
            if m < before.len() {
                assert(now[m] == before[m]);
                assert(holds_item(earlier, before[m]));
                let k = choose|k: int|
                    0 <= k < earlier.len() && match #[trigger] earlier[k] {
                        EntryView::Item(held) => held.flat() == before[m],
                        _ => false,
                    };
                assert(entries[k] == earlier[k]);
            } else {
                assert(entries[entries.len() - 1] is Item);
            }
        }
        assert forall|item: ItemView|
            #[trigger] entries.contains(EntryView::Item(item)) implies now.contains(
            item.flat(),
        ) by {
            let k = choose|k: int| 0 <= k < entries.len() && entries[k] == EntryView::Item(item);
            if k < earlier.len() {
                assert(earlier[k] == EntryView::Item(item));
                assert(earlier.contains(EntryView::Item(item)));
                let m = choose|m: int| 0 <= m < before.len() && before[m] == item.flat();
                assert(now[m] == item.flat());
            } else {
                assert(now[now.len() - 1] == item.flat());
            }
        }
    }
}

/// How often `wanted` occurs in a sequence with `added` at its end: once
/// more than before where the two are equal, and as often as before
/// otherwise.
proof fn lemma_occurrences_after_push<A>(items: Seq<A>, added: A, wanted: A)
    ensures
        items.push(added).to_multiset().count(wanted) == items.to_multiset().count(wanted) + if added
            == wanted {
            1nat
        } else {
            0nat
        },
{
    to_multiset_build(items, added);
    lemma_insert_increases_count_by_1(items.to_multiset(), added);
    lemma_insert_other_elements_unchanged(items.to_multiset(), added, wanted);
}

/// Nothing occurs in the empty sequence.
proof fn lemma_occurrences_in_none<A>(wanted: A)
    ensures
        Seq::<A>::empty().to_multiset().count(wanted) == 0,
{
    to_multiset_contains(Seq::<A>::empty(), wanted);
}

/// A unit occurs among the unit payloads as often as its payload occurs
/// among the payloads.
pub proof fn lemma_unit_payloads_counted(entries: Seq<EntryView>, unit: UnitView)
    ensures
        unit_payloads(entries).to_multiset().count(unit) == entries.to_multiset().count(
            EntryView::Unit(unit),
        ),
    decreases entries.len(),
{
    if entries.len() == 0 {
        assert(entries =~= Seq::<EntryView>::empty());
        assert(unit_payloads(entries) =~= Seq::<UnitView>::empty());
        lemma_occurrences_in_none(unit);
        lemma_occurrences_in_none(EntryView::Unit(unit));
    } else {
        let earlier = entries.drop_last();
        lemma_unit_payloads_counted(earlier, unit);
        assert(entries =~= earlier.push(entries.last()));
        lemma_occurrences_after_push(earlier, entries.last(), EntryView::Unit(unit));
        match entries.last() {
            EntryView::Unit(last) => {
                lemma_occurrences_after_push(unit_payloads(earlier), last, unit);
            },
            _ => {},
        }
    }
}

/// A unit that names `item` occurs among the units of `item` as often as
/// among all units; another unit does not occur among them.
pub proof fn lemma_units_of_counted(units: Seq<UnitView>, item: Id, unit: UnitView)
    ensures
        units_of(units, item).to_multiset().count(unit) == if unit.item_uuid == item {
            units.to_multiset().count(unit)
        } else {
            0nat
        },
    decreases units.len(),
{
    if units.len() == 0 {
        assert(units =~= Seq::<UnitView>::empty());
        assert(units_of(units, item) =~= Seq::<UnitView>::empty());
        lemma_occurrences_in_none(unit);
    } else {
        let earlier = units.drop_last();
        lemma_units_of_counted(earlier, item, unit);
        assert(units =~= earlier.push(units.last()));
        lemma_occurrences_after_push(earlier, units.last(), unit);
        if units.last().item_uuid == item {
            lemma_occurrences_after_push(units_of(earlier, item), units.last(), unit);
        }
    }
}

/// Reconstruction does not go by the order of the payloads. Where a tree
/// can be rebuilt from some payloads, one can be rebuilt from the same
/// payloads in any other order. The two are the same inventory, with the
/// same fields; they hold items with the same identifiers; and an item of
/// one has the fields of the item of the other with its identifier, and the
/// same units, each as often.
pub proof fn lemma_reconstruction_of_permutation(first: Seq<EntryView>, second: Seq<EntryView>)
    requires
        first.to_multiset() == second.to_multiset(),
        reconstruction(first) is Ok,
    ensures
        reconstruction(second) is Ok,
        reconstruction(second).unwrap().uuid == reconstruction(first).unwrap().uuid,
        reconstruction(second).unwrap().flat() == reconstruction(first).unwrap().flat(),
        forall|id: Id|
            has_item(#[trigger] reconstruction(second).unwrap().items, id) <==> has_item(
                reconstruction(first).unwrap().items,
                id,
            ),
        forall|j: int, k: int|
            0 <= j < reconstruction(first).unwrap().items.len() && 0 <= k < reconstruction(
                second,
            ).unwrap().items.len() && (#[trigger] reconstruction(first).unwrap().items[j]).uuid == (
            #[trigger] reconstruction(second).unwrap().items[k]).uuid ==> {
                &&& reconstruction(first).unwrap().items[j].flat() == reconstruction(
                    second,
                ).unwrap().items[k].flat()
                &&& reconstruction(first).unwrap().items[j].units.to_multiset() == reconstruction(
                    second,
                ).unwrap().items[k].units.to_multiset()
            },
{
    assert forall|entry: EntryView| first.contains(entry) <==> second.contains(entry) by {
        to_multiset_contains(first, entry);
        to_multiset_contains(second, entry);
    }
    lemma_sorting_by_counts(first);
    lemma_sorting_by_counts(second);
    lemma_count_of_permutation(first, second, Probe::Root);
    assert forall|id: Id| #[trigger] count_of(second, Probe::Item(id)) <= 1 by {
        lemma_count_of_permutation(first, second, Probe::Item(id));
        assert(count_of(first, Probe::Item(id)) <= 1);
    }
    assert(partition_failure(second).is_none());
    lemma_root_counted(first);
    lemma_root_counted(second);
    let root = first_root(first).unwrap();
    let other = first_root(second).unwrap();
    lemma_root_is_entry(first);
    lemma_root_is_entry(second);
    assert(root == other) by {
        assert(second.contains(EntryView::Inventory(other)));
        assert(first.contains(EntryView::Inventory(other)));
        let j = choose|j: int| 0 <= j < first.len() && first[j] == EntryView::Inventory(other);
        let k = choose|k: int| 0 <= k < first.len() && first[k] == EntryView::Inventory(root);
        lemma_counted_once(first, Probe::Root, j, k);
    }
    let items = item_payloads(first);
    let units = unit_payloads(first);
    let items2 = item_payloads(second);
    let units2 = unit_payloads(second);
    lemma_unit_payloads_are_entries(first);
    lemma_unit_payloads_are_entries(second);
    lemma_item_payloads_are_entries(first);
    lemma_item_payloads_are_entries(second);
    assert forall|id: Id| has_item(items2, id) <==> has_item(items, id) by {
        lemma_item_counted(first, id);
        lemma_item_counted(second, id);
        lemma_count_of_permutation(first, second, Probe::Item(id));
    }
    assert(!has_orphan_unit(items2, units2)) by {
        assert forall|m: int| 0 <= m < units2.len() implies has_item(
            items2,
            (#[trigger] units2[m]).item_uuid,
        ) by {
            let unit = units2[m];
            assert(second.contains(EntryView::Unit(unit)));
            assert(first.contains(EntryView::Unit(unit)));
            assert(units.contains(unit));
            let n = choose|n: int| 0 <= n < units.len() && units[n] == unit;
            assert(has_item(items, units[n].item_uuid));
        }
    }
    assert(!has_orphan_item(other.uuid, items2)) by {
        assert forall|m: int| 0 <= m < items2.len() implies (#[trigger] items2[m]).inventory_uuid
            == other.uuid by {
            assert(holds_item(second, items2[m]));
            let k = choose|k: int|
                0 <= k < second.len() && match #[trigger] second[k] {
                    EntryView::Item(held) => held.flat() == items2[m],
                    _ => false,
                };
            match second[k] {
                EntryView::Item(held) => {
                    assert(second.contains(EntryView::Item(held)));
                    assert(first.contains(EntryView::Item(held)));
                    assert(items.contains(held.flat()));
                    let n = choose|n: int| 0 <= n < items.len() && items[n] == held.flat();
                    assert(items[n].inventory_uuid == root.uuid);
                },
                _ => {},
            }
        }
    }
    let tree = reconstruction(first).unwrap();
    let tree2 = reconstruction(second).unwrap();
    assert(tree2 == other.with_items(attach(items2, units2)));
    assert(tree == root.with_items(attach(items, units)));
    assert forall|id: Id| has_item(#[trigger] tree2.items, id) <==> has_item(tree.items, id) by {
        if has_item(tree2.items, id) {
            let k = choose|k: int| 0 <= k < tree2.items.len() && (#[trigger] tree2.items[k]).uuid == id;
            assert(items2[k].uuid == id);
            assert(has_item(items, id));
            let n = choose|n: int| 0 <= n < items.len() && (#[trigger] items[n]).uuid == id;
            assert(tree.items[n].uuid == id);
        }
        if has_item(tree.items, id) {
            let k = choose|k: int| 0 <= k < tree.items.len() && (#[trigger] tree.items[k]).uuid == id;
            assert(items[k].uuid == id);
            assert(has_item(items2, id));
            let n = choose|n: int| 0 <= n < items2.len() && (#[trigger] items2[n]).uuid == id;
            assert(tree2.items[n].uuid == id);
        }
    }
    assert forall|j: int, k: int|
        0 <= j < tree.items.len() && 0 <= k < tree2.items.len() && (#[trigger] tree.items[j]).uuid
            == (#[trigger] tree2.items[k]).uuid implies {
        &&& tree.items[j].flat() == tree2.items[k].flat()
        &&& tree.items[j].units.to_multiset() == tree2.items[k].units.to_multiset()
    } by {
        let id = tree.items[j].uuid;
        assert(holds_item(first, items[j]));
        let place = choose|n: int|
            0 <= n < first.len() && match #[trigger] first[n] {
                EntryView::Item(held) => held.flat() == items[j],
                _ => false,
            };
        assert(holds_item(second, items2[k]));
        let place2 = choose|n: int|
            0 <= n < second.len() && match #[trigger] second[n] {
                EntryView::Item(held) => held.flat() == items2[k],
                _ => false,
            };
        assert(second.contains(second[place2]));
        assert(first.contains(second[place2]));
        let twin = choose|n: int| 0 <= n < first.len() && first[n] == second[place2];
        assert(count_of(first, Probe::Item(id)) <= 1);
        lemma_counted_once(first, Probe::Item(id), place, twin);
        assert(items[j] == items2[k]);
        assert(tree.items[j].flat() =~= tree2.items[k].flat());
        assert(tree.items[j].units.to_multiset() =~= tree2.items[k].units.to_multiset()) by {
            assert forall|unit: UnitView|
                tree.items[j].units.to_multiset().count(unit) == tree2.items[k].units.to_multiset().count(
                    unit,
                ) by {
                lemma_units_of_counted(units, id, unit);
                lemma_units_of_counted(units2, id, unit);
                lemma_unit_payloads_counted(first, unit);
                lemma_unit_payloads_counted(second, unit);
            }
        }
    }
}

} // verus!
