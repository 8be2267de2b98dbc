//! What containers hold after each change, and where their items are known to be.

use vstd::prelude::*;

use super::container::{
    container_or_new, has_serial, index_with, index_without, lemma_first_index, minus, opened,
    places_with_container, places_without_item, upserted, without_item, ContainerItem,
    ContainerView,
};

verus! {

/// Law: an item that comes into a list takes the place of the first one with its serial; all
/// others keep theirs.
pub proof fn items_take_the_place_of_their_like(
    items: Seq<ContainerItem>,
    item: ContainerItem,
    i: int,
)
    requires
        0 <= i < items.len(),
        items[i].serial == item.serial,
        forall|j: int| 0 <= j < i ==> (#[trigger] items[j]).serial != item.serial,
    ensures
        upserted(items, item).len() == items.len(),
        upserted(items, item)[i] == item,
        forall|j: int|
            0 <= j < items.len() && j != i ==> #[trigger] upserted(items, item)[j] == items[j],
{
    assert(has_serial(items, item.serial));
    lemma_first_index(items, item.serial, i);
}

/// Law: an item of which there is none in a list comes last.
pub proof fn new_items_come_last(items: Seq<ContainerItem>, item: ContainerItem)
    requires
        forall|j: int| 0 <= j < items.len() ==> (#[trigger] items[j]).serial != item.serial,
    ensures
        upserted(items, item).len() == items.len() + 1,
        upserted(items, item).last() == item,
        forall|j: int| 0 <= j < items.len() ==> #[trigger] upserted(items, item)[j] == items[j],
{
    assert(!has_serial(items, item.serial));
}

/// Law: of a list without some items those are left whose serials are not among theirs.
pub proof fn others_are_left(items: Seq<ContainerItem>, gone: Set<u32>, t: ContainerItem)
    ensures
        minus(items, gone).contains(t) <==> items.contains(t) && !gone.contains(t.serial),
        minus(items, gone).len() <= items.len(),
{
    let p = |i: ContainerItem| !gone.contains(i.serial);
    let rest = minus(items, gone);
    items.lemma_filter_len(p);
    if rest.contains(t) {
        items.lemma_filter_contains_rev(p, t);
        let j = choose|j: int| 0 <= j < rest.len() && rest[j] == t;
        items.lemma_filter_pred(p, j);
    }
    if items.contains(t) && !gone.contains(t.serial) {
        let j = choose|j: int| 0 <= j < items.len() && items[j] == t;
        items.lemma_filter_contains(p, j);
    }
}

/// Law: a container that is opened keeps what it holds, shows what it was opened with, and is
/// empty if it was not known; a container that has items before it was opened shows the
/// common backpack. No other container changes.
pub proof fn opening_keeps_the_items(
    m: Map<u32, ContainerView>,
    cs: u32,
    gump_model: u16,
    other: u32,
)
    ensures
        opened(m, cs, gump_model).contains_key(cs),
        opened(m, cs, gump_model)[cs].gump_model == gump_model,
        m.contains_key(cs) ==> opened(m, cs, gump_model)[cs].items == m[cs].items
            && opened(m, cs, gump_model)[cs].serial == m[cs].serial,
        !m.contains_key(cs) ==> opened(m, cs, gump_model)[cs].items.len() == 0
            && opened(m, cs, gump_model)[cs].serial == cs,
        !m.contains_key(cs) ==> container_or_new(m, cs).gump_model == 0x3C
            && container_or_new(m, cs).serial == cs && container_or_new(m, cs).items.len() == 0,
        m.contains_key(cs) ==> container_or_new(m, cs) == m[cs],
        other != cs ==> (opened(m, cs, gump_model).contains_key(other) <==> m.contains_key(other))
            && (m.contains_key(other) ==> opened(m, cs, gump_model)[other] == m[other]),
{
}

/// Law: an item that is removed from a container is not in it any more; all others stay, in
/// this container and in others.
pub proof fn removed_items_are_gone(
    m: Map<u32, ContainerView>,
    cs: u32,
    s: u32,
    c: u32,
    t: ContainerItem,
)
    ensures
        without_item(m, cs, s).contains_key(c) <==> m.contains_key(c),
        m.contains_key(c) ==> (without_item(m, cs, s)[c].items.contains(t)
            <==> m[c].items.contains(t) && !(c == cs && t.serial == s)),
        m.contains_key(c) ==> without_item(m, cs, s)[c].gump_model == m[c].gump_model
            && without_item(m, cs, s)[c].serial == m[c].serial,
{
    if m.contains_key(cs) {
        others_are_left(m[cs].items, set![s], t);
    }
}

/// Law: when an item is removed from a container, only its own place is forgotten, and only
/// where it was known to be there and was.
pub proof fn removed_items_have_no_place(
    m: Map<u32, ContainerView>,
    places: Map<u32, u32>,
    cs: u32,
    s: u32,
    other: u32,
)
    ensures
        m.contains_key(cs) && has_serial(m[cs].items, s) && places.contains_key(s) && places[s]
            == cs ==> !places_without_item(m, places, cs, s).contains_key(s),
        other != s || !m.contains_key(cs) || !has_serial(m[cs].items, s) ==> (places_without_item(
            m,
            places,
            cs,
            s,
        ).contains_key(other) <==> places.contains_key(other)) && places_without_item(
            m,
            places,
            cs,
            s,
        )[other] == places[other],
        places.contains_key(s) && places[s] != cs ==> places_without_item(m, places, cs, s)
            == places,
{
}

/// Law: the items of a container that is stored are known to be in it; those of the one that
/// it takes the place of are known nowhere, unless it has them too; others stay where they
/// were known to be.
pub proof fn stored_containers_place_their_items(
    m: Map<u32, ContainerView>,
    places: Map<u32, u32>,
    cs: u32,
    view: ContainerView,
    s: u32,
)
    ensures
        ({
            let after = places_with_container(m, places, cs, view);
            let dropped = m.contains_key(cs) && has_serial(m[cs].items, s);
            if has_serial(view.items, s) {
                after.contains_key(s) && after[s] == cs
            } else if dropped {
                !after.contains_key(s)
            } else {
                &&& after.contains_key(s) <==> places.contains_key(s)
                &&& places.contains_key(s) ==> after[s] == places[s]
            }
        }),
{
}

/// Law: items that are entered under a container are known to be there, and those that are
/// struck out are known nowhere; to strike out what was entered leaves what was known of
/// others.
pub proof fn places_are_entered_and_struck_out(
    places: Map<u32, u32>,
    items: Seq<ContainerItem>,
    cs: u32,
    s: u32,
)
    ensures
        has_serial(items, s) ==> index_with(places, items, cs).contains_key(s) && index_with(
            places,
            items,
            cs,
        )[s] == cs,
        has_serial(items, s) ==> !index_without(places, items).contains_key(s),
        !has_serial(items, s) ==> (index_without(index_with(places, items, cs), items).contains_key(
            s,
        ) <==> places.contains_key(s)) && (places.contains_key(s) ==> index_without(
            index_with(places, items, cs),
            items,
        )[s] == places[s]),
{
}

} // verus!
