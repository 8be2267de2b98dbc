//! What is in the way in a zone, and who put it there.

use vstd::prelude::*;

use super::container::ZoneContainers;
use super::item_props::ZoneItemProps;
use super::traits::EntityStore;
use super::zone::{forms_on, Zone};
use crate::collections::{in_order, numbers_are_listed_upwards};
use crate::coords::Heading;
use crate::ecumene::map_laws::{lemma_joined_has, lemma_sorted_has};
use crate::ecumene::shape_provider::ShapeProvider;
use crate::ecumene::snapshot::{all_shapes, shapes_of_tags};
use crate::ecumene::tile_provider::{sorted_stack, TileProvider};
use crate::vessel::entity::Entity;
use crate::vessel::static_data::StaticDataProvider;
use crate::vessel::tile_shape::TileShape;

verus! {

/// Law: of a list of forms, those are on a tile that have its coordinates.
pub proof fn forms_are_where_they_say(
    forms: Seq<(u16, u16, TileShape)>,
    x: u16,
    y: u16,
    s: TileShape,
)
    ensures
        forms_on(forms, x, y).contains(s) <==> forms.contains((x, y, s)),
    decreases forms.len(),
{
    let here = forms_on(forms, x, y);
    if forms.len() > 0 {
        let head = forms.drop_last();
        let f = forms.last();
        forms_are_where_they_say(head, x, y, s);
        let before = forms_on(head, x, y);
        if here.contains(s) {
            let i = choose|i: int| 0 <= i < here.len() && here[i] == s;
            if i < before.len() {
                assert(before.contains(s));
                let j = choose|j: int| 0 <= j < head.len() && head[j] == (x, y, s);
                assert(forms[j] == (x, y, s));
            } else {
                assert(forms[forms.len() - 1] == (x, y, s));
            }
        }
        if forms.contains((x, y, s)) {
            let j = choose|j: int| 0 <= j < forms.len() && forms[j] == (x, y, s);
            if j < head.len() {
                assert(head[j] == (x, y, s));
                let i = choose|i: int| 0 <= i < before.len() && before[i] == s;
                assert(here[i] == s);
            } else {
                assert(here[before.len() as int] == s);
            }
        }
    }
}

/// Whether somebody has put such a shape there.
pub open spec fn somebody_put(m: Map<u64, Seq<TileShape>>, s: TileShape) -> bool {
    exists|tag: u64| #[trigger] m.contains_key(tag) && m[tag].contains(s)
}

proof fn lemma_of_tags(m: Map<u64, Seq<TileShape>>, tags: Seq<u64>, s: TileShape)
    ensures
        shapes_of_tags(m, tags).contains(s) <==> exists|i: int|
            0 <= i < tags.len() && m[#[trigger] tags[i]].contains(s),
    decreases tags.len(),
{
    if tags.len() > 0 {
        let head = tags.drop_last();
        lemma_of_tags(m, head, s);
        lemma_joined_has(shapes_of_tags(m, head), m[tags.last()], s);
        if shapes_of_tags(m, tags).contains(s) {
            if m[tags.last()].contains(s) {
                assert(m[tags[tags.len() - 1]].contains(s));
            } else {
                let i = choose|i: int| 0 <= i < head.len() && m[#[trigger] head[i]].contains(s);
                assert(m[tags[i]].contains(s));
            }
        }
        if exists|i: int| 0 <= i < tags.len() && m[#[trigger] tags[i]].contains(s) {
            let i = choose|i: int| 0 <= i < tags.len() && m[#[trigger] tags[i]].contains(s);
            if i < head.len() {
                assert(m[head[i]].contains(s));
            }
        }
    }
}

/// Law: the obstacles of a tile are all that anybody has put there.
pub proof fn obstacles_are_somebodys(m: Map<u64, Seq<TileShape>>, s: TileShape)
    ensures
        all_shapes(m).contains(s) <==> somebody_put(m, s),
{
    let tags = in_order(m.dom());
    numbers_are_listed_upwards(m.dom());
    lemma_of_tags(m, tags, s);
    if all_shapes(m).contains(s) {
        let i = choose|i: int| 0 <= i < tags.len() && m[#[trigger] tags[i]].contains(s);
        assert(tags.contains(tags[i]));
        assert(m.contains_key(tags[i]));
    }
    if somebody_put(m, s) {
        let tag = choose|tag: u64| #[trigger] m.contains_key(tag) && m[tag].contains(s);
        assert(tags.contains(tag));
        let i = choose|i: int| 0 <= i < tags.len() && tags[i] == tag;
        assert(m[tags[i]].contains(s));
    }
}

/// Law: a tile of a zone has the shapes of the map, those that items have put there and
/// those that are remembered, and no others; with the slopes seen in a direction or flat.
pub proof fn zones_have_map_items_and_houses<
    E: Entity,
    S: EntityStore<E>,
    D: StaticDataProvider,
    C: ZoneContainers,
    P: ZoneItemProps,
>(z: &Zone<E, S, D, C, P>, x: u16, y: u16, direction: Heading, s: TileShape)
    ensures
        z.tiles().stack(x, y, direction).contains(s) <==> {
            ||| z.tiles().base_spec().stack(x, y, direction).contains(s)
            ||| somebody_put(z.snapshot.at(x, y), s)
            ||| z.registry.shapes(x, y).contains(s)
        },
        z.tiles().flat_stack(x, y).contains(s) <==> {
            ||| z.tiles().base_spec().flat_stack(x, y).contains(s)
            ||| somebody_put(z.snapshot.at(x, y), s)
            ||| z.registry.shapes(x, y).contains(s)
        },
        z.tiles().base_spec().world == z.map_id,
        z.tiles().base_spec().static_data is Some <==> z.static_data is Some,
        z.static_data matches Some(d) ==> z.tiles().base_spec().static_data == Some(&*d),
{
    let t = z.tiles();
    let put = all_shapes(z.snapshot.at(x, y));
    let kept = z.registry.shapes(x, y);
    let extras = t.extras(x, y);
    obstacles_are_somebodys(z.snapshot.at(x, y), s);
    lemma_joined_has(put, kept, s);
    let seen = t.base_spec().stack(x, y, direction);
    let flat = t.base_spec().flat_stack(x, y);
    lemma_joined_has(seen, extras, s);
    lemma_joined_has(flat, extras, s);
    lemma_sorted_has(seen + extras, s);
    lemma_sorted_has(flat + extras, s);
    assert(t.stack(x, y, direction) == sorted_stack(seen + extras));
    assert(t.flat_stack(x, y) == sorted_stack(flat + extras));
}

/// Law: an item that is brought into a zone stands with its forms on their tiles, besides
/// what was there; what others have put there stays. Mobiles and multi-objects put nothing
/// there.
pub proof fn items_stand_in_the_way<
    E: Entity,
    S: EntityStore<E>,
    D: StaticDataProvider,
    C: ZoneContainers,
    P: ZoneItemProps,
>(z: &Zone<E, S, D, C, P>, e: E, id: u32, x: u16, y: u16, s: TileShape, other: u64)
    ensures
        ({
            let before = z.snapshot.at(x, y);
            let after = z.obstacles_with(e, id, x, y);
            let tag = id as u64;
            let item = !e.state().mobile && !e.state().multi;
            &&& !item ==> after == before
            &&& item ==> ((after.contains_key(tag) && after[tag].contains(s)) <==> ((
            before.contains_key(tag) && before[tag].contains(s)) || (z.static_data is Some
                && z.forms_of(e).contains((x, y, s)))))
            &&& other != tag ==> (after.contains_key(other) <==> before.contains_key(other))
                && after[other] == before[other]
        }),
{
    let forms = z.forms_of(e);
    let more = forms_on(forms, x, y);
    forms_are_where_they_say(forms, x, y, s);
    let before = z.snapshot.at(x, y);
    let tag = id as u64;
    let had = if before.contains_key(tag) {
        before[tag]
    } else {
        Seq::empty()
    };
    lemma_joined_has(had, more, s);
    if more.contains(s) {
        assert(more.len() > 0);
    }
}

/// Law: an item that is taken out of a zone takes what it has put on the tiles of its forms
/// along, and nothing of anybody else. Mobiles and multi-objects have put nothing there.
pub proof fn items_go_with_their_forms<
    E: Entity,
    S: EntityStore<E>,
    D: StaticDataProvider,
    C: ZoneContainers,
    P: ZoneItemProps,
>(z: &Zone<E, S, D, C, P>, e: E, id: u32, x: u16, y: u16, other: u64)
    ensures
        ({
            let before = z.snapshot.at(x, y);
            let after = z.obstacles_without(e, id, x, y);
            let tag = id as u64;
            let item = !e.state().mobile && !e.state().multi;
            let there = exists|s: TileShape| #[trigger] z.forms_of(e).contains((x, y, s));
            &&& !item || !there ==> after == before
            &&& item && there ==> !after.contains_key(tag)
            &&& other != tag ==> (after.contains_key(other) <==> before.contains_key(other))
                && (before.contains_key(other) ==> after[other] == before[other])
        }),
{
    let forms = z.forms_of(e);
    let less = forms_on(forms, x, y);
    if less.len() > 0 {
        assert(less.contains(less[0]));
        forms_are_where_they_say(forms, x, y, less[0]);
        assert(forms.contains((x, y, less[0])));
    }
    if exists|s: TileShape| #[trigger] forms.contains((x, y, s)) {
        let s = choose|s: TileShape| #[trigger] forms.contains((x, y, s));
        forms_are_where_they_say(forms, x, y, s);
    }
}

/// Law: in a zone one goes on foot, over what is not impassable, and sees past all but walls
/// and what cannot be walked or shot through, and through windows. All that is looked at is
/// on the tiles of the zone.
pub proof fn zones_have_the_usual_rules<
    E: Entity,
    S: EntityStore<E>,
    D: StaticDataProvider,
    C: ZoneContainers,
    P: ZoneItemProps,
>(z: &Zone<E, S, D, C, P>)
    ensures
        z.ground_rules().passable_mask == 0,
        !z.ground_rules().can_fly,
        *z.ground_rules().provider == z.tiles(),
        z.sight_rules().blocking_mask == 0x10u64 | 0x40u64 | 0x2000u64,
        z.sight_rules().exempt_mask == 0x1000,
        z.sight_rules().transparent_mask == 0,
        *z.sight_rules().provider == z.tiles(),
{
    assert(0x10u64 | 0x40u64 | 0x2000u64 == 0x2050u64) by (bit_vector);
}

/// Law: nothing is known of a tile only where there is no map, nobody has put anything there,
/// and nothing is remembered of the world.
pub proof fn nothing_is_known_without_map_and_things<
    E: Entity,
    S: EntityStore<E>,
    D: StaticDataProvider,
    C: ZoneContainers,
    P: ZoneItemProps,
>(z: &Zone<E, S, D, C, P>, x: u16, y: u16, s: TileShape, id: u32)
    ensures
        z.static_data is Some ==> !z.nothing_at(x, y),
        somebody_put(z.snapshot.at(x, y), s) ==> !z.nothing_at(x, y),
        z.registry.cached(z.registry.current_world, id) is Some ==> !z.nothing_at(x, y),
        z.static_data is Some || z.registry.cached(z.registry.current_world, id) is Some
            ==> !z.nothing_anywhere(),
{
    obstacles_are_somebodys(z.snapshot.at(x, y), s);
}

} // verus!
