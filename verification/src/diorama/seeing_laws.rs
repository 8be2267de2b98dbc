//! What is seen after packets of the server, and what one who joins is told of it.

use vstd::prelude::*;

use super::bootstrap::{map_size, preamble, BootstrapView};
use super::container_packets::{added_item, content_items};
use super::pipeline::ObserverPipeline;
use super::session_view::{caches, diff_entries, house_parts};
use super::visible_world::{DataView, EntityView, VisibleView};
use crate::continuum::container::{
    deleted, has_serial, lemma_has_first, lemma_minus_members, lemma_upserted_members, ContainerItem,
    ContainerView,
};
use crate::ecumene::entity_registry::CacheMode;
use crate::packets::{
    drawn_container, AddItemToContainer, ContainerContent, EquipItem, EquippedItem, HouseTile,
    MapDiffEntry, MobileView, ObjectInfo, ObjectInfoSA, ServerPacket, UpdateMobile,
};
use crate::raw_bytes::bytes_of;
use crate::vessel::static_data::StaticDataProvider;

verus! {

/// Law: an object is where the server said, looks as it said, and is a mobile, a
/// multi-object or an item by the packet it came in. A multi-object in the older form has
/// its number where others have their graphic.
pub proof fn objects_are_as_they_were_sent(e: EntityView)
    ensures
        e.data matches DataView::ItemClassic { packet, is_container } ==> {
            &&& e.x() == packet.x && e.y() == packet.y && e.z() == packet.z
            &&& packet.multi matches Some(m) ==> e.graphic() == m && e.kind() is Multi
            &&& packet.multi is None ==> e.graphic() == packet.graphic && e.kind() is Item
            &&& e.container() == is_container
        },
        e.data matches DataView::ItemSA { packet, is_container } ==> {
            &&& e.x() == packet.x && e.y() == packet.y && e.z() == packet.z
            &&& e.graphic() == packet.graphic
            &&& packet.data_type is Multi ==> e.kind() is Multi
            &&& !(packet.data_type is Multi) ==> e.kind() is Item
            &&& e.container() == is_container
        },
        e.data matches DataView::Mobile { packet } ==> {
            &&& e.x() == packet.x && e.y() == packet.y && e.z() == packet.z
            &&& e.graphic() == packet.graphic
            &&& e.kind() is Mobile
            &&& !e.container()
            &&& e.worn() == packet.items
        },
        e.as_state().serial == e.serial,
        e.as_state().pos.x == e.x() && e.as_state().pos.y == e.y() && e.as_state().pos.z == e.z(),
        e.as_state().graphic == e.graphic(),
        e.as_state().mobile <==> e.kind() is Mobile,
        e.as_state().multi <==> e.kind() is Multi,
{
}

/// Law: an object that is shown is seen under its serial as it was sent, and still counts
/// as a container if it did before; no other object changes.
pub proof fn shown_objects_are_seen(v: VisibleView, c: ObjectInfo, o: ObjectInfoSA, m: MobileView)
    ensures
        ({
            let w = v.with_classic(c);
            &&& w.entities.contains_key(c.object_id)
            &&& w.entities[c.object_id].serial == c.object_id
            &&& w.entities[c.object_id].data matches DataView::ItemClassic {
                packet,
                is_container,
            } && packet == c && (is_container <==> v.entities.contains_key(c.object_id)
                && v.entities[c.object_id].container())
            &&& w.entities.remove(c.object_id) == v.entities.remove(c.object_id)
            &&& w.containers == v.containers && w.view_rect == v.view_rect
        }),
        ({
            let w = v.with_sa(o);
            &&& w.entities.contains_key(o.serial)
            &&& w.entities[o.serial].serial == o.serial
            &&& w.entities[o.serial].data matches DataView::ItemSA { packet, is_container }
                && packet == o && (is_container <==> v.entities.contains_key(o.serial)
                && v.entities[o.serial].container())
            &&& w.entities.remove(o.serial) == v.entities.remove(o.serial)
            &&& w.containers == v.containers && w.view_rect == v.view_rect
        }),
        ({
            let w = v.with_mobile(m);
            &&& w.entities.contains_key(m.serial)
            &&& w.entities[m.serial].serial == m.serial
            &&& w.entities[m.serial].data matches DataView::Mobile { packet } && packet == m
            &&& w.entities.remove(m.serial) == v.entities.remove(m.serial)
            &&& w.containers == v.containers && w.view_rect == v.view_rect
        }),
{
    assert(v.with_classic(c).entities.remove(c.object_id) =~= v.entities.remove(c.object_id));
    assert(v.with_sa(o).entities.remove(o.serial) =~= v.entities.remove(o.serial));
    assert(v.with_mobile(m).entities.remove(m.serial) =~= v.entities.remove(m.serial));
}

/// Law: of a mobile that is drawn anew, just what it wears now is known to be worn by it;
/// what it wore before and wears no more is worn by nobody. Of other items nothing changes.
pub proof fn drawn_mobiles_wear_what_they_show(v: VisibleView, m: MobileView, i: u32)
    ensures
        ({
            let w = v.with_mobile(m);
            let now = exists|k: int| 0 <= k < m.items.len() && (#[trigger] m.items[k]).serial == i;
            let then = v.entities.contains_key(m.serial) && exists|k: int|
                0 <= k < v.entities[m.serial].worn().len() && (
                #[trigger] v.entities[m.serial].worn()[k]).serial == i;
            &&& now ==> w.index.contains_key(i) && w.index[i] == m.serial
            &&& !now && then ==> !w.index.contains_key(i)
            &&& !now && !then ==> (w.index.contains_key(i) <==> v.index.contains_key(i)) && (
            v.index.contains_key(i) ==> w.index[i] == v.index[i])
        }),
{
}

/// Law: news of a mobile that is seen change its looks and its place to what they say, and
/// neither what it wears nor any other object; of one that is not seen, nothing.
pub proof fn news_change_what_they_say(v: VisibleView, u: UpdateMobile)
    ensures
        !v.has_mobile(u.serial) ==> v.updated(u) == v,
        v.has_mobile(u.serial) ==> {
            let w = v.updated(u);
            &&& w.has_mobile(u.serial)
            &&& w.mobile(u.serial).x == u.x && w.mobile(u.serial).y == u.y && w.mobile(u.serial).z
                == u.z
            &&& w.mobile(u.serial).graphic == u.model && w.mobile(u.serial).color == u.hue
            &&& w.mobile(u.serial).direction == u.direction
            &&& w.mobile(u.serial).status == u.status_flags
            &&& w.mobile(u.serial).notoriety == u.notoriety
            &&& w.mobile(u.serial).items == v.mobile(u.serial).items
            &&& w.mobile(u.serial).serial == v.mobile(u.serial).serial
            &&& w.entities.remove(u.serial) == v.entities.remove(u.serial)
            &&& w.index == v.index && w.containers == v.containers
        },
{
    if v.has_mobile(u.serial) {
        assert(v.updated(u).entities.remove(u.serial) =~= v.entities.remove(u.serial));
    }
}

/// Law: an item that is put on is worn on its layer, in the looks that the server said; all
/// that was worn on other layers still is, and nothing else. A colour of zero is none.
pub proof fn clothes_change_by_the_layer(v: VisibleView, q: EquipItem, e: EquippedItem)
    requires
        v.has_mobile(q.player_serial),
    ensures
        ({
            let w = v.equipped(q);
            let items = w.mobile(q.player_serial).items;
            let put_on = e.serial == q.item_serial && e.graphic == q.graphic && e.layer == q.layer
                && e.color == if q.color == 0 {
                None
            } else {
                Some(q.color)
            };
            &&& w.has_mobile(q.player_serial)
            &&& items.contains(e) <==> put_on || (v.mobile(q.player_serial).items.contains(e)
                && e.layer != q.layer)
            &&& w.entities.remove(q.player_serial) == v.entities.remove(q.player_serial)
            &&& w.containers == v.containers
        }),
{
    let w = v.equipped(q);
    let old = v.mobile(q.player_serial).items;
    let p = |e: EquippedItem| e.layer != q.layer;
    let kept = old.filter(p);
    let items = w.mobile(q.player_serial).items;
    let new = items.last();
    assert(items == kept.push(new));
    if kept.contains(e) {
        let j = choose|j: int| 0 <= j < kept.len() && kept[j] == e;
        old.lemma_filter_contains_rev(p, e);
        old.lemma_filter_pred(p, j);
        assert(items[j] == e);
    }
    if old.contains(e) && e.layer != q.layer {
        let i = choose|i: int| 0 <= i < old.len() && old[i] == e;
        old.lemma_filter_contains(p, i);
        assert(kept.contains(e));
    }
    assert(items[kept.len() as int] == new);
    if items.contains(e) {
        let j = choose|j: int| 0 <= j < items.len() && items[j] == e;
        if j < kept.len() {
            assert(kept[j] == e);
            assert(kept.contains(e));
        }
    }
    assert(w.entities.remove(q.player_serial) =~= v.entities.remove(q.player_serial));
}

/// Law: a worn item that is removed comes off its mobile, and nothing else does; any other
/// object is no longer seen. All other objects stay as they are.
pub proof fn removal_takes_one_object(v: VisibleView, after: VisibleView, s: u32, o: u32)
    requires
        v.removed(after, s),
        o != s,
        v.index.contains_key(s) ==> o != v.index[s],
    ensures
        after.entities.contains_key(o) <==> v.entities.contains_key(o),
        v.entities.contains_key(o) ==> after.entities[o] == v.entities[o],
        !v.index.contains_key(s) ==> !after.entities.contains_key(s),
        v.index.contains_key(s) ==> !after.index.contains_key(s),
        after.view_rect == v.view_rect && after.view_range == v.view_range,
{
}

/// Law: what a mobile wears after one of its items was removed is all else that it wore.
pub proof fn removal_takes_one_item(v: VisibleView, after: VisibleView, s: u32, e: EquippedItem)
    requires
        v.removed(after, s),
        v.index.contains_key(s),
        v.has_mobile(v.index[s]),
    ensures
        after.has_mobile(v.index[s]),
        after.mobile(v.index[s]).items.contains(e) <==> v.mobile(v.index[s]).items.contains(e)
            && e.serial != s,
{
    let old = v.mobile(v.index[s]).items;
    let p = |e: EquippedItem| e.serial != s;
    let kept = after.mobile(v.index[s]).items;
    assert(kept == old.filter(p));
    if kept.contains(e) {
        let j = choose|j: int| 0 <= j < kept.len() && kept[j] == e;
        old.lemma_filter_contains_rev(p, e);
        old.lemma_filter_pred(p, j);
    }
    if old.contains(e) && e.serial != s {
        let i = choose|i: int| 0 <= i < old.len() && old[i] == e;
        old.lemma_filter_contains(p, i);
    }
}

/// Law: a content that comes in whole is all that its container then holds, in its order;
/// none of its items is in any other container, and the items of others are otherwise where
/// they were. A container that was not known is shown as a plain one.
pub proof fn contents_come_in_whole(
    v: VisibleView,
    container: u32,
    items: Seq<ContainerItem>,
    c: u32,
    s: u32,
)
    ensures
        ({
            let w = v.filled(container, items);
            &&& w.containers.contains_key(container)
            &&& w.containers[container].items == items
            &&& v.containers.contains_key(container) ==> w.containers[container].gump_model
                == v.containers[container].gump_model
            &&& !v.containers.contains_key(container) ==> w.containers[container].gump_model == 0x3C
                && w.containers[container].serial == container
            &&& c != container ==> (w.containers.contains_key(c) <==> v.containers.contains_key(c))
            &&& c != container && v.containers.contains_key(c) ==> {
                &&& has_serial(w.containers[c].items, s) <==> has_serial(v.containers[c].items, s)
                    && !has_serial(items, s)
                &&& w.containers[c].gump_model == v.containers[c].gump_model
                &&& w.containers[c].serial == v.containers[c].serial
            }
            &&& w.entities == v.entities && w.index == v.index
        }),
{
    if c != container && v.containers.contains_key(c) {
        lemma_minus_members(
            v.containers[c].items,
            crate::continuum::container::serials_of(items),
            s,
        );
    }
}

/// Law: an item that comes into a container is there, as it was sent, beside all that was
/// there; and in no other container.
pub proof fn items_come_in_one_by_one(
    v: VisibleView,
    container: u32,
    item: ContainerItem,
    c: u32,
    s: u32,
)
    ensures
        ({
            let w = v.stored(container, item);
            let held = if v.containers.contains_key(container) {
                v.containers[container].items
            } else {
                Seq::empty()
            };
            &&& w.containers.contains_key(container)
            &&& has_serial(w.containers[container].items, s) <==> has_serial(held, s) || s
                == item.serial
            &&& w.containers[container].items.contains(item)
            &&& c != container ==> (w.containers.contains_key(c) <==> v.containers.contains_key(c))
            &&& c != container && v.containers.contains_key(c) ==> (has_serial(
                w.containers[c].items,
                s,
            ) <==> has_serial(v.containers[c].items, s) && s != item.serial)
            &&& w.entities == v.entities && w.index == v.index
        }),
{
    let held = crate::continuum::container::container_or_new(v.containers, container).items;
    lemma_upserted_members(held, item, s);
    let list = v.stored(container, item).containers[container].items;
    if has_serial(held, item.serial) {
        lemma_has_first(held, item.serial);
        let f = crate::continuum::container::first_index(held, item.serial);
        assert(list[f] == item);
    } else {
        assert(list[held.len() as int] == item);
    }
    if c != container && v.containers.contains_key(c) {
        lemma_minus_members(v.containers[c].items, set![item.serial], s);
    }
}

/// Law: an opened container is known under its serial with the look it is shown in; what it
/// holds is not changed, nor is any other container. If it is an object in view it counts
/// as a container from then on.
pub proof fn opened_containers_are_known(v: VisibleView, s: u32, gump: u16, c: u32)
    ensures
        ({
            let w = v.opened_container(s, gump);
            &&& w.containers.contains_key(s) && w.containers[s].gump_model == gump
            &&& v.containers.contains_key(s) ==> w.containers[s].items == v.containers[s].items
            &&& !v.containers.contains_key(s) ==> w.containers[s].items.len() == 0
                && w.containers[s].serial == s
            &&& c != s ==> (w.containers.contains_key(c) <==> v.containers.contains_key(c))
            &&& c != s && v.containers.contains_key(c) ==> w.containers[c] == v.containers[c]
            &&& v.entities.contains_key(s) && !(v.entities[s].data is Mobile)
                ==> w.entities[s].container()
            &&& w.entities.dom() == v.entities.dom()
            &&& c != s && v.entities.contains_key(c) ==> w.entities[c] == v.entities[c]
        }),
{
    assert(v.opened_container(s, gump).entities.dom() =~= v.entities.dom());
}

/// Law: of a deleted object nothing is left among the containers: the container with its
/// serial is gone, or else one container that held it holds it no more; all else stays.
pub proof fn deleted_objects_leave_the_containers(
    m: Map<u32, ContainerView>,
    r: Map<u32, ContainerView>,
    s: u32,
    c: u32,
    o: u32,
)
    requires
        deleted(m, r, s),
    ensures
        !r.contains_key(s),
        c != s ==> (r.contains_key(c) <==> m.contains_key(c)),
        c != s && m.contains_key(c) && o != s ==> (has_serial(r[c].items, o) <==> has_serial(
            m[c].items,
            o,
        )),
        m.contains_key(s) && c != s && m.contains_key(c) ==> r[c] == m[c],
        !m.contains_key(s) && (exists|k: u32|
            m.contains_key(k) && has_serial((#[trigger] m[k]).items, s)) ==> exists|k: u32|
            m.contains_key(k) && has_serial((#[trigger] m[k]).items, s) && !has_serial(
                r[k].items,
                s,
            ),
{
    if !m.contains_key(s) && crate::continuum::container::held_somewhere(m, s) {
        let k = choose|k: u32| #[trigger] crate::continuum::container::taken_from(m, r, k, s);
        lemma_minus_members(m[k].items, set![s], s);
        lemma_minus_members(m[k].items, set![s], o);
        assert(has_serial(m[k].items, s) && !has_serial(r[k].items, s));
    }
}

/// Law: items of containers are as the packets have them; those of older servers have no
/// place in a grid.
pub proof fn packed_items_are_as_they_were_sent(
    cc: ContainerContent,
    add: AddItemToContainer,
    i: int,
)
    ensures
        ({
            let a = added_item(add);
            &&& a.serial == add.serial && a.graphic == add.graphic && a.amount == add.amount
            &&& a.x == add.x && a.y == add.y && a.color == add.color && a.grid_index
                == add.grid_index
        }),
        cc matches ContainerContent::Legacy(l) ==> content_items(cc).len() == l@.len() && (0 <= i
            < l@.len() ==> {
            let a = content_items(cc)[i];
            &&& a.serial == l@[i].serial && a.graphic == l@[i].graphic && a.amount == l@[i].amount
            &&& a.x == l@[i].x && a.y == l@[i].y && a.color == l@[i].color && a.grid_index is None
        }),
        cc matches ContainerContent::Modern(l) ==> content_items(cc).len() == l@.len() && (0 <= i
            < l@.len() ==> {
            let a = content_items(cc)[i];
            &&& a.serial == l@[i].serial && a.graphic == l@[i].graphic && a.amount == l@[i].amount
            &&& a.x == l@[i].x && a.y == l@[i].y && a.color == l@[i].color && a.grid_index == Some(
                l@[i].grid_index,
            )
        }),
{
}

/// Law: the packet of an opened container has its serial in bytes one to four and its look
/// in bytes five and six, as far as it goes.
pub proof fn drawn_containers_are_read(data: Seq<u8>)
    ensures
        drawn_container(data) is Some <==> data.len() >= 5,
        drawn_container(data) matches Some(c) ==> {
            &&& c.0 == data[1] * 0x100_0000 + data[2] * 0x1_0000 + data[3] * 0x100 + data[4]
            &&& data.len() >= 7 ==> c.1 == data[5] * 0x100 + data[6]
            &&& data.len() < 7 ==> c.1 == 0
        },
{
}

/// Law: which objects are remembered goes by their kind: none at all, multi-objects, all
/// but mobiles, or all.
pub proof fn memory_goes_by_kind(e: EntityView)
    ensures
        !caches(CacheMode::Disabled, e),
        caches(CacheMode::MultisOnly, e) <==> e.kind() is Multi,
        caches(CacheMode::ItemsAndMultis, e) <==> e.kind() is Multi || e.kind() is Item,
        caches(CacheMode::All, e),
{
}

/// Law: the tiles of a house become visible parts at their offsets, and the patches that are
/// announced are counted world by world.
pub proof fn houses_and_patches_are_taken_over(
    tiles: Seq<HouseTile>,
    maps: Seq<MapDiffEntry>,
    i: int,
)
    ensures
        house_parts(tiles).len() == tiles.len(),
        0 <= i < tiles.len() ==> {
            let p = house_parts(tiles)[i];
            &&& p.tile_id == tiles[i].tile_id && p.x == tiles[i].x && p.y == tiles[i].y && p.z
                == tiles[i].z
            &&& p.flags != 0
        },
        diff_entries(maps).len() == maps.len(),
        0 <= i < maps.len() ==> diff_entries(maps)[i].0 == maps[i].map_patches && diff_entries(
            maps,
        )[i].1 == maps[i].static_patches,
{
}

/// Law: one who joins is told first who and where the player is, if that is known, and last
/// of that again; between them come the announced features, the world, the announced
/// patches, and the range of view if it is not eighteen; nothing else before the objects.
pub proof fn newcomers_are_told_in_order<D: StaticDataProvider>(
    o: &ObserverPipeline<D>,
    size: (u16, u16),
)
    ensures
        ({
            let p = preamble(o, size);
            let known: int = if o.pos.serial != 0 {
                1
            } else {
                0
            };
            let features: int = if o.session.last_enable_features is Some {
                1
            } else {
                0
            };
            let patches: int = if o.session.last_enable_map_diff is Some {
                1
            } else {
                0
            };
            let range: int = if o.session.visible@.view_range != 18 {
                1
            } else {
                0
            };
            &&& p.len() == known + features + 1 + patches + range + known
            &&& o.pos.serial != 0 ==> (p[0] matches BootstrapView::CharacterLocaleAndBody(l)
                && l.serial == o.pos.serial && l.body_type == o.pos.body_type && l.x == o.pos.x
                && l.y == o.pos.y && l.z == o.pos.z && l.facing == o.pos.facing.raw
                && l.map_width_minus8 == size.0 && l.map_height == size.1)
            &&& o.session.last_enable_features matches Some(b) ==> p[known] == BootstrapView::Raw(
                bytes_of(b),
            )
            &&& p[known + features] matches BootstrapView::SetMap { world } && world
                == o.session.current_world
            &&& o.session.last_enable_map_diff matches Some(b) ==> p[known + features + 1]
                == BootstrapView::Raw(bytes_of(b))
            &&& o.session.visible@.view_range != 18 ==> (p[known + features + 1 + patches]
                matches BootstrapView::ClientViewRange { range: r } && r
                == o.session.visible@.view_range % 256)
            &&& o.pos.serial != 0 ==> (p.last() matches BootstrapView::DrawGamePlayer(d)
                && d.serial == o.pos.serial && d.body_type == o.pos.body_type && d.hue == o.pos.hue
                && d.flags == o.pos.flags && d.x == o.pos.x && d.y == o.pos.y && d.z == o.pos.z
                && d.direction == o.pos.facing.raw)
        }),
{
}

/// Law: the size of a map is that of its data, or 6144 by 4096 where that is not known.
pub proof fn maps_have_a_size<D: StaticDataProvider>(d: Option<&D>, world: u8)
    ensures
        (d is None || (d->0).size_of_map(world) is None) ==> map_size(d, world) == (
            6144u16,
            4096u16,
        ),
        d matches Some(m) ==> (m.size_of_map(world) matches Some(s) ==> map_size(d, world) == s),
{
}

/// Law: each packet does what it is for: objects and mobiles are shown, updated, dressed,
/// deleted, and containers are opened and filled; any other packet changes nothing.
pub proof fn packets_do_what_they_are_for(
    v: VisibleView,
    after: VisibleView,
    data: Seq<u8>,
    packet: ServerPacket,
)
    requires
        v.takes(after, data, packet),
        data.len() > 0,
    ensures
        data[0] == 0x24 && data.len() >= 5 ==> after == v.opened_container(
            (drawn_container(data)->0).0,
            (drawn_container(data)->0).1,
        ),
        data[0] != 0x24 ==> {
            &&& packet matches ServerPacket::ObjectInfo(o) ==> after == v.with_classic(o)
            &&& packet matches ServerPacket::ObjectInfoSA(o) ==> after == v.with_sa(o)
            &&& packet matches ServerPacket::DrawMobile(m) ==> after == v.with_mobile(m@)
            &&& packet matches ServerPacket::UpdateMobile(u) ==> after == v.updated(u)
            &&& packet matches ServerPacket::EquipItem(e) ==> after == v.equipped(e)
            &&& packet matches ServerPacket::DeleteObject { serial } ==> v.removed(after, serial)
            &&& packet matches ServerPacket::AddItemToContainer(a) ==> after == v.stored(
                a.container_serial,
                added_item(a),
            )
            &&& packet matches ServerPacket::PacketList(l) ==> (l@.len() == 1 ==> after == v.with_sa(
                l@[0],
            ))
            &&& !(packet is ObjectInfo) && !(packet is ObjectInfoSA) && !(packet is PacketList) && !(
            packet is DrawMobile) && !(packet is DrawMobileExtended) && !(packet is UpdateMobile)
                && !(packet is EquipItem) && !(packet is DeleteObject) && !(
            packet is AddItemToContainer) && !(packet is ContainerContent) ==> after == v
        },
{
    if let ServerPacket::PacketList(l) = packet {
        if l@.len() == 1 && data[0] != 0x24 {
            reveal_with_fuel(VisibleView::with_list, 2);
            assert(l@.drop_last() =~= Seq::<ObjectInfoSA>::empty());
        }
    }
}

} // verus!
