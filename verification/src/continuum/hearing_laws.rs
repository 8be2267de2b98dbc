//! Who hears of what, in the places of events and the rectangles of observers.

use std::sync::Arc;

use vstd::prelude::*;

use super::observer::{
    carried_places, cargo_places, covers_some, is_told, ObserverRegistry, ObserverView,
    TargetView,
};
use super::world_event::WorldEvent;
use crate::coords::{MobilePos, Pos3D};
use crate::ecumene::tile_rect::TileRect;
use crate::vessel::EntitySnapshot;

verus! {

/// Whether an observer watches a tile of a map.
pub open spec fn watches(m: Map<u32, ObserverView>, id: u32, map_id: u8, x: u16, y: u16) -> bool {
    &&& m.contains_key(id)
    &&& m[id].map_id == map_id
    &&& m[id].view_rect.x_min <= x <= m[id].view_rect.x_max
    &&& m[id].view_rect.y_min <= y <= m[id].view_rect.y_max
}

/// Law: of a movement those are told who watch where it starts or where it ends, be it
/// into their view, out of it or within; and nobody else.
pub proof fn movements_are_seen_from_both_ends(
    m: Map<u32, ObserverView>,
    id: u32,
    map_id: u8,
    serial: u32,
    old_pos: MobilePos,
    new_pos: MobilePos,
    entity: Option<EntitySnapshot>,
    is_teleport: bool,
)
    ensures
        is_told(
            m,
            (WorldEvent::EntityMoved { map_id, serial, old_pos, new_pos, entity, is_teleport }),
            id,
        ) <==> watches(m, id, map_id, old_pos.x, old_pos.y) || watches(
            m,
            id,
            map_id,
            new_pos.x,
            new_pos.y,
        ),
{
    if m.contains_key(id) {
        lemma_two(m[id].view_rect, (old_pos.x, old_pos.y), (new_pos.x, new_pos.y));
    }
}

proof fn lemma_two(r: TileRect, a: (u16, u16), b: (u16, u16))
    ensures
        covers_some(r, seq![a, b]) <==> (r.x_min <= a.0 <= r.x_max && r.y_min <= a.1 <= r.y_max) || (
        r.x_min <= b.0 <= r.x_max && r.y_min <= b.1 <= r.y_max),
{
    let s = seq![a, b];
    assert(s[0] == a && s[1] == b);
    if r.has(a.0 as int, a.1 as int) {
        assert(r.has(s[0].0 as int, s[0].1 as int));
    }
    if r.has(b.0 as int, b.1 as int) {
        assert(r.has(s[1].0 as int, s[1].1 as int));
    }
}

proof fn lemma_one(r: TileRect, a: (u16, u16))
    ensures
        covers_some(r, seq![a]) <==> r.x_min <= a.0 <= r.x_max && r.y_min <= a.1 <= r.y_max,
{
    let s = seq![a];
    assert(s[0] == a);
    if r.has(a.0 as int, a.1 as int) {
        assert(r.has(s[0].0 as int, s[0].1 as int));
    }
}

/// Law: an effect is seen by those who watch where it comes from or where it goes to.
pub proof fn effects_are_seen_from_both_ends(m: Map<u32, ObserverView>, id: u32, e: WorldEvent)
    ensures
        e matches WorldEvent::EffectPlayed { map_id, x, y, target_x, target_y, .. } ==> (is_told(
            m,
            e,
            id,
        ) <==> watches(m, id, map_id, x, y) || watches(m, id, map_id, target_x, target_y)),
{
    if let WorldEvent::EffectPlayed { map_id, x, y, target_x, target_y, .. } = e {
        if m.contains_key(id) {
            lemma_two(m[id].view_rect, (x, y), (target_x, target_y));
        }
    }
}

/// Law: what happens at one place is told to those who watch that place, and to nobody
/// else: what appears, disappears or changes there, what is heard, what dies or comes back
/// to life, what is hurt, healed or changes otherwise, and what becomes of containers.
pub proof fn what_happens_at_a_place_is_told_there(
    m: Map<u32, ObserverView>,
    id: u32,
    e: WorldEvent,
)
    ensures
        e matches WorldEvent::EntitySpawned { map_id, pos, .. } ==> (is_told(m, e, id) <==> watches(
            m,
            id,
            map_id,
            pos.x,
            pos.y,
        )),
        e matches WorldEvent::EntityRemoved { map_id, last_pos, .. } ==> (is_told(m, e, id)
            <==> watches(m, id, map_id, last_pos.x, last_pos.y)),
        e matches WorldEvent::EntityUpdated { map_id, pos, .. } ==> (is_told(m, e, id) <==> watches(
            m,
            id,
            map_id,
            pos.x,
            pos.y,
        )),
        e matches WorldEvent::SoundPlayed { map_id, x, y, .. } ==> (is_told(m, e, id) <==> watches(
            m,
            id,
            map_id,
            x,
            y,
        )),
        e matches WorldEvent::AnimationPlayed { map_id, x, y, .. } ==> (is_told(m, e, id)
            <==> watches(m, id, map_id, x, y)),
        e matches WorldEvent::MobileKilled { map_id, x, y, .. } ==> (is_told(m, e, id) <==> watches(
            m,
            id,
            map_id,
            x,
            y,
        )),
        e matches WorldEvent::PlayerDied { map_id, x, y, .. } ==> (is_told(m, e, id) <==> watches(
            m,
            id,
            map_id,
            x,
            y,
        )),
        e matches WorldEvent::PlayerResurrected { map_id, x, y, .. } ==> (is_told(m, e, id)
            <==> watches(m, id, map_id, x, y)),
        e matches WorldEvent::GhostVisibilityChanged { map_id, x, y, .. } ==> (is_told(m, e, id)
            <==> watches(m, id, map_id, x, y)),
        e matches WorldEvent::DamageDealt { map_id, x, y, .. } ==> (is_told(m, e, id) <==> watches(
            m,
            id,
            map_id,
            x,
            y,
        )),
        e matches WorldEvent::MobileHealed { map_id, x, y, .. } ==> (is_told(m, e, id) <==> watches(
            m,
            id,
            map_id,
            x,
            y,
        )),
        e matches WorldEvent::ManaStaminaChanged { map_id, x, y, .. } ==> (is_told(m, e, id)
            <==> watches(m, id, map_id, x, y)),
        e matches WorldEvent::BaseStatChanged { map_id, x, y, .. } ==> (is_told(m, e, id)
            <==> watches(m, id, map_id, x, y)),
        e matches WorldEvent::ContainerContentsUpdated { map_id, x, y, .. } ==> (is_told(m, e, id)
            <==> watches(m, id, map_id, x, y)),
{
    let place: Option<(u16, u16)> = match e {
        WorldEvent::EntitySpawned { pos, .. } => Some((pos.x, pos.y)),
        WorldEvent::EntityRemoved { last_pos, .. } => Some((last_pos.x, last_pos.y)),
        WorldEvent::EntityUpdated { pos, .. } => Some((pos.x, pos.y)),
        WorldEvent::SoundPlayed { x, y, .. } => Some((x, y)),
        WorldEvent::AnimationPlayed { x, y, .. } => Some((x, y)),
        WorldEvent::MobileKilled { x, y, .. } => Some((x, y)),
        WorldEvent::PlayerDied { x, y, .. } => Some((x, y)),
        WorldEvent::PlayerResurrected { x, y, .. } => Some((x, y)),
        WorldEvent::GhostVisibilityChanged { x, y, .. } => Some((x, y)),
        WorldEvent::DamageDealt { x, y, .. } => Some((x, y)),
        WorldEvent::MobileHealed { x, y, .. } => Some((x, y)),
        WorldEvent::ManaStaminaChanged { x, y, .. } => Some((x, y)),
        WorldEvent::BaseStatChanged { x, y, .. } => Some((x, y)),
        WorldEvent::ContainerContentsUpdated { x, y, .. } => Some((x, y)),
        _ => None,
    };
    if let Some(p) = place {
        if m.contains_key(id) {
            lemma_one(m[id].view_rect, p);
        }
    }
}

/// Law: speech is heard where it is spoken, but the voice of the world, with the serial
/// 0xFFFFFFFF, on the whole map.
pub proof fn speech_is_heard_nearby(m: Map<u32, ObserverView>, id: u32, e: WorldEvent)
    ensures
        e matches WorldEvent::Speech { map_id, serial, x, y, .. } ==> (is_told(m, e, id) <==> if serial
            == 0xFFFF_FFFF {
            m.contains_key(id) && m[id].map_id == map_id
        } else {
            watches(m, id, map_id, x, y)
        }),
{
    if let WorldEvent::Speech { map_id, serial, x, y, .. } = e {
        if m.contains_key(id) {
            lemma_one(m[id].view_rect, (x, y));
        }
    }
}

/// Law: light, weather, season and music of a map are for all on it, and for nobody else.
pub proof fn the_sky_is_over_the_whole_map(m: Map<u32, ObserverView>, id: u32, e: WorldEvent)
    ensures
        e matches WorldEvent::GlobalLight { map_id, .. } ==> (is_told(m, e, id) <==> m.contains_key(
            id,
        ) && m[id].map_id == map_id),
        e matches WorldEvent::Weather { map_id, .. } ==> (is_told(m, e, id) <==> m.contains_key(id)
            && m[id].map_id == map_id),
        e matches WorldEvent::Season { map_id, .. } ==> (is_told(m, e, id) <==> m.contains_key(id)
            && m[id].map_id == map_id),
        e matches WorldEvent::Music { map_id, .. } ==> (is_told(m, e, id) <==> m.contains_key(id)
            && m[id].map_id == map_id),
{
}

/// Law: what is for one player reaches that player, on whatever map, and nobody else; that
/// a map was restored is told to nobody.
pub proof fn letters_reach_whom_they_are_for(m: Map<u32, ObserverView>, id: u32, e: WorldEvent)
    ensures
        e matches WorldEvent::TargetedGump { target_player, .. } ==> (is_told(m, e, id)
            <==> m.contains_key(id) && id == target_player),
        e matches WorldEvent::TargetedMessage { target_player, .. } ==> (is_told(m, e, id)
            <==> m.contains_key(id) && id == target_player),
        e matches WorldEvent::TargetedCloseGump { target_player, .. } ==> (is_told(m, e, id)
            <==> m.contains_key(id) && id == target_player),
        e matches WorldEvent::TargetedTargetCursor { target_player, .. } ==> (is_told(m, e, id)
            <==> m.contains_key(id) && id == target_player),
        e matches WorldEvent::TargetedCrossWorldTeleport { target_player, .. } ==> (is_told(m, e, id)
            <==> m.contains_key(id) && id == target_player),
        e is SnapshotRestored ==> !is_told(m, e, id),
{
}

proof fn lemma_carried(
    passengers: Seq<(u32, MobilePos, MobilePos, Option<EntitySnapshot>)>,
    n: int,
    p: (u16, u16),
)
    requires
        0 <= n <= passengers.len(),
    ensures
        carried_places(passengers, n).contains(p) <==> exists|i: int|
            0 <= i < n && ((p.0 == (#[trigger] passengers[i]).1.x && p.1 == passengers[i].1.y) || (
            p.0 == passengers[i].2.x && p.1 == passengers[i].2.y)),
    decreases n,
{
    if n > 0 {
        lemma_carried(passengers, n - 1, p);
        let before = carried_places(passengers, n - 1);
        let o = (passengers[n - 1].1.x, passengers[n - 1].1.y);
        let q = (passengers[n - 1].2.x, passengers[n - 1].2.y);
        lemma_pushed_twice(before, o, q, p);
    }
}

proof fn lemma_laden(
    cargo: Seq<(u32, Pos3D, Pos3D, Option<EntitySnapshot>)>,
    n: int,
    p: (u16, u16),
)
    requires
        0 <= n <= cargo.len(),
    ensures
        cargo_places(cargo, n).contains(p) <==> exists|i: int|
            0 <= i < n && ((p.0 == (#[trigger] cargo[i]).1.x && p.1 == cargo[i].1.y) || (p.0
                == cargo[i].2.x && p.1 == cargo[i].2.y)),
    decreases n,
{
    if n > 0 {
        lemma_laden(cargo, n - 1, p);
        let before = cargo_places(cargo, n - 1);
        let o = (cargo[n - 1].1.x, cargo[n - 1].1.y);
        let q = (cargo[n - 1].2.x, cargo[n - 1].2.y);
        lemma_pushed_twice(before, o, q, p);
    }
}

proof fn lemma_pushed_twice(s: Seq<(u16, u16)>, a: (u16, u16), b: (u16, u16), p: (u16, u16))
    ensures
        s.push(a).push(b).contains(p) <==> s.contains(p) || p == a || p == b,
{
    let t = s.push(a).push(b);
    if s.contains(p) {
        let i = choose|i: int| 0 <= i < s.len() && s[i] == p;
        assert(t[i] == p);
    }
    assert(t[s.len() as int] == a);
    assert(t[s.len() as int + 1] == b);
    if t.contains(p) {
        let i = choose|i: int| 0 <= i < t.len() && t[i] == p;
        if i < s.len() {
            assert(s[i] == p);
        }
    }
}

/// Law: the voyage of a ship is seen by those who watch where it starts or ends, for the
/// ship itself and for everyone and everything on board; and by nobody else.
pub proof fn voyages_are_seen_along_the_ship(m: Map<u32, ObserverView>, id: u32, e: WorldEvent)
    ensures
        e matches WorldEvent::ShipMoved {
            map_id,
            ship_old_pos,
            ship_new_pos,
            passengers,
            cargo,
            ..
        } ==> (is_told(m, e, id) <==> {
            ||| watches(m, id, map_id, ship_old_pos.x, ship_old_pos.y)
            ||| watches(m, id, map_id, ship_new_pos.x, ship_new_pos.y)
            ||| exists|i: int|
                0 <= i < passengers@.len() && (watches(
                    m,
                    id,
                    map_id,
                    (#[trigger] passengers@[i]).1.x,
                    passengers@[i].1.y,
                ) || watches(m, id, map_id, passengers@[i].2.x, passengers@[i].2.y))
            ||| exists|i: int|
                0 <= i < cargo@.len() && (watches(
                    m,
                    id,
                    map_id,
                    (#[trigger] cargo@[i]).1.x,
                    cargo@[i].1.y,
                ) || watches(m, id, map_id, cargo@[i].2.x, cargo@[i].2.y))
        }),
{
    if let WorldEvent::ShipMoved { map_id, ship_old_pos, ship_new_pos, passengers, cargo, .. } = e {
        let a = seq![(ship_old_pos.x, ship_old_pos.y), (ship_new_pos.x, ship_new_pos.y)];
        let b = carried_places(passengers@, passengers@.len() as int);
        let c = cargo_places(cargo@, cargo@.len() as int);
        let all = a + b + c;
        if m.contains_key(id) && m[id].map_id == map_id {
            let r = m[id].view_rect;
            if covers_some(r, all) {
                let k = choose|k: int|
                    0 <= k < all.len() && r.has((#[trigger] all[k]).0 as int, all[k].1 as int);
                let p = all[k];
                if k < 2 {
                    assert(p == a[k]);
                } else if k < 2 + b.len() {
                    assert(p == b[k - 2]);
                    assert(b.contains(p));
                    lemma_carried(passengers@, passengers@.len() as int, p);
                } else {
                    assert(p == c[k - 2 - b.len()]);
                    assert(c.contains(p));
                    lemma_laden(cargo@, cargo@.len() as int, p);
                }
            }
            assert forall|p: (u16, u16)| #[trigger] all.contains(p) && watches(
                m,
                id,
                map_id,
                p.0,
                p.1,
            ) implies covers_some(r, all) by {
                let k = choose|k: int| 0 <= k < all.len() && all[k] == p;
                assert(r.has(all[k].0 as int, all[k].1 as int));
            }
            assert(all[0] == a[0] && all[1] == a[1]);
            assert(all.contains(a[0]) && all.contains(a[1]));
            assert forall|p: (u16, u16)| b.contains(p) implies #[trigger] all.contains(p) by {
                let k = choose|k: int| 0 <= k < b.len() && b[k] == p;
                assert(all[2 + k] == p);
            }
            assert forall|p: (u16, u16)| c.contains(p) implies #[trigger] all.contains(p) by {
                let k = choose|k: int| 0 <= k < c.len() && c[k] == p;
                assert(all[2 + b.len() + k] == p);
            }
            assert forall|i: int| 0 <= i < passengers@.len() implies all.contains(
                ((#[trigger] passengers@[i]).1.x, passengers@[i].1.y),
            ) && all.contains((passengers@[i].2.x, passengers@[i].2.y)) by {
                lemma_carried(
                    passengers@,
                    passengers@.len() as int,
                    (passengers@[i].1.x, passengers@[i].1.y),
                );
                lemma_carried(
                    passengers@,
                    passengers@.len() as int,
                    (passengers@[i].2.x, passengers@[i].2.y),
                );
            }
            assert forall|i: int| 0 <= i < cargo@.len() implies all.contains(
                ((#[trigger] cargo@[i]).1.x, cargo@[i].1.y),
            ) && all.contains((cargo@[i].2.x, cargo@[i].2.y)) by {
                lemma_laden(
                    cargo@,
                    cargo@.len() as int,
                    (cargo@[i].1.x, cargo@[i].1.y),
                );
                lemma_laden(
                    cargo@,
                    cargo@.len() as int,
                    (cargo@[i].2.x, cargo@[i].2.y),
                );
            }
        }
    }
}

/// Law: a controller that is told of an event finds it last in its buffer, behind all that
/// waited there already; only where 256 events wait is the oldest of them lost. Whoever is
/// not told is left as they are.
pub proof fn what_is_told_waits_in_the_buffer(
    before: Map<u32, ObserverView>,
    after: Map<u32, ObserverView>,
    told: bool,
    id: u32,
    event: Arc<WorldEvent>,
)
    requires
        ObserverRegistry::routed(before, after, told, id, event),
    ensures
        !before.contains_key(id) ==> !after.contains_key(id),
        before.contains_key(id) && !told ==> after.contains_key(id) && after[id] == before[id],
        before.contains_key(id) && told ==> (before[id].target matches TargetView::Buffer(old) ==> {
            &&& after.contains_key(id)
            &&& after[id].map_id == before[id].map_id
            &&& after[id].view_rect == before[id].view_rect
            &&& after[id].target matches TargetView::Buffer(new) && {
                &&& new.len() == if old.len() >= 256 {
                    old.len()
                } else {
                    old.len() + 1
                }
                &&& new.last() == event
                &&& forall|i: int|
                    0 <= i < new.len() - 1 ==> #[trigger] new[i] == old[i + old.len() + 1
                        - new.len()]
            }
        }),
{
}

} // verus!
