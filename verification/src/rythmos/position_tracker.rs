//! Where the player is.

use vstd::prelude::*;

use crate::coords::Facing;
use crate::packets::{
    CharacterLocaleAndBody, DrawGamePlayer, DrawMobile, MobileView, UpdateMobile,
};

verus! {

/// The player's place and looks, as far as the server told of them.
#[derive(Debug, Clone, Copy, PartialEq, Eq, Structural)]
pub struct PositionTracker {
    /// Zero until the server told who the player is.
    pub serial: u32,
    pub body_type: u16,
    pub hue: u16,
    pub flags: u8,
    pub x: u16,
    pub y: u16,
    pub z: i8,
    pub facing: Facing,
}

/// A coordinate one step on; the map wraps around.
pub open spec fn stepped(c: u16, d: int) -> u16 {
    if c + d < 0 {
        u16::MAX
    } else if c + d > u16::MAX {
        0
    } else {
        (c + d) as u16
    }
}

pub(crate) fn step_coord(c: u16, d: i32) -> (r: u16)
    requires
        -1 <= d <= 1,
    ensures
        r == stepped(c, d as int),
{
    let t: i32 = c as i32 + d;
    if t < 0 {
        0xFFFF
    } else if t > 0xFFFF {
        0
    } else {
        t as u16
    }
}

impl PositionTracker {
    /// Nothing is known yet.
    pub open spec fn unknown() -> PositionTracker {
        PositionTracker {
            serial: 0,
            body_type: 0,
            hue: 0,
            flags: 0,
            x: 0,
            y: 0,
            z: 0,
            facing: Facing { raw: 0 },
        }
    }

    /// After a step: one who faces another way only turns.
    pub open spec fn after_step(self, f: Facing) -> PositionTracker {
        if self.facing.heading_spec() == f.heading_spec() {
            PositionTracker {
                x: stepped(self.x, f.heading_spec().dx()),
                y: stepped(self.y, f.heading_spec().dy()),
                facing: f,
                ..self
            }
        } else {
            PositionTracker { facing: f, ..self }
        }
    }

    /// After the first news of the player.
    pub open spec fn after_locale(self, p: CharacterLocaleAndBody) -> PositionTracker {
        PositionTracker {
            serial: p.serial,
            body_type: p.body_type,
            x: p.x,
            y: p.y,
            z: p.z,
            facing: Facing { raw: p.facing },
            ..self
        }
    }

    /// After the server put the player somewhere.
    pub open spec fn after_game_player(self, p: DrawGamePlayer) -> PositionTracker {
        PositionTracker {
            serial: p.serial,
            body_type: p.body_type,
            hue: p.hue,
            flags: p.flags,
            x: p.x,
            y: p.y,
            z: p.z,
            facing: Facing { raw: p.direction },
        }
    }

    /// After news of a mobile, which may be the player.
    pub open spec fn after_update(self, m: UpdateMobile) -> PositionTracker {
        if self.serial != 0 && m.serial == self.serial {
            PositionTracker {
                serial: self.serial,
                body_type: m.model,
                hue: m.hue,
                flags: m.status_flags,
                x: m.x,
                y: m.y,
                z: m.z,
                facing: Facing { raw: m.direction },
            }
        } else {
            self
        }
    }

    /// After a mobile was drawn, which may be the player.
    pub open spec fn after_draw(self, m: MobileView) -> PositionTracker {
        if self.serial != 0 && m.serial == self.serial {
            PositionTracker {
                serial: self.serial,
                body_type: m.graphic,
                hue: m.color,
                flags: m.status,
                x: m.x,
                y: m.y,
                z: m.z,
                facing: Facing { raw: m.direction },
            }
        } else {
            self
        }
    }

    /// Whether it is known who the player is.
    pub fn is_ready(&self) -> (b: bool)
        ensures
            b == (self.serial != 0),
    {
        self.serial != 0
    }

    /// Takes a step. Returns whether the player moved rather than turned.
    pub fn step(&mut self, facing: Facing) -> (moved: bool)
        ensures
            *final(self) == old(self).after_step(facing),
            moved == (old(self).facing.heading_spec() == facing.heading_spec()),
    {
        let heading = facing.heading();
        if self.facing.heading() != heading {
            self.facing = facing;
            return false;
        }
        let (dx, dy) = heading.delta();
        self.x = step_coord(self.x, dx);
        self.y = step_coord(self.y, dy);
        self.facing = facing;
        true
    }

    pub fn apply_character_locale(&mut self, p: &CharacterLocaleAndBody)
        ensures
            *final(self) == old(self).after_locale(*p),
    {
        self.serial = p.serial;
        self.body_type = p.body_type;
        self.x = p.x;
        self.y = p.y;
        self.z = p.z;
        self.facing = Facing::new(p.facing);
    }

    pub fn apply_draw_game_player(&mut self, p: &DrawGamePlayer)
        ensures
            *final(self) == old(self).after_game_player(*p),
    {
        self.serial = p.serial;
        self.body_type = p.body_type;
        self.hue = p.hue;
        self.flags = p.flags;
        self.x = p.x;
        self.y = p.y;
        self.z = p.z;
        self.facing = Facing::new(p.direction);
    }

    pub fn apply_update_mobile(&mut self, m: &UpdateMobile)
        ensures
            *final(self) == old(self).after_update(*m),
    {
        if self.serial != 0 && m.serial == self.serial {
            self.body_type = m.model;
            self.hue = m.hue;
            self.flags = m.status_flags;
            self.x = m.x;
            self.y = m.y;
            self.z = m.z;
            self.facing = Facing::new(m.direction);
        }
    }

    pub fn apply_draw_mobile(&mut self, m: &DrawMobile)
        ensures
            *final(self) == old(self).after_draw(m@),
    {
        if self.serial != 0 && m.serial == self.serial {
            self.body_type = m.graphic;
            self.hue = m.color;
            self.flags = m.status;
            self.x = m.x;
            self.y = m.y;
            self.z = m.z;
            self.facing = Facing::new(m.direction);
        }
    }

    /// The player's place as the server would send it.
    pub fn to_draw_game_player(&self) -> (p: DrawGamePlayer)
        ensures
            p == (DrawGamePlayer {
                serial: self.serial,
                body_type: self.body_type,
                hue: self.hue,
                flags: self.flags,
                x: self.x,
                y: self.y,
                z: self.z,
                direction: self.facing.raw,
            }),
    {
        DrawGamePlayer {
            serial: self.serial,
            body_type: self.body_type,
            hue: self.hue,
            flags: self.flags,
            x: self.x,
            y: self.y,
            z: self.z,
            direction: self.facing.raw(),
        }
    }
}

impl Default for PositionTracker {
    fn default() -> (p: PositionTracker)
        ensures
            p == PositionTracker::unknown(),
    {
        PositionTracker {
            serial: 0,
            body_type: 0,
            hue: 0,
            flags: 0,
            x: 0,
            y: 0,
            z: 0,
            facing: Facing::new(0),
        }
    }
}

/// Law: a place that is sent is the place that is taken.
pub proof fn sent_place_is_taken(p: PositionTracker, q: PositionTracker)
    ensures
        q.after_game_player(
            (DrawGamePlayer {
                serial: p.serial,
                body_type: p.body_type,
                hue: p.hue,
                flags: p.flags,
                x: p.x,
                y: p.y,
                z: p.z,
                direction: p.facing.raw,
            }),
        ) == p,
{
}

} // verus!
