//! Parameters of what scripts do.

use vstd::prelude::*;

verus! {

/// A graphical effect.
#[derive(Debug, Clone, Copy, PartialEq, Eq, Structural)]
pub struct EffectParams {
    pub direction_type: u8,
    pub source_serial: u32,
    pub target_serial: u32,
    pub graphic: u16,
    pub x: u16,
    pub y: u16,
    pub z: i8,
    pub target_x: u16,
    pub target_y: u16,
    pub target_z: i8,
    pub speed: u8,
    pub duration: u8,
    pub fixed_direction: bool,
    pub explode: bool,
}

/// What a script leaves out of an effect.
impl Default for EffectParams {
    fn default() -> (p: EffectParams)
        ensures
            p == (EffectParams {
                direction_type: 2,
                source_serial: 0,
                target_serial: 0,
                graphic: 0,
                x: 0,
                y: 0,
                z: 0,
                target_x: 0,
                target_y: 0,
                target_z: 0,
                speed: 10,
                duration: 30,
                fixed_direction: true,
                explode: false,
            }),
    {
        EffectParams {
            direction_type: 2,
            source_serial: 0,
            target_serial: 0,
            graphic: 0,
            x: 0,
            y: 0,
            z: 0,
            target_x: 0,
            target_y: 0,
            target_z: 0,
            speed: 10,
            duration: 30,
            fixed_direction: true,
            explode: false,
        }
    }
}

/// How something is animated.
#[derive(Debug, Clone, Copy, PartialEq, Eq, Structural)]
pub struct AnimateOpts {
    pub repeat_count: u16,
    pub reverse: bool,
    pub repeat: bool,
    pub frame_delay: u8,
}

/// What a script leaves out of an animation.
impl Default for AnimateOpts {
    fn default() -> (o: AnimateOpts)
        ensures
            o == (AnimateOpts { repeat_count: 1, reverse: false, repeat: false, frame_delay: 0 }),
    {
        AnimateOpts { repeat_count: 1, reverse: false, repeat: false, frame_delay: 0 }
    }
}

/// How something is said.
#[derive(Debug)]
pub struct SayOpts {
    pub speech_type: u8,
    pub color: u16,
    pub font: u16,
    pub name: Option<String>,
}

/// What a script leaves out of a speech.
impl Default for SayOpts {
    fn default() -> (o: SayOpts)
        ensures
            o == (SayOpts { speech_type: 0, color: 0x03B2, font: 3, name: None }),
    {
        SayOpts { speech_type: 0, color: 0x03B2, font: 3, name: None }
    }
}

} // verus!
