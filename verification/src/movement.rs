//! Decisions of character movement: facing, the layer a character is told to move to, the
//! probe that looks for ground on that layer, and the depth command towards a waypoint.

use vstd::prelude::*;
use crate::layer::{Layer, layer_bit, rotate_up, rotate_down};

verus! {

/// Number of shape casts that look for ground on the target layer of a layer change. Many
/// is costly; few lets a character land inside an obstacle.
pub const MAX_Z_HITS: usize = 2;

/// The way a character faces.
#[derive(Clone, Copy, Debug, PartialEq, Eq, Structural)]
pub enum Direction {
    Left,
    Right,
}

impl Default for Direction {
    fn default() -> (r: Direction)
        ensures
            r == Direction::Right,
    {
        Direction::Right
    }
}

/// What a layer-change command leads to.
#[derive(Clone, Copy, Debug, PartialEq, Eq, Structural)]
pub enum LayerChange {
    /// There is no command.
    NoCommand,
    /// The new layer would be outside the map's gameplay layers.
    OutOfRange,
    /// Move to this layer.
    To(Layer),
}

/// The layer that a depth command `z_direction` (positive: outwards, negative: inwards)
/// leads to from `layer`, in a map with `map_layer_count` layers of which the gameplay
/// layers are numbers 1 to `map_layer_count - 1`.
pub fn layer_change_target(layer: Layer, z_direction: i8, map_layer_count: usize) -> (r: LayerChange)
    requires
        z_direction != 0 ==> 2 <= map_layer_count <= 32,
    ensures
        z_direction == 0 ==> r == LayerChange::NoCommand,
        z_direction != 0 ==> ({
            let new_mask = if z_direction > 0 {
                rotate_up(layer@)
            } else {
                rotate_down(layer@)
            };
            if layer_bit(1) <= new_mask <= layer_bit((map_layer_count - 1) as u32) {
                r matches LayerChange::To(l) && l@ == new_mask
            } else {
                r == LayerChange::OutOfRange
            }
        }),
{
    if z_direction == 0 {
        return LayerChange::NoCommand;
    }
    let new_layer = if z_direction > 0 {
        layer.next()
    } else {
        layer.prev()
    };
    let top = Layer::new(map_layer_count as u32 - 1);
    let bottom = Layer::bottom();
    if new_layer.to_bits() < bottom.to_bits() || new_layer.to_bits() > top.to_bits() {
        LayerChange::OutOfRange
    } else {
        LayerChange::To(new_layer)
    }
}

/// The depth command that moves a character on layer `from` one layer towards `to`:
/// -1 inwards, 1 outwards, 0 when already there.
pub fn z_direction_towards(from: Layer, to: Layer) -> (r: i8)
    ensures
        r == if from@ == to@ {
            0i8
        } else if from@ > to@ {
            -1i8
        } else {
            1i8
        },
{
    let a = from.to_bits();
    let b = to.to_bits();
    if a == b {
        0
    } else if a > b {
        -1
    } else {
        1
    }
}

/// The value of an input axis from its two keys: 1, -1, or 0 when both or neither are held.
pub fn axis(positive: bool, negative: bool) -> (r: i8)
    ensures
        r == (if positive { 1i8 } else { 0i8 }) - (if negative { 1i8 } else { 0i8 }),
{
    let p: i8 = if positive { 1 } else { 0 };
    let n: i8 = if negative { 1 } else { 0 };
    p - n
}

/// What the ground probe of a layer change does next.
#[derive(Clone, Copy, Debug, PartialEq, Eq, Structural)]
pub enum ProbeStep {
    /// Cast again, leaving out what was hit so far.
    CastAgain,
    /// An obstacle is in the way: the layer change is refused.
    Obstacle,
    /// Land on the last ground that was hit.
    Ground,
    /// No ground was found: the layer change is refused.
    NoGround,
}

/// The search for ground on the target layer of a layer change: the probe casts the
/// character's shape towards the new layer; each hit must be ground, and it keeps casting
/// past ground (something may stand on it) up to `MAX_Z_HITS` times.
#[derive(Clone, Copy, Debug, PartialEq, Eq, Structural)]
pub struct GroundProbe {
    pub casts: usize,
    pub ground_found: bool,
}

impl GroundProbe {
    /// A probe that has cast nothing yet.
    pub fn new() -> (r: GroundProbe)
        ensures
            r.casts == 0,
            !r.ground_found,
    {
        GroundProbe { casts: 0, ground_found: false }
    }

    /// Records the result of a cast: no hit (`None`) or a hit on ground (`Some(true)`) or on
    /// anything else (`Some(false)`); returns what to do next.
    pub fn record(&mut self, hit: Option<bool>) -> (r: ProbeStep)
        requires
            old(self).casts < MAX_Z_HITS,
        ensures
            hit is None ==> *final(self) == *old(self) && r == if old(self).ground_found {
                ProbeStep::Ground
            } else {
                ProbeStep::NoGround
            },
            hit == Some(false) ==> *final(self) == *old(self) && r == ProbeStep::Obstacle,
            hit == Some(true) ==> final(self).ground_found && final(self).casts == old(self).casts
                + 1 && r == if final(self).casts >= MAX_Z_HITS {
                ProbeStep::Ground
            } else {
                ProbeStep::CastAgain
            },
    {
        match hit {
            None => {
                if self.ground_found {
                    ProbeStep::Ground
                } else {
                    ProbeStep::NoGround
                }
            },
            Some(false) => ProbeStep::Obstacle,
            Some(true) => {
                self.ground_found = true;
                self.casts = self.casts + 1;
                if self.casts >= MAX_Z_HITS {
                    ProbeStep::Ground
                } else {
                    ProbeStep::CastAgain
                }
            },
        }
    }
}

} // verus!
