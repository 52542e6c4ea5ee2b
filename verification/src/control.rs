//! The decisions of the player-control systems: which portal a player steps
//! into (and, alike, which zone holds a sound source), which way the movement
//! keys point, and how fast a sprint goes.
use vstd::prelude::*;

verus! {

/// The first volume that holds a point, given for each volume in order
/// whether it holds the point: the portal a player steps into, or the zone
/// whose room effects a sound source takes.
pub fn first_containing(inside: &Vec<bool>) -> (r: Option<usize>)
    ensures
        match r {
            Some(i) => i < inside@.len() && inside@[i as int] && forall|j: int| 0 <= j < i ==> !#[trigger] inside@[j],
            None => forall|j: int| 0 <= j < inside@.len() ==> !#[trigger] inside@[j],
        },
{
    let mut i: usize = 0;
    while i < inside.len()
        invariant
            i <= inside@.len(),
            forall|j: int| 0 <= j < i ==> !#[trigger] inside@[j],
        decreases inside@.len() - i,
    {
        if inside[i] {
            return Some(i);
        }
        i = i + 1;
    }
    None
}

/// The first portal whose volume holds the player, unless the player is
/// already being teleported.
pub fn portal_to_enter(already_teleporting: bool, inside: &Vec<bool>) -> (r: Option<usize>)
    ensures
        already_teleporting ==> r is None,
        !already_teleporting ==> match r {
            Some(i) => i < inside@.len() && inside@[i as int] && forall|j: int| 0 <= j < i ==> !#[trigger] inside@[j],
            None => forall|j: int| 0 <= j < inside@.len() ==> !#[trigger] inside@[j],
        },
{
    if already_teleporting {
        None
    } else {
        first_containing(inside)
    }
}

/// The unit steps that the movement keys ask for along x, y and z: W is
/// forward (-z), S back (+z), A left (-x), D right (+x), Space up (+y).
pub fn movement_axes(w: bool, a: bool, s: bool, d: bool, space: bool) -> (axes: (i8, i8, i8))
    ensures
        axes.0 == (if d { 1int } else { 0int }) - (if a { 1int } else { 0int }),
        axes.1 == (if space { 1int } else { 0int }),
        axes.2 == (if s { 1int } else { 0int }) - (if w { 1int } else { 0int }),
{
    let mut x: i8 = 0;
    let mut y: i8 = 0;
    let mut z: i8 = 0;
    if w {
        z = z - 1;
    }
    if s {
        z = z + 1;
    }
    if a {
        x = x - 1;
    }
    if d {
        x = x + 1;
    }
    if space {
        y = y + 1;
    }
    (x, y, z)
}

/// The speed factor while sprinting (left shift held).
pub const SPRINT_FACTOR: u8 = 2;

/// What the movement keys ask for: the unit steps of `movement_axes`, and
/// the speed factor, `SPRINT_FACTOR` while left shift is held and 1
/// otherwise.
pub fn movement_intent(w: bool, a: bool, s: bool, d: bool, space: bool, shift: bool) -> (r: ((i8, i8, i8), u8))
    ensures
        r.0.0 == (if d { 1int } else { 0int }) - (if a { 1int } else { 0int }),
        r.0.1 == (if space { 1int } else { 0int }),
        r.0.2 == (if s { 1int } else { 0int }) - (if w { 1int } else { 0int }),
        r.1 == (if shift { SPRINT_FACTOR } else { 1u8 }),
{
    let axes = movement_axes(w, a, s, d, space);
    let factor: u8 = if shift { SPRINT_FACTOR } else { 1 };
    (axes, factor)
}

} // verus!
