//! Which particle the pointer holds, from one frame of button input.
use vstd::prelude::*;

verus! {

/// The particle held after a frame: a press grabs the picked particle (and keeps
/// the current one when nothing was picked), a release lets go, and otherwise
/// nothing changes.
pub fn drag_step(
    held: Option<usize>,
    just_pressed: bool,
    just_released: bool,
    picked: Option<usize>,
) -> (r: Option<usize>)
    ensures
        just_pressed && picked is Some ==> r == picked,
        just_pressed && picked is None ==> r == held,
        !just_pressed && just_released ==> r is None,
        !just_pressed && !just_released ==> r == held,
{
    if just_pressed {
        match picked {
            Some(p) => Some(p),
            None => held,
        }
    } else if just_released {
        None
    } else {
        held
    }
}

/// The camera may orbit only while no particle is held.
pub fn orbit_enabled(held: Option<usize>) -> (r: bool)
    ensures
        r == (held is None),
{
    held.is_none()
}

} // verus!
