//! Player movement figures of the fallback CMoveMgr of the F.E.A.R. SDK 1.08, in whole
//! LithTech centimetres, and the rule for when a jump starts.
use vstd::prelude::*;

verus! {

/// Running (AlwaysRun, a full stick on the 360), cm/s.
pub const RUN_SPEED_CM: u32 = 400;

/// PC walking (the Walk key); the 360 stick always runs.
pub const WALK_SPEED_CM: u32 = 280;

/// Crouched or crawling, cm/s.
pub const CROUCH_SPEED_CM: u32 = 200;

/// The player's gravity, not the world's: the SDK's `DEFAULT_PLAYER_GRAVITY`, cm/s².
pub const PLAYER_GRAVITY_CM: u32 = 2000;

/// Capsule radius: the half X/Z extent of the F.E.A.R. box.
pub const CAPSULE_RADIUS_CM: u32 = 40;

/// Eye height standing.
pub const STAND_EYE_CM: u32 = 160;

/// Eye height crouched (half-Y 61 cm).
pub const CROUCH_EYE_CM: u32 = 105;

/// Sideways eye offset at full lean: sin(20°) times a 70 cm torso-to-eye lever.
pub const LEAN_MAX_OFFSET_CM: u32 = 24;

/// Reach of the narrow Player_Narrow flashlight.
pub const FLASH_RADIUS_CM: u32 = 1400;

/// A jump starts only from the ground, not crouched, when it is pressed; there is no
/// coyote time.
pub fn jump_allowed(grounded: bool, crouch: bool, jump_pressed: bool) -> (r: bool)
    ensures
        r == (jump_pressed && grounded && !crouch),
{
    jump_pressed && grounded && !crouch
}

/// How far the eye rises when standing up from a crouch.
pub fn stand_raise_cm() -> (r: u32)
    ensures
        r == STAND_EYE_CM - CROUCH_EYE_CM,
{
    STAND_EYE_CM - CROUCH_EYE_CM
}

} // verus!
