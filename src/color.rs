//! Deterministic player colour: a hue picked from the connection id by steps
//! of the golden angle, so that consecutive ids get well separated colours.
//! Hues are kept in thousandths of a degree, which keeps them exact.

use vstd::arithmetic::div_mod::{lemma_add_mod_noop, lemma_mul_mod_noop_left};
use vstd::prelude::*;

verus! {

/// The golden angle (137.508 degrees), in thousandths of a degree.
pub const GOLDEN_ANGLE_MILLIDEG: u64 = 137508;

/// A full turn (360 degrees), in thousandths of a degree.
pub const FULL_TURN_MILLIDEG: u64 = 360000;

/// The hue, in thousandths of a degree, of the player on connection `id`:
/// `(id * 137.508) mod 360` degrees.
pub open spec fn hue_of(id: u64) -> int {
    (id as int * GOLDEN_ANGLE_MILLIDEG as int) % (FULL_TURN_MILLIDEG as int)
}

/// Computes the hue (thousandths of a degree) of the player on connection `id`.
pub fn player_hue(id: u64) -> (r: u32)
    ensures
        r as int == hue_of(id),
        r < FULL_TURN_MILLIDEG,
{
    let reduced = id % FULL_TURN_MILLIDEG;
    let h = (reduced * GOLDEN_ANGLE_MILLIDEG) % FULL_TURN_MILLIDEG;
    proof {
        lemma_mul_mod_noop_left(id as int, GOLDEN_ANGLE_MILLIDEG as int, FULL_TURN_MILLIDEG as int);
    }
    h as u32
}

/// Two connections whose ids differ by one get hues that differ by exactly
/// the golden angle, modulo a full turn.
pub proof fn lemma_consecutive_hues(id: u64)
    requires
        id < u64::MAX,
    ensures
        hue_of((id + 1) as u64) == (hue_of(id) + GOLDEN_ANGLE_MILLIDEG) % (FULL_TURN_MILLIDEG as int),
{
    let g = GOLDEN_ANGLE_MILLIDEG as int;
    let m = FULL_TURN_MILLIDEG as int;
    assert((id as int + 1) * g == id as int * g + g) by (nonlinear_arith);
    lemma_add_mod_noop(id as int * g, g, m);
    lemma_add_mod_noop(id as int * g % m, g, m);
    assert(g % m == g);
    assert((id as int * g % m) % m == id as int * g % m) by {
        vstd::arithmetic::div_mod::lemma_mod_twice(id as int * g, m);
    }
}

} // verus!
