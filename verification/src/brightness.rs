//! Brightness targets as exact integer arithmetic.
//!
//! Ambient light values are held in thousandths (milli-units), so a reading
//! of 127.5 is the integer 127500. Display quantities are numerators over
//! the common denominator 255000 (= 255 * 1000) and keyboard quantities are
//! numerators over 4000 (= 4 * 1000); on those scales every bound and every
//! raw level from the control rules is an integer. The value written to a
//! brightness file is the integer part of the clamped rational target, which
//! the final division by the denominator yields exactly.

use vstd::prelude::*;
use vstd::arithmetic::div_mod::{lemma_div_is_ordered, lemma_div_multiples_vanish};
use vstd::arithmetic::mul::lemma_mul_inequality;

verus! {

/// `x` clamped to the interval `[lo, hi]`; sensible when `lo <= hi`.
pub open spec fn clamp_int(x: int, lo: int, hi: int) -> int {
    if x < lo {
        lo
    } else if x > hi {
        hi
    } else {
        x
    }
}

/// Lower display bound — 0.10 of the capacity on AC power, 0.025 on
/// battery — as a numerator over 255000.
pub open spec fn display_min_num(max_display: int, on_ac: bool) -> int {
    max_display * (if on_ac { 25500int } else { 6375int })
}

/// Upper display bound — the full capacity on AC power, 0.25 of it on
/// battery — as a numerator over 255000.
pub open spec fn display_max_num(max_display: int, on_ac: bool) -> int {
    max_display * (if on_ac { 255000int } else { 63750int })
}

/// Raw display level `light / 255 * 32 * capacity` as a numerator over
/// 255000.
pub open spec fn display_raw_num(max_display: int, light_milli: int) -> int {
    32 * light_milli * max_display
}

/// The integer written to the display brightness file: the raw level clamped
/// to the bounds of the current power state, truncated to a whole number.
pub open spec fn display_target(max_display: int, on_ac: bool, light_milli: int) -> int {
    clamp_int(
        display_raw_num(max_display, light_milli),
        display_min_num(max_display, on_ac),
        display_max_num(max_display, on_ac),
    ) / 255000
}

/// Lower display bound in milli-units (numerator over 1000).
pub open spec fn display_min_milli(max_display: int, on_ac: bool) -> int {
    max_display * (if on_ac { 100int } else { 25int })
}

/// Upper display bound in milli-units.
pub open spec fn display_max_milli(max_display: int, on_ac: bool) -> int {
    max_display * (if on_ac { 1000int } else { 250int })
}

/// Keyboard bound — 0.20 of the capacity on AC power, 0.05 on battery — as a
/// numerator over 4000. The keyboard floor is always 0.
pub open spec fn kbd_limit_num(max_kbd: int, on_ac: bool) -> int {
    max_kbd * (if on_ac { 800int } else { 200int })
}

/// Keyboard bound in milli-units.
pub open spec fn kbd_limit_milli(max_kbd: int, on_ac: bool) -> int {
    max_kbd * (if on_ac { 200int } else { 50int })
}

/// Raw keyboard level as a numerator over 4000: zero from ambient light 5.0
/// upward, otherwise `capacity / 4 * (4 - light)`.
pub open spec fn kbd_raw_num(max_kbd: int, light_milli: int) -> int {
    if light_milli >= 5000 {
        0
    } else {
        max_kbd * (4000 - light_milli)
    }
}

/// The integer written to the keyboard brightness file: the raw level
/// clamped to `[0, bound]`, truncated to a whole number.
pub open spec fn kbd_target(max_kbd: int, on_ac: bool, light_milli: int) -> int {
    clamp_int(kbd_raw_num(max_kbd, light_milli), 0, kbd_limit_num(max_kbd, on_ac)) / 4000
}

/// Display brightness for one cycle. The result is the exact truncated
/// rational target, and it lies between the truncated bounds of the current
/// power state.
pub fn compute_display_brightness(max_display: u32, on_ac: bool, light_milli: i64) -> (r: u32)
    ensures
        r as int == display_target(max_display as int, on_ac, light_milli as int),
        display_min_num(max_display as int, on_ac) / 255000 <= r as int,
        r as int <= display_max_num(max_display as int, on_ac) / 255000,
        r <= max_display,
{
    let m: i128 = max_display as i128;
    let l: i128 = light_milli as i128;
    let scaled: i128 = 32 * l;
    proof {
        assert(-(0x10000000000000000000000000int) <= (32 * (light_milli as int)) * (
        max_display as int) <= 0x10000000000000000000000000int) by (nonlinear_arith)
            requires
                -(0x100000000000000000int) <= 32 * (light_milli as int)
                    <= 0x100000000000000000int,
                0 <= max_display as int <= 0x100000000int,
        ;
    }
    let raw: i128 = scaled * m;
    let min_n: i128 = m * (if on_ac { 25500 } else { 6375 });
    let max_n: i128 = m * (if on_ac { 255000 } else { 63750 });
    let clamped: i128 = if raw < min_n {
        min_n
    } else if raw > max_n {
        max_n
    } else {
        raw
    };
    proof {
        assert(min_n <= max_n);
        assert(clamped >= 0);
        lemma_div_is_ordered(min_n as int, clamped as int, 255000);
        lemma_div_is_ordered(clamped as int, max_n as int, 255000);
        lemma_div_is_ordered(clamped as int, 255000 * (max_display as int), 255000);
        lemma_div_multiples_vanish(max_display as int, 255000);
    }
    let q: u128 = (clamped as u128) / 255000;
    q as u32
}

/// Keyboard brightness for one cycle: the exact truncated rational target,
/// zero whenever ambient light is at least 5.0, and never above the
/// truncated bound of the current power state.
pub fn compute_kbd_brightness(max_kbd: u32, on_ac: bool, light_milli: i64) -> (r: u32)
    ensures
        r as int == kbd_target(max_kbd as int, on_ac, light_milli as int),
        light_milli >= 5000 ==> r == 0,
        r as int <= kbd_limit_num(max_kbd as int, on_ac) / 4000,
        r <= max_kbd,
{
    let m: i128 = max_kbd as i128;
    let raw: i128 = if light_milli >= 5000 {
        0
    } else {
        let diff: i128 = 4000 - (light_milli as i128);
        proof {
            assert(-(0x10000000000000000000000000int) <= (max_kbd as int) * (4000
                - light_milli as int) <= 0x10000000000000000000000000int) by (nonlinear_arith)
                requires
                    -(0x100000000000000000int) <= 4000 - light_milli as int
                        <= 0x100000000000000000int,
                    0 <= max_kbd as int <= 0x100000000int,
            ;
        }
        m * diff
    };
    let limit: i128 = m * (if on_ac { 800 } else { 200 });
    let clamped: i128 = if raw < 0 {
        0
    } else if raw > limit {
        limit
    } else {
        raw
    };
    proof {
        assert(clamped >= 0);
        lemma_div_is_ordered(clamped as int, limit as int, 4000);
        lemma_div_is_ordered(clamped as int, 4000 * (max_kbd as int), 4000);
        lemma_div_multiples_vanish(max_kbd as int, 4000);
        if light_milli >= 5000 {
            assert(clamped as int / 4000 == 0) by {
                lemma_div_multiples_vanish(0, 4000);
            }
        }
    }
    let q: u128 = (clamped as u128) / 4000;
    q as u32
}

/// Law: the display target is the raw level clamped to the bounds of the
/// current power state — its numerator lies between the bound numerators,
/// and the written integer lies between the truncated bounds.
pub proof fn lemma_display_target_clamped(max_display: int, on_ac: bool, light_milli: int)
    requires
        max_display >= 0,
    ensures
        display_min_num(max_display, on_ac) <= clamp_int(
            display_raw_num(max_display, light_milli),
            display_min_num(max_display, on_ac),
            display_max_num(max_display, on_ac),
        ) <= display_max_num(max_display, on_ac),
        display_min_num(max_display, on_ac) / 255000 <= display_target(
            max_display,
            on_ac,
            light_milli,
        ) <= display_max_num(max_display, on_ac) / 255000,
{
    let lo = display_min_num(max_display, on_ac);
    let hi = display_max_num(max_display, on_ac);
    let c = clamp_int(display_raw_num(max_display, light_milli), lo, hi);
    assert(lo <= hi);
    lemma_div_is_ordered(lo, c, 255000);
    lemma_div_is_ordered(c, hi, 255000);
}

/// Law: from ambient light 5.0 upward the keyboard target is exactly 0.
pub proof fn lemma_kbd_dark_above_cutoff(max_kbd: int, on_ac: bool, light_milli: int)
    requires
        max_kbd >= 0,
        light_milli >= 5000,
    ensures
        kbd_target(max_kbd, on_ac, light_milli) == 0,
{
    lemma_div_multiples_vanish(0, 4000);
}

/// Law: below the 5.0 cutoff the raw keyboard level falls linearly with
/// ambient light — raising the light by `d` milli-units lowers the raw
/// numerator by exactly `capacity * d` — the written keyboard target never
/// increases as ambient light increases, and it is 0 from light 4.0 upward.
pub proof fn lemma_kbd_linear_decrease(max_kbd: int, on_ac: bool, l1: int, l2: int)
    requires
        max_kbd >= 0,
        l1 <= l2,
    ensures
        l2 < 5000 ==> kbd_raw_num(max_kbd, l1) - kbd_raw_num(max_kbd, l2) == max_kbd * (l2 - l1),
        kbd_target(max_kbd, on_ac, l1) >= kbd_target(max_kbd, on_ac, l2),
        l1 >= 4000 ==> kbd_target(max_kbd, on_ac, l1) == 0,
{
    let limit = kbd_limit_num(max_kbd, on_ac);
    assert(limit >= 0);
    if l2 < 5000 {
        assert(max_kbd * (4000 - l1) - max_kbd * (4000 - l2) == max_kbd * (l2 - l1))
            by (nonlinear_arith);
    }
    let c1 = clamp_int(kbd_raw_num(max_kbd, l1), 0, limit);
    let c2 = clamp_int(kbd_raw_num(max_kbd, l2), 0, limit);
    if l2 < 5000 {
        lemma_mul_inequality(4000 - l2, 4000 - l1, max_kbd);
        assert((4000 - l2) * max_kbd == max_kbd * (4000 - l2)) by (nonlinear_arith);
        assert((4000 - l1) * max_kbd == max_kbd * (4000 - l1)) by (nonlinear_arith);
        assert(kbd_raw_num(max_kbd, l2) <= kbd_raw_num(max_kbd, l1));
    }
    assert(c2 <= c1);
    lemma_div_is_ordered(c2, c1, 4000);
    if l1 >= 4000 {
        if l1 < 5000 {
            assert(max_kbd * (4000 - l1) <= 0) by (nonlinear_arith)
                requires
                    max_kbd >= 0,
                    4000 - l1 <= 0,
            ;
        }
        assert(c1 == 0);
        lemma_div_multiples_vanish(0, 4000);
    }
}

/// Law: the clamping bounds are functions of the current power state alone,
/// so switching power states swaps both bound pairs on the very next cycle:
/// on AC the display bounds are 0.10 and 1.0 of the capacity and the
/// keyboard bound is 0.20 of its capacity; on battery they are 0.025, 0.25
/// and 0.05.
pub proof fn lemma_bounds_track_power_state(max_display: int, max_kbd: int)
    ensures
        display_min_num(max_display, true) == max_display * 25500,
        display_max_num(max_display, true) == max_display * 255000,
        kbd_limit_num(max_kbd, true) == max_kbd * 800,
        display_min_num(max_display, false) == max_display * 6375,
        display_max_num(max_display, false) == max_display * 63750,
        kbd_limit_num(max_kbd, false) == max_kbd * 200,
        display_min_milli(max_display, true) * 255 == display_min_num(max_display, true),
        display_max_milli(max_display, true) * 255 == display_max_num(max_display, true),
        display_min_milli(max_display, false) * 255 == display_min_num(max_display, false),
        display_max_milli(max_display, false) * 255 == display_max_num(max_display, false),
        kbd_limit_milli(max_kbd, true) * 4 == kbd_limit_num(max_kbd, true),
        kbd_limit_milli(max_kbd, false) * 4 == kbd_limit_num(max_kbd, false),
{
}

} // verus!
