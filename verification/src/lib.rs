//! Ambient-light-driven backlight control.
//!
//! The library holds the verified core of a backlight controller: it parses
//! the plain-text values read from the ambient light sensor, the power-supply
//! flag and the capacity files, computes the display and keyboard brightness
//! targets for the current power state, and keeps the periodic logging
//! counter. All brightness arithmetic is exact: ambient light is carried in
//! thousandths (milli-units) and the targets are computed as integer
//! numerators over fixed denominators, so the written values equal the
//! truncated rational targets. File reads and writes, and the ten-second
//! cycle itself, stay with the caller.

pub mod brightness;
pub mod controller;
pub mod parse;
