//! The per-cycle control step.
//!
//! A `Controller` holds the two capacities read once at startup and the
//! logging counter. Each cycle the caller reads the sensor file and the
//! power-supply flag file and hands both texts to `step`, which parses them,
//! computes the display and keyboard targets for the current power state,
//! and says whether this cycle is one of the periodic (every tenth) log
//! lines. A text either parser rejects is fatal to the cycle: `step` returns
//! the matching error and leaves the controller unchanged, and the caller
//! terminates as the failure semantics demand. Failures writing a brightness
//! file are the caller's recoverable path; `WriteError` names them in logs.

use vstd::prelude::*;
use crate::brightness::{
    compute_display_brightness, compute_kbd_brightness, display_max_milli, display_min_milli,
    display_target, kbd_limit_milli, kbd_target,
};
use crate::parse::{capacity_of, light_milli_of, parse_capacity, parse_light_milli,
    parse_power_online, power_flag_of};

verus! {

/// The failure kinds: which input could not be read or parsed, or — for the
/// caller's recoverable path — which output could not be written.
#[derive(Clone, Copy, Debug, PartialEq, Eq)]
pub enum ControlError {
    SensorReadError,
    PowerStateReadError,
    CapacityReadError,
    WriteError,
}

/// The two device capacities, read once at startup and immutable afterward.
#[derive(Clone, Copy, Debug, PartialEq, Eq)]
pub struct Capacities {
    pub max_display: u32,
    pub max_kbd: u32,
}

impl Capacities {
    /// Both capacities parsed from the contents of their `max_brightness`
    /// files; `CapacityReadError` exactly where either text is rejected.
    pub fn from_files(display_text: &[u8], kbd_text: &[u8]) -> (r: Result<Capacities, ControlError>)
        ensures
            match r {
                Ok(c) => capacity_of(display_text@) == Some(c.max_display as int) && capacity_of(
                    kbd_text@,
                ) == Some(c.max_kbd as int),
                Err(e) => e == ControlError::CapacityReadError && (capacity_of(display_text@)
                    is None || capacity_of(kbd_text@) is None),
            },
    {
        let max_display = match parse_capacity(display_text) {
            Some(v) => v,
            None => {
                return Err(ControlError::CapacityReadError);
            },
        };
        let max_kbd = match parse_capacity(kbd_text) {
            Some(v) => v,
            None => {
                return Err(ControlError::CapacityReadError);
            },
        };
        Ok(Capacities { max_display, max_kbd })
    }
}

/// What one cycle produces: the two integers to write, the current bounds in
/// milli-units for the periodic log line, the parsed inputs, and whether
/// this cycle logs.
#[derive(Clone, Copy, Debug, PartialEq, Eq)]
pub struct CycleOutput {
    /// The integer to write to the display brightness file.
    pub display_brightness: u32,
    /// The integer to write to the keyboard brightness file.
    pub kbd_brightness: u32,
    /// Lower display bound for this power state, in milli-units.
    pub display_min_milli: u64,
    /// Upper display bound for this power state, in milli-units.
    pub display_max_milli: u64,
    /// Keyboard bound for this power state, in milli-units.
    pub kbd_limit_milli: u64,
    /// The ambient light reading, in milli-units.
    pub light_milli: i64,
    /// On external AC power this cycle.
    pub on_ac: bool,
    /// This cycle is one of the periodic log lines.
    pub should_log: bool,
}

/// The controller state: the startup capacities and the logging counter.
pub struct Controller {
    caps: Capacities,
    count: u32,
}

impl Controller {
    /// The capacities the controller was built with.
    pub closed spec fn spec_caps(self) -> Capacities {
        self.caps
    }

    /// The logging counter; it cycles through 1 ..= 10.
    pub closed spec fn spec_count(self) -> int {
        self.count as int
    }

    /// The counter never leaves the range the cycle keeps it in.
    pub open spec fn wf(self) -> bool {
        self.spec_count() <= 10
    }

    /// A fresh controller; its first cycle logs.
    pub fn new(caps: Capacities) -> (c: Controller)
        ensures
            c.wf(),
            c.spec_caps() == caps,
            c.spec_count() == 0,
    {
        Controller { caps, count: 0 }
    }

    /// The capacities, for callers that log or check them.
    pub fn capacities(&self) -> (c: Capacities)
        ensures
            c == self.spec_caps(),
    {
        self.caps
    }

    /// One control cycle over the sensor and power-supply texts.
    ///
    /// Success is owed exactly when both texts parse: the output then holds
    /// the exact truncated rational targets and bounds for the parsed light
    /// level and power state, and the counter advances, wrapping at ten.
    /// Otherwise the matching error comes back — the sensor error wins when
    /// both texts are bad — and the controller is unchanged.
    pub fn step(&mut self, sensor_text: &[u8], power_text: &[u8]) -> (r: Result<
        CycleOutput,
        ControlError,
    >)
        requires
            old(self).wf(),
        ensures
            final(self).wf(),
            final(self).spec_caps() == old(self).spec_caps(),
            r is Ok <==> (light_milli_of(sensor_text@) is Some && power_flag_of(power_text@)
                is Some),
            match r {
                Ok(out) => match (light_milli_of(sensor_text@), power_flag_of(power_text@)) {
                    (Some(light), Some(flag)) => {
                        let maxd = old(self).spec_caps().max_display as int;
                        let maxk = old(self).spec_caps().max_kbd as int;
                        let ac = flag == 1;
                        &&& out.on_ac == ac
                        &&& out.light_milli as int == light
                        &&& out.display_brightness as int == display_target(maxd, ac, light)
                        &&& out.kbd_brightness as int == kbd_target(maxk, ac, light)
                        &&& out.display_min_milli as int == display_min_milli(maxd, ac)
                        &&& out.display_max_milli as int == display_max_milli(maxd, ac)
                        &&& out.kbd_limit_milli as int == kbd_limit_milli(maxk, ac)
                        &&& out.should_log == (old(self).spec_count() % 10 == 0)
                        &&& final(self).spec_count() == (if old(self).spec_count() % 10 == 0 {
                            1int
                        } else {
                            old(self).spec_count() + 1
                        })
                    },
                    _ => false,
                },
                Err(e) => {
                    &&& *final(self) == *old(self)
                    &&& (e == ControlError::SensorReadError || e
                        == ControlError::PowerStateReadError)
                    &&& (e == ControlError::SensorReadError <==> light_milli_of(sensor_text@)
                        is None)
                },
            },
    {
        let light_milli: i64 = match parse_light_milli(sensor_text) {
            Some(v) => v,
            None => {
                return Err(ControlError::SensorReadError);
            },
        };
        let on_ac: bool = match parse_power_online(power_text) {
            Some(b) => b,
            None => {
                return Err(ControlError::PowerStateReadError);
            },
        };
        let maxd: u32 = self.caps.max_display;
        let maxk: u32 = self.caps.max_kbd;
        let display_brightness: u32 = compute_display_brightness(maxd, on_ac, light_milli);
        let kbd_brightness: u32 = compute_kbd_brightness(maxk, on_ac, light_milli);
        let dmin: u64 = (maxd as u64) * (if on_ac { 100 } else { 25 });
        let dmax: u64 = (maxd as u64) * (if on_ac { 1000 } else { 250 });
        let klim: u64 = (maxk as u64) * (if on_ac { 200 } else { 50 });
        let should_log: bool = self.count % 10 == 0;
        if should_log {
            self.count = 0;
        }
        self.count = self.count + 1;
        Ok(
            CycleOutput {
                display_brightness,
                kbd_brightness,
                display_min_milli: dmin,
                display_max_milli: dmax,
                kbd_limit_milli: klim,
                light_milli,
                on_ac,
                should_log,
            },
        )
    }
}

} // verus!
