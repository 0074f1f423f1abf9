//! Inward-facing interfaces the use cases need from their callers.

use vstd::prelude::*;

verus! {

/// Visual lookup required by use cases that prepare renderer-facing
/// artifacts. The policy lives in an outer adapter; a palette maps each
/// material to one display color.
pub trait MaterialPalette {
    /// The color this palette assigns to `material`.
    spec fn spec_color(&self, material: u8) -> u32;

    fn color(&self, material: u8) -> (c: u32)
        ensures
            c == self.spec_color(material),
    ;
}

/// A palette given as a table indexed by material; materials past the end
/// of the table are black.
pub struct ColorTable {
    pub colors: Vec<u32>,
}

impl MaterialPalette for ColorTable {
    open spec fn spec_color(&self, material: u8) -> u32 {
        if (material as int) < self.colors@.len() {
            self.colors@[material as int]
        } else {
            0
        }
    }

    fn color(&self, material: u8) -> (c: u32) {
        if (material as usize) < self.colors.len() {
            self.colors[material as usize]
        } else {
            0
        }
    }
}

/// Wall-clock access and log emission, abstracted so use cases never touch
/// `std::time` or stdout directly.
pub trait TelemetryPort {
    /// Monotonic-ish timestamp in microseconds from an arbitrary epoch.
    fn now_micros(&self) -> u64;

    /// Emits one log line to whatever sink the outer layer provides.
    fn log(&self, message: &str);
}

/// Silent telemetry used by default and in tests.
pub struct NullTelemetry;

impl TelemetryPort for NullTelemetry {
    fn now_micros(&self) -> (t: u64)
        ensures
            t == 0,
    {
        0
    }

    fn log(&self, _message: &str) {
    }
}

} // verus!
