//! Clock, stopwatch, countdown timer and alarm logic of a small desktop
//! clock application, with their behaviour stated as Verus contracts.

pub mod text;
pub mod clock;
pub mod stopwatch;
pub mod timer;
pub mod scan;
pub mod alarm;
pub mod presets;
