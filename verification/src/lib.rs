//! Core event pipeline for a two-half mechanical keyboard.
//!
//! The pipeline turns raw matrix samples into host keyboard reports:
//! matrix scan -> debounce -> coordinate transform -> split-link codec
//! (between the two halves) -> layered action resolution with hold-tap
//! timing -> output-report assembly. Every stage is a pure state machine
//! over plain values; the hardware shell (pins, clocks, interrupts, the
//! host transport) drives these state machines from outside.

pub mod event;
pub mod codec;
pub mod transform;
pub mod debounce;
pub mod report;
pub mod layout;
pub mod scheduler;
