//! Inspect and change the brightness of display backlights and LED
//! indicators.
//!
//! The library holds the logic of the tool: the brightness-expression
//! grammar and its clamped evaluation, the device-selector grammar, and
//! device enumeration with automatic selection of the best backlight.
//! Reading attribute files and performing the privileged write are left
//! to the caller, which hands the library plain values.
#![allow(unused_imports)]
use vstd::prelude::*;

pub mod device;
pub mod enumerator;
pub mod error;
pub mod text;
pub mod value;
