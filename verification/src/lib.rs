//! Viewport state of an interactive escape-time fractal viewer.
//!
//! The viewer shows a window onto the complex plane. This crate owns the
//! parameters of that window, what each key does to them, the record the
//! fragment shader reads them from, and the rule that decides when that record
//! has to be uploaded again. Windowing and the graphics device are left to the
//! program around it.
//!
//! Numbers of the plane are IEEE-754 values held by their encodings; their
//! arithmetic is carried out on integers and proved to be the correctly rounded
//! one.
use vstd::prelude::*;

pub mod app;
pub mod fragment;
pub mod ieee;
pub mod rounding;
pub mod scaling;
pub mod state;
pub mod uniform;

verus! {

} // verus!
