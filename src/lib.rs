//! Automatic zooming into the boundary of the Mandelbrot set.
//!
//! Points of the complex plane are held in signed fixed-point form (see
//! [`fixed`]), so that the escape-time kernel, the grid solver and the zoom
//! state machine are all exact integer computations with proved contracts.
pub mod fixed;
pub mod grid;
pub mod mandelbrot;
pub mod navigator;

pub use crate::fixed::ONE;
pub use crate::grid::{execute, SolveError};
pub use crate::mandelbrot::{kernel, Coord, Point};
pub use crate::navigator::{decide_colormap, ColorMap, Mandelbrot};
