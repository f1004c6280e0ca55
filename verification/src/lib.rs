//! A verified Mandelbrot-set rendering engine.
//!
//! The complex plane is modelled in fixed-point arithmetic: a coordinate is
//! an `i64` holding the real value times [`SCALE`]. On that model the engine
//! provides the pixel-to-plane coordinate mapping, the escape-time membership
//! test, the partition of the raster into horizontal bands, the band renderer,
//! and the interactive zoom state machine, each with a proved contract.

pub mod buffer;
pub mod coords;
pub mod escape;
pub mod parse;
pub mod render;
pub mod zoom;

pub use buffer::ImageBuffer;
pub use coords::{ComplexPoint, pixel_to_point, SCALE, COORD_LIMIT, MAX_DIM};
pub use escape::escape_time;
pub use parse::{parse_pair, parse_complex, parse_fixed, fixed_to_dimension};
pub use render::{render, write_buffer, compute_bands, Band, ITERATION_LIMIT};
pub use zoom::{ViewportZoomController, ControllerState, ControllerEvent, ControllerAction, zoom_viewport};
