//! Home-screen rendering library for a 1-bit e-paper display.
//!
//! The library aggregates weather forecasts and public-transit arrivals into
//! a display model, and converts a rasterized RGB pixel grid into a dithered
//! monochrome pixel grid.
//!
//! - [`weather`] classifies weather samples into icons and fills the four
//!   forecast slots, substituting sunrise and sunset events.
//! - [`transport`] classifies raw arrival timestamps into near-term buckets,
//!   keeps the four groups arriving soonest, and orders them for display
//!   stability.
//! - [`dither`] converts a rasterized RGB grid to one bit per pixel with
//!   Stucki error diffusion.
//! - [`screen`] holds the shared display types and the display model.
//! - [`order`] defines the string order and the sorting machinery the
//!   ordering passes rely on.

pub mod dither;
pub mod order;
pub mod screen;
pub mod transport;
pub mod weather;
