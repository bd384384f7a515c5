//! Rebuilds a shared pixel canvas as of a cutoff time from a log of
//! last-writer-wins tile writes, and renders it as an RGB raster.
pub mod event;
pub mod grid;
pub mod laws;
pub mod palette;
