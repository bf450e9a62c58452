//! Geometry, sampling and image logic of a line-art diffusion model.
pub mod data;
pub mod error;
pub mod grid;
pub mod ieee;
pub mod image_io;
pub mod inference;
pub mod json;
pub mod model;
pub mod native;
pub mod paths;
pub mod powers;
pub mod recursion;
pub mod rng;
pub mod seeds;
pub mod text;
pub mod train;
