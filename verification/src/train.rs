//! The training side of the model.

pub mod assignment;
pub mod config;
pub mod diffusion;
pub mod loss;
pub mod noise;
pub mod regions;
pub mod sampling;

pub use crate::train::assignment::min_cost_assignment;
pub use crate::train::config::{NoiseLevelConfig, TrainingConfig};
pub use crate::train::loss::{lineart_loss_enabled, LineartLossConfig};
