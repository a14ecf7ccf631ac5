//! Integer core of a 2D SLAM simulator: the state layout of the joint
//! Gaussian estimator, systematic resampling of a particle population, and
//! the display settings.
pub mod landmark_index;
pub mod resample;
pub mod user_settings;

pub use landmark_index::{Association, LandmarkIndex, POSE_DIM};
pub use resample::{next_generation, plan_resampling, resample, systematic_draw, Resampling};
pub use user_settings::UserSettings;
