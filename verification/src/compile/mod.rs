pub mod completeness;
pub mod convergence;
pub mod describe;
pub mod generator;
pub mod mistakes;
pub mod outcome;
pub mod packages;
pub mod pipeline;
pub mod plan;
pub mod provisioning;
pub mod resolution;
pub mod secret_files;
pub mod secrets;
