pub mod appearance;
pub mod course;
pub mod delivery;
pub mod deploy;
pub mod diff;
pub mod exchange;
pub mod idempotence;
pub mod preview;
pub mod report;
pub mod script;
pub mod values;
