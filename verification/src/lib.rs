pub mod compile;
pub mod config;
pub mod target;
pub mod utils;

pub use compile::pipeline;
pub use config::{models, uci_key, validation};
pub use target::{deploy, diff};
pub use utils::{error, helpers};
