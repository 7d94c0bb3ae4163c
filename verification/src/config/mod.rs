pub mod models;
pub mod rules;
pub mod uci_key;
pub mod validation;
pub mod warnings;
