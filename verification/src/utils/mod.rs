pub mod equations;
pub mod error;
pub mod helpers;
pub mod heredoc;
pub mod order;
pub mod path;
pub mod places;
pub mod split;
pub mod text;
pub mod text_map;
pub mod within;
