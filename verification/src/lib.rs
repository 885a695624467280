pub mod dependencies;
pub mod parsers;
pub mod utils;
