pub mod descent;
pub mod pbx_parser;
pub mod reference_builder;
pub mod tree_contents;
