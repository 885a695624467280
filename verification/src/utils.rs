pub mod string_utils;
pub mod text;
