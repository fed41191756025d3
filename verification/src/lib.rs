pub mod text;
pub mod yaml;
pub mod ast;
pub mod parse;
pub mod codegen;
pub mod validate;
pub mod integration;
pub mod gotemplate;
pub mod incremental;
pub mod cli;

pub use integration::ProjectBuilder;
pub use validate::{ValidationError, Validator, validate};
