//! CallJet: on-demand static call-path analysis for C and C++ sources.
pub mod cli;
pub mod clock;
pub mod compile_db;
pub mod console;
pub mod diagnostic;
pub mod discovery;
pub mod extract;
pub mod keys;
pub mod model;
pub mod order;
pub mod paths;
pub mod project;
pub mod query;
pub mod render;
pub mod semantic;
pub mod syntax;
pub mod text;
