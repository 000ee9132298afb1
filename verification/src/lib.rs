pub mod cli;
pub mod compiler;
pub mod config;
pub mod output;
pub mod parser;
pub mod text;
