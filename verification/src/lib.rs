pub mod json;
pub mod generator;
pub mod text;
pub mod path;
pub mod merge;
pub mod sweep;
pub mod cli;
pub mod io;
