pub mod paths;
pub mod resolver;
pub mod scan;
pub mod config;
pub mod compiler;
