pub mod model;
pub mod parser;
pub mod laws;
