pub mod error;
pub mod model;
pub mod lemmas;
pub mod binarypack;
pub mod laws;
