pub mod environment;
pub mod file_based;
