pub mod analysis;
pub mod config;
pub mod models;
pub mod utils;
