pub mod text;
pub mod compression;
pub mod chart;
pub mod model;
pub mod adapters;
pub mod sync;
pub mod config;
pub mod report;
pub mod json;
pub mod brain;
