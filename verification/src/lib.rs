//! The rules of a small video recording server.

pub mod cache;
pub mod error;
pub mod lists;
pub mod model;
pub mod name_map;
pub mod path;
pub mod pipeline;
pub mod playlist;
pub mod recordings;
pub mod request;
pub mod segment;
pub mod stretches;
pub mod text;
pub mod time;
pub mod watchdog;
