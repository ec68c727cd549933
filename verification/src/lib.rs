//! Reader for Steam's binary key-value files and the rules a screenshot
//! browser builds on top of them.

pub mod models;
pub mod reply;
pub mod routes;
pub mod state;
pub mod steam;
pub mod vdfr;
