//! Investments: what the user keeps, what the markets say, and where the answers come from.

pub mod conjunto;
pub mod json;
pub mod model;
pub mod portfolio;
pub mod provider;
pub mod providers;
pub mod rss;
pub mod serie;
pub mod store;
pub mod tempo;
pub mod volta;
