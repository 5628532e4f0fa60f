//! The text formats of the Sina network endpoints.

pub mod answer;
pub mod daily;
pub mod datetime;
pub mod endpoints;
pub mod history;
pub mod ws;
pub mod ws_service;
