//! Betting bot for live Go games: users hold shells ("coquillages"),
//! bet them on the colour that will win a game, and are paid out when
//! the result is announced.

pub mod models;
pub mod store;
pub mod state;
pub mod commands;
pub mod restore;
pub mod kgs;
pub mod protocol;
