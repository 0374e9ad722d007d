//! Game logic of a real-time multiplayer blackjack server.
pub mod actor;
pub mod cards;
pub mod chance;
pub mod deck;
pub mod ids;
pub mod laws;
pub mod lobby;
pub mod messages;
pub mod model;
pub mod types;
