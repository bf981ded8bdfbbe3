//! Core engine of a Big-Two-style trick-taking card game: the card and deck
//! model, the play classifier, the round state machine, and the codec for the
//! NUL-terminated wire protocol that carries moves between client and server.
pub mod card;
pub mod codec;
pub mod deck;
pub mod game;
pub mod hand;
pub mod logger;
pub mod play;
pub mod player;
pub mod player_client;
pub mod round;
pub mod session;
pub mod sorting;
pub mod text;
