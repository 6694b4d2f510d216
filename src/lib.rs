//! A terminal arcade shooter's simulation core: the player's ship, the alien
//! formation, the bunkers, the lasers that fly between them, and the session
//! state machine that drives a fixed-timestep loop.

pub mod geometry;
pub mod asset;
pub mod bunker;
pub mod player;
pub mod aliens;
pub mod state;
pub mod game;
pub mod laws;
