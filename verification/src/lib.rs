//! Pointman: verified asset formats, goal planning and game-data helpers for a native
//! F.E.A.R. engine.
pub mod ai;
pub mod assets;
pub mod game;
pub mod player;
pub mod render;
pub mod sky;
pub mod text;
