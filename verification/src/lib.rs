//! Breach Protocol puzzle logic: the game engine, the exhaustive solver, the
//! puzzle generator and the settings model behind the game's setup screen.

pub mod engine;
pub mod text;
pub mod laws;
pub mod generator;
pub mod settings;
pub mod solver;
pub mod game_tree;
pub mod hud;
