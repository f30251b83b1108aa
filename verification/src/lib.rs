//! Curse of War core: terrain, populations, flags, AI kings and the
//! simulation step, with the rules of the game stated as contracts.
pub mod consts;
pub mod types;
pub mod rng;
pub mod grid;
pub mod flags;
pub mod sim;
pub mod migration;
pub mod ai;
pub mod wide;
pub mod state;
pub mod action;
pub mod ui;
pub mod i18n;
pub mod cli;
pub mod args;
pub mod event;
pub mod render;
pub mod app;
