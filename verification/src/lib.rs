//! A small Minesweeper core: a bounds-checked 2D grid, a minefield with a
//! flood-fill opening rule, a random field generator, and the menu/game state
//! machines that drive a round. Rendering and key polling are left to callers.

pub mod collections;
pub mod game;
pub mod geom;
pub mod main_menu;
