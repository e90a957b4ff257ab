//! A board engine for a hexagonal tile-placement game: an axial coordinate
//! algebra, a board that keeps the cells where a piece may be placed, and a
//! connectivity test that says whether a piece may be lifted.

pub mod axial;
pub mod board;
pub mod coord_utils;
pub mod game;
pub mod nav_mesh;
pub mod placed_tile;
pub mod player;
pub mod position;
pub mod render;
pub mod tile;
