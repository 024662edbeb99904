pub mod cell;
pub mod render;
pub mod rules;
pub mod seed;
pub mod state;
