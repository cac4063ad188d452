pub mod bounds;
pub mod guillotine;
pub mod input;
pub mod layout;
pub mod plan;
pub mod render;
pub mod solver;
pub mod types;
