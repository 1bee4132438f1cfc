//! Recipe and layer index, recipe scheduling, and the recipe application plan
//! of an image bakery.

pub mod table;
pub mod text;
pub mod layers;
pub mod recipes;
pub mod repositories;
pub mod library;
pub mod schedule;
pub mod apply;
pub mod project;
pub mod image;
