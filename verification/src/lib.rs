//! A small backward-chaining engine: a tome holds circles (rules that turn
//! ingredients into a product), and summoning a product finds a recipe, an
//! ordered list of circles to perform, and performs it.

pub mod circle;
pub mod laws;
pub mod materials;
pub mod plan;
pub mod recipe;
pub mod tome;

pub use crate::circle::{Circle, Ether, Transmutation};
pub use crate::materials::Materials;
pub use crate::plan::Step;
pub use crate::recipe::Recipe;
pub use crate::tome::Tome;
