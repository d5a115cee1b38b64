//! A capacity-bounded point quadtree over `u32` coordinates.
mod item;
mod qt;
mod shape;

pub use item::Vector;
pub use qt::{QuadTree, Quadrants};
pub use shape::Rectangle;
