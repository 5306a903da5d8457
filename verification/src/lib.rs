//! An incremental bounding-box index that hands every inserted rectangle a
//! paint order: of two rectangles that intersect, the one inserted later gets
//! the strictly larger order; rectangles that do not intersect may share one.

pub mod arena;
pub mod bounds;
pub mod descent;
pub mod key;
pub mod order;
pub mod tree;

pub use bounds::Bounds;
pub use bounds::Point;
pub use order::Primitive;
pub use tree::BoundsTree;
