//! A two-dimensional box layout engine: a tree of rectangular items
//! annotated with sizing and alignment directives is turned into a
//! concrete rectangle per item, flexbox style.  The measurement pass,
//! the arrangement pass with line wrapping and space distribution, and
//! the four-step driver are specified against the functional model in
//! [`model`] and verified.

pub mod model;
pub mod item;
mod engine;
pub mod laws;

pub use item::{BaseItem, LayoutItem, LayVec2, LayVec4};
pub use item::{LAY_ROW, LAY_COLUMN, LAY_LAYOUT, LAY_NOWRAP, LAY_WRAP, LAY_LAYOUT_FLAGS,
    LAY_START, LAY_MIDDLE, LAY_END, LAY_JUSTIFY};
pub use item::{LAY_LEFT, LAY_TOP, LAY_RIGHT, LAY_BOTTOM, LAY_HFILL, LAY_VFILL, LAY_FILL,
    LAY_HCENTER, LAY_VCENTER, LAY_CENTER, LAY_BREAK};
