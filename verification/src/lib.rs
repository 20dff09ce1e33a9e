//! Line-art scene construction for pen plotters.
//!
//! The library builds 2D scenes out of line segments, simulates opaque
//! overlap between polygons added back to front (erasing the parts of
//! earlier strokes that a later polygon covers), snapshots a scene into a
//! layered plot with a drawing-cost model, and reorders strokes greedily to
//! shorten pen-up travel.
//!
//! All geometry is exact: coordinates are bounded integers, crossing
//! positions are exact rationals, and plot coordinates use a fixed-point
//! grid, so every algorithm here is deterministic and fully specified.

pub mod draw_mode;
pub mod frac;
pub mod geom;
pub mod line_segment;
pub mod optimizer;
pub mod plot;
pub mod polygon;
pub mod scene;
