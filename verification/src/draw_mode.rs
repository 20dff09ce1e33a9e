//! Draw modes: how a polygon is applied to a scene.
//!
//! A draw mode chooses whether the polygon erases what it covers (fill) and
//! whether its outline is stroked, and with which pen.

use vstd::prelude::*;

verus! {

/// How to draw a polygon: an optional outline pen and a fill switch.
#[derive(Clone, Debug)]
pub struct DrawMode {
    /// The pen used to outline the polygon.  If absent, no outline is drawn.
    pub pen: Option<usize>,
    /// Whether to simulate fill by erasing lines that the polygon covers.
    pub fill: bool,
}

impl Default for DrawMode {
    /// The default mode: fill, and stroke with pen 0.
    fn default() -> (r: DrawMode)
        ensures
            r.pen == Some(0usize),
            r.fill,
    {
        DrawMode { pen: Some(0), fill: true }
    }
}

/// A mode for the given pen that outlines but does not fill.
pub fn stroke(pen: usize) -> (r: DrawMode)
    ensures
        r.pen == Some(pen),
        !r.fill,
{
    DrawMode { pen: Some(pen), fill: false }
}

/// A mode that fills but draws no outline.
pub fn fill_only() -> (r: DrawMode)
    ensures
        r.pen.is_none(),
        r.fill,
{
    DrawMode { pen: None, fill: true }
}

/// A mode that fills and outlines with the given pen.
pub fn pen(p: usize) -> (r: DrawMode)
    ensures
        r.pen == Some(p),
        r.fill,
{
    DrawMode { pen: Some(p), fill: true }
}

/// The default on-screen color for each of the first few pens: pen 0 draws
/// black, pen 1 red, pen 2 blue.
pub fn default_fills() -> (r: Vec<(usize, String)>)
    ensures
        r@.len() == 3,
        r@[0].0 == 0usize && r@[0].1@ == "black"@,
        r@[1].0 == 1usize && r@[1].1@ == "red"@,
        r@[2].0 == 2usize && r@[2].1@ == "blue"@,
{
    let mut fills: Vec<(usize, String)> = Vec::new();
    fills.push((0, "black".to_string()));
    fills.push((1, "red".to_string()));
    fills.push((2, "blue".to_string()));
    fills
}

} // verus!
