//! Chan-theory structure analysis of a price series: K-line merging,
//! fractals, strokes, pivots, segments and trading points, plus the
//! per-bar output rows that a charting front end draws.

pub mod chan;
pub mod mark;
pub mod outputs;
