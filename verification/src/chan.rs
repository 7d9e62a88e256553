//! The analysis pipeline: merge -> fractals -> strokes -> pivots ->
//! segments -> trading points.
//!
//! Prices are carried as `i64` keys: any order-preserving integer image of
//! the real prices (the analysis only compares prices, never does
//! arithmetic on them).

pub mod relation;
pub mod kline;
pub mod stroke;
pub mod pivot;
pub mod feature;
pub mod segment;
pub mod signal;

pub use self::relation::{rel, Rel};
pub use self::kline::{collect_fractals, merge_and_mark, Bar, ChanK, Fx, Kind};
pub use self::stroke::{build_strokes, strokes_to_lines, Line};
pub use self::pivot::{build_pivots, Pivot};
pub use self::feature::{dbg_feats, dbg_scan, dbg_scan2, dbg_scan3, dbg_scan_view};
pub use self::segment::{build_segments, Segment};
pub use self::signal::{detect_mmds, macd_area, Mmd, MmdMark};
