//! Output rows (1-based marks) of the per-bar output table.

use vstd::prelude::*;

verus! {

pub const FX_MARK: usize = 1;
pub const FX_PRICE: usize = 2;
pub const BI_MARK: usize = 3;
pub const BI_PRICE: usize = 4;
pub const BI_ZS_ZG: usize = 5;
pub const BI_ZS_ZD: usize = 6;
pub const BI_ZS_START: usize = 7;
pub const XD_MARK: usize = 8;
pub const XD_PRICE: usize = 9;
pub const XD_ZS_ZG: usize = 10;
pub const BUY3: usize = 11;
pub const SELL3: usize = 12;
pub const BUY2: usize = 13;
pub const SELL2: usize = 14;
pub const BUY1: usize = 15;
pub const SELL1: usize = 16;
pub const PZ_BEICHI: usize = 17;
/// Row 18 carries the segment pivot's lower edge.
pub const XD_ZS_ZD: usize = 18;
pub const RESV19: usize = 19;
pub const RESV20: usize = 20;

/// Number of output rows.
pub const ROWS: usize = 20;

} // verus!
