//! Verified core of the DWT-versus-EWMA forecasting report.
//!
//! The library holds the parts of the analysis that work on exact values:
//! turning-point extraction, the wiping-out folding stack and its online
//! tracker, regime labelling, and the index logic of the moving-block
//! bootstrap. Prices are fixed-point integers (ticks), so every comparison
//! the folding rule makes is exact.

pub mod dwt;
pub mod analysis_core;
