// Tumbling-window aggregation: the binning of event times, the registry of
// open bins, watermark-driven closing, and checkpoint and restore bookkeeping.
pub mod dispatch;
pub mod laws;
pub mod operator;
pub mod registry;
pub mod window;
