//! Streaming execution layer of a columnar query engine: a morsel-driven,
//! order-preserving parallel sink, together with the small utility layers
//! that surround it (bitmap helpers, rolling-window bounds, a node timer,
//! and the versioned plan header).
//!
//! The sink core models N encode workers feeding a linearizer that restores
//! global sequence order for a single commit task, under bounded buffering
//! and token-based backpressure.

pub mod bitmap;
pub mod completion;
pub mod linearizer;
pub mod morsel;
pub mod pipeline;
pub mod plan_header;
pub mod rolling;
pub mod sink_node;
pub mod timer;
pub mod worker;
