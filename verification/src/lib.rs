//! Device/output pipeline logic for a DRM/KMS Wayland compositor backend:
//! device registry bookkeeping, connector scan diffing, output strip layout,
//! dma-buf format feedback negotiation, repaint scheduling, and frame
//! completion classification.  The hardware itself (kernel mode-setting,
//! GPU rendering, the wire protocol) lives outside this crate; this crate
//! holds the decisions those event sources feed.

pub mod config;
pub mod formats;
pub mod layout;
pub mod pipeline;
pub mod scan;
pub mod schedule;
