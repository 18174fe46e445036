//! Core engine of a dual-pane file manager: the fuzzy filter and its ranking,
//! the per-pane entry list with its filtered view, the reconciler that merges a
//! fresh directory listing into existing pane state, and the cooperative
//! cancellation protocol of the background refresh loop.

pub mod drives;
pub mod file_list;
pub mod reconcile;
pub mod refresh;
pub mod selections;
pub mod sort;
pub mod filter_info;
pub mod latest_version;
pub mod pane_info;
