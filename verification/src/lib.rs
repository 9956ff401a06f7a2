//! Track allocation, danmaku lifecycle bookkeeping and pixel/colour helpers
//! for a transparent scrolling-text overlay.
//!
//! Everything here works on plain integers; positions, sizes and timing are
//! floating-point quantities that the caller keeps next to the items it
//! hands to [`DanmakuManager`].

pub mod color;
pub mod danmaku;
pub mod error;
pub mod frame_loop;
pub mod track;

pub use color::{brush_cache_key, image_data_complete, straight_to_premul};
pub use danmaku::{ControlCommand, DanmakuItem, DanmakuManager};
pub use error::{wait_outcome, OverlayTxtError, ThreadJoin};
pub use frame_loop::{classify_message, LoopAction, WindowEvent};
pub use track::TrackSystem;
