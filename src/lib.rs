//! Segmented datagram transmission: the verified decisions behind sending a
//! large buffer as a series of fixed-size datagrams, by segmentation offload,
//! by one batched multi-message send, or one send per segment.
pub mod batch;
pub mod dispatch;
pub mod naive;
pub mod platform;
pub mod segment;

pub use batch::batch_total;
pub use dispatch::{Strategy, offload_option_value, offload_segment_hint, select_strategy};
pub use naive::{NaiveSender, NextStep};
pub use platform::detect_sendmmsg;
pub use segment::{Segment, segment_ranges};
