use vstd::prelude::*;

verus! {

/// The way a buffer is handed to the platform.
#[derive(Clone, Copy, Debug, PartialEq, Eq, Structural)]
pub enum Strategy {
    /// One send; the kernel cuts the buffer into segments.
    Offload,
    /// One batched send of one message per segment.
    Batch,
    /// One send per segment, in order.
    Naive,
}

/// The strategy for a buffer of `buf_len` bytes: offload where enabled, else
/// batching where enabled, else one send per segment. An empty buffer needs no
/// send at all (`None`), and counts as 0 bytes sent.
pub fn select_strategy(buf_len: usize, enable_offload: bool, enable_batch: bool) -> (r: Option<Strategy>)
    ensures
        buf_len == 0 ==> r is None,
        buf_len > 0 && enable_offload ==> r == Some(Strategy::Offload),
        buf_len > 0 && !enable_offload && enable_batch ==> r == Some(Strategy::Batch),
        buf_len > 0 && !enable_offload && !enable_batch ==> r == Some(Strategy::Naive),
{
    if buf_len == 0 {
        None
    } else if enable_offload {
        Some(Strategy::Offload)
    } else if enable_batch {
        Some(Strategy::Batch)
    } else {
        Some(Strategy::Naive)
    }
}

/// The segment size as the 16-bit hint that an offloaded send carries, or
/// `None` where it does not fit in 16 bits.
pub fn offload_segment_hint(segment_size: usize) -> (r: Option<u16>)
    ensures
        r == (if segment_size <= u16::MAX { Some(segment_size as u16) } else { None::<u16> }),
{
    if segment_size <= 65535 {
        Some(segment_size as u16)
    } else {
        None
    }
}

/// The segment size as the value of the socket option that enables offload,
/// or `None` where it does not fit in an `i32`.
pub fn offload_option_value(segment_size: usize) -> (r: Option<i32>)
    ensures
        r == (if segment_size <= i32::MAX { Some(segment_size as i32) } else { None::<i32> }),
{
    if segment_size <= 2147483647 {
        Some(segment_size as i32)
    } else {
        None
    }
}

} // verus!
