use sendto::{
    batch_total, detect_sendmmsg, offload_option_value, offload_segment_hint, segment_ranges,
    select_strategy, NaiveSender, NextStep, Segment, Strategy,
};

/// Drives a per-segment send against a test double that answers each send
/// with the next of `outcomes` (`Some(n)`: `n` bytes accepted; `None`: failure).
/// Returns the lengths of the sends attempted and the step that ended the send.
fn drive(buf_len: usize, segment_size: usize, outcomes: &[Option<usize>]) -> (Vec<usize>, NextStep) {
    let mut sender = NaiveSender::new(buf_len, segment_size);
    let mut sends = Vec::new();
    loop {
        match sender.next_step() {
            NextStep::Send(seg) => {
                let outcome = outcomes[sends.len()];
                sends.push(seg.len);
                match outcome {
                    Some(n) => sender.record_sent(n),
                    None => sender.record_failure(),
                }
            },
            end => return (sends, end),
        }
    }
}

#[test]
fn segments_of_uneven_buffer() {
    let segs = segment_ranges(3000, 1200);
    assert_eq!(
        segs,
        vec![
            Segment { start: 0, len: 1200 },
            Segment { start: 1200, len: 1200 },
            Segment { start: 2400, len: 600 },
        ]
    );
}

#[test]
fn segments_of_even_buffer() {
    let segs = segment_ranges(2400, 1200);
    assert_eq!(segs, vec![Segment { start: 0, len: 1200 }, Segment { start: 1200, len: 1200 }]);
}

#[test]
fn segments_of_empty_buffer() {
    assert!(segment_ranges(0, 1200).is_empty());
}

#[test]
fn segment_larger_than_buffer() {
    assert_eq!(segment_ranges(5, 1200), vec![Segment { start: 0, len: 5 }]);
}

#[test]
fn segments_partition_buffer() {
    for len in 0..50usize {
        for size in 1..12usize {
            let segs = segment_ranges(len, size);
            let mut next = 0;
            for (i, s) in segs.iter().enumerate() {
                assert_eq!(s.start, next);
                assert!(s.len > 0 && s.len <= size);
                if i + 1 < segs.len() {
                    assert_eq!(s.len, size);
                }
                next += s.len;
            }
            assert_eq!(next, len);
        }
    }
}

#[test]
fn naive_sends_three_segments_in_order() {
    let (sends, result) = drive(3000, 1200, &[Some(1200), Some(1200), Some(600)]);
    assert_eq!(sends, vec![1200, 1200, 600]);
    assert_eq!(result, NextStep::Done(3000));
}

#[test]
fn naive_full_success_counts_whole_buffer() {
    let outcomes: Vec<Option<usize>> = segment_ranges(10_000, 1350).iter().map(|s| Some(s.len)).collect();
    let (sends, result) = drive(10_000, 1350, &outcomes);
    assert_eq!(sends.len(), 8);
    assert_eq!(result, NextStep::Done(10_000));
}

#[test]
fn naive_counts_accepted_bytes() {
    let (sends, result) = drive(3000, 1200, &[Some(1000), Some(1200), Some(600)]);
    assert_eq!(sends, vec![1200]);
    assert_eq!(result, NextStep::Short(1000));
}

#[test]
fn naive_stops_after_short_middle_segment() {
    let (sends, result) = drive(3000, 1200, &[Some(1200), Some(700), Some(600)]);
    assert_eq!(sends, vec![1200, 1200]);
    assert_eq!(result, NextStep::Short(1900));
}

#[test]
fn naive_short_last_segment() {
    let (sends, result) = drive(3000, 1200, &[Some(1200), Some(1200), Some(599)]);
    assert_eq!(sends, vec![1200, 1200, 600]);
    assert_eq!(result, NextStep::Short(2999));
}

#[test]
fn naive_stops_at_first_failure() {
    let (sends, result) = drive(3000, 1200, &[Some(1200), None, Some(600)]);
    assert_eq!(sends, vec![1200, 1200]);
    assert_eq!(result, NextStep::Stopped);
}

#[test]
fn naive_failure_on_first_segment() {
    let (sends, result) = drive(3000, 1200, &[None, Some(1200), Some(600)]);
    assert_eq!(sends.len(), 1);
    assert_eq!(result, NextStep::Stopped);
}

#[test]
fn naive_empty_buffer_sends_nothing() {
    let (sends, result) = drive(0, 1200, &[]);
    assert!(sends.is_empty());
    assert_eq!(result, NextStep::Done(0));
}

#[test]
fn batch_total_of_full_batch() {
    let counts: Vec<usize> = segment_ranges(3000, 1200).iter().map(|s| s.len).collect();
    assert_eq!(batch_total(&counts), Some(3000));
}

#[test]
fn batch_total_of_partial_batch() {
    assert_eq!(batch_total(&[1200]), Some(1200));
}

#[test]
fn batch_total_of_empty_batch() {
    assert_eq!(batch_total(&[]), Some(0));
}

#[test]
fn batch_total_overflow() {
    assert_eq!(batch_total(&[usize::MAX, 1]), None);
    assert_eq!(batch_total(&[usize::MAX - 1, 1]), Some(usize::MAX));
}

#[test]
fn offload_takes_priority() {
    assert_eq!(select_strategy(3000, true, true), Some(Strategy::Offload));
    assert_eq!(select_strategy(3000, true, false), Some(Strategy::Offload));
}

#[test]
fn batch_when_offload_disabled() {
    assert_eq!(select_strategy(3000, false, true), Some(Strategy::Batch));
}

#[test]
fn naive_when_both_disabled() {
    assert_eq!(select_strategy(3000, false, false), Some(Strategy::Naive));
}

#[test]
fn empty_buffer_selects_no_send() {
    assert_eq!(select_strategy(0, true, true), None);
    assert_eq!(select_strategy(0, false, true), None);
    assert_eq!(select_strategy(0, false, false), None);
}

#[test]
fn offload_hint_fits_sixteen_bits() {
    assert_eq!(offload_segment_hint(1200), Some(1200));
    assert_eq!(offload_segment_hint(65535), Some(65535));
    assert_eq!(offload_segment_hint(65536), None);
}

#[test]
fn offload_option_fits_i32() {
    assert_eq!(offload_option_value(1350), Some(1350));
    assert_eq!(offload_option_value(usize::MAX), None);
}

#[test]
fn batch_platforms() {
    assert!(detect_sendmmsg("linux"));
    assert!(detect_sendmmsg("android"));
    assert!(detect_sendmmsg("freebsd"));
    assert!(detect_sendmmsg("netbsd"));
}

#[test]
fn platforms_without_batch() {
    assert!(!detect_sendmmsg("macos"));
    assert!(!detect_sendmmsg("windows"));
    assert!(!detect_sendmmsg(""));
    assert!(!detect_sendmmsg("linux2"));
}
