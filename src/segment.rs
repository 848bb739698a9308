use vstd::prelude::*;

verus! {

/// One contiguous range `[start, start + len)` of a buffer, sent as one datagram.
#[derive(Clone, Copy, Debug, PartialEq, Eq, Structural)]
pub struct Segment {
    pub start: usize,
    pub len: usize,
}

/// A segment as the pair (start, length).
pub open spec fn seg_pair(s: Segment) -> (int, int) {
    (s.start as int, s.len as int)
}

/// The segments of a vector as pairs (start, length).
pub open spec fn seg_pairs(v: Seq<Segment>) -> Seq<(int, int)> {
    v.map_values(|s: Segment| seg_pair(s))
}

/// The ranges that cover `[off, total)` in pieces of `size` bytes; the last
/// piece holds what is left and may be shorter.
pub open spec fn split_from(off: int, total: int, size: int) -> Seq<(int, int)>
    decreases total - off,
{
    if off >= total || size <= 0 {
        Seq::empty()
    } else {
        let n = if total - off < size { total - off } else { size };
        seq![(off, n)] + split_from(off + n, total, size)
    }
}

/// The ranges that cover a buffer of `total` bytes in segments of `size` bytes.
pub open spec fn split(total: int, size: int) -> Seq<(int, int)> {
    split_from(0, total, size)
}

/// The sum of the lengths of a sequence of ranges.
pub open spec fn sum_lens(s: Seq<(int, int)>) -> int
    decreases s.len(),
{
    if s.len() == 0 {
        0
    } else {
        sum_lens(s.drop_last()) + s.last().1
    }
}

/// The sum of lengths over a concatenation is the sum over each part.
pub proof fn lemma_sum_lens_concat(a: Seq<(int, int)>, b: Seq<(int, int)>)
    ensures
        sum_lens(a + b) == sum_lens(a) + sum_lens(b),
    decreases b.len(),
{
    if b.len() == 0 {
        assert(a + b =~= a);
    } else {
        assert((a + b).drop_last() =~= a + b.drop_last());
        lemma_sum_lens_concat(a, b.drop_last());
    }
}

/// The ranges that cover `[off, total)` are contiguous, start at `off`, end at
/// `total`, each holds between one and `size` bytes, all but the last hold
/// exactly `size`, and their lengths add up to `total - off`.
pub proof fn lemma_split_from_partition(off: int, total: int, size: int)
    requires
        0 <= off <= total,
        size > 0,
    ensures
        ({
            let s = split_from(off, total, size);
            &&& s.len() == 0 <==> off == total
            &&& s.len() > 0 ==> s[0].0 == off && s.last().0 + s.last().1 == total
            &&& forall|i: int| 0 <= i < s.len() ==> 0 < #[trigger] s[i].1 <= size
            &&& forall|i: int| 0 <= i < s.len() - 1 ==> #[trigger] s[i].1 == size
            &&& forall|i: int| 0 <= i < s.len() - 1 ==> #[trigger] s[i + 1].0 == s[i].0 + s[i].1
            &&& sum_lens(s) == total - off
        }),
    decreases total - off,
{
    if off < total {
        let n = if total - off < size { total - off } else { size };
        let rest = split_from(off + n, total, size);
        let s = split_from(off, total, size);
        lemma_split_from_partition(off + n, total, size);
        assert(s == seq![(off, n)] + rest);
        lemma_sum_lens_concat(seq![(off, n)], rest);
        assert(seq![(off, n)].drop_last() =~= Seq::<(int, int)>::empty());
        assert(sum_lens(Seq::<(int, int)>::empty()) == 0);
        assert(sum_lens(seq![(off, n)]) == n);
        if rest.len() > 0 {
            assert(s.last() == rest.last());
        }
        assert(sum_lens(s) == total - off);
        assert forall|i: int| 0 <= i < s.len() - 1 implies #[trigger] s[i + 1].0 == s[i].0 + s[i].1 by {
            assert(s[i + 1] == rest[i]);
            if i > 0 {
                assert(s[i] == rest[i - 1]);
                assert(rest[(i - 1) + 1].0 == rest[i - 1].0 + rest[i - 1].1);
            }
        }
        assert forall|i: int| 0 <= i < s.len() - 1 implies #[trigger] s[i].1 == size by {
            if i > 0 {
                assert(s[i] == rest[i - 1]);
            } else {
                assert(rest.len() > 0);
            }
        }
        assert forall|i: int| 0 <= i < s.len() implies 0 < #[trigger] s[i].1 <= size by {
            if i > 0 {
                assert(s[i] == rest[i - 1]);
            }
        }
    }
}

/// Segmentation covers the buffer exactly: the segments of a buffer of
/// `total` bytes are contiguous and do not overlap, the first starts at 0 and
/// the last ends at `total`, each holds between one and `size` bytes (all but
/// the last exactly `size`), their lengths add up to `total`, and an empty
/// buffer has no segment.
pub proof fn lemma_segmentation_covers(total: int, size: int)
    requires
        total >= 0,
        size > 0,
    ensures
        ({
            let s = split(total, size);
            &&& s.len() == 0 <==> total == 0
            &&& s.len() > 0 ==> s[0].0 == 0 && s.last().0 + s.last().1 == total
            &&& forall|i: int| 0 <= i < s.len() ==> 0 < #[trigger] s[i].1 <= size
            &&& forall|i: int| 0 <= i < s.len() - 1 ==> #[trigger] s[i].1 == size
            &&& forall|i: int| 0 <= i < s.len() - 1 ==> #[trigger] s[i + 1].0 == s[i].0 + s[i].1
            &&& sum_lens(s) == total
        }),
{
    lemma_split_from_partition(0, total, size);
}

/// Splits a buffer of `buf_len` bytes into segments of `segment_size` bytes,
/// in order; the last one holds what is left.
pub fn segment_ranges(buf_len: usize, segment_size: usize) -> (r: Vec<Segment>)
    requires
        segment_size > 0,
    ensures
        seg_pairs(r@) == split(buf_len as int, segment_size as int),
{
    let mut out: Vec<Segment> = Vec::new();
    let mut off: usize = 0;
    let mut left: usize = buf_len;
    while left > 0
        invariant
            segment_size > 0,
            off + left == buf_len,
            seg_pairs(out@) + split_from(off as int, buf_len as int, segment_size as int)
                == split(buf_len as int, segment_size as int),
        decreases left,
    {
        let pkt_len: usize = if left < segment_size { left } else { segment_size };
        let ghost before = out@;
        out.push(Segment { start: off, len: pkt_len });
        proof {
            assert(seg_pairs(out@) =~= seg_pairs(before).push((off as int, pkt_len as int)));
            let rest = split_from(off + pkt_len, buf_len as int, segment_size as int);
            assert(split_from(off as int, buf_len as int, segment_size as int)
                == seq![(off as int, pkt_len as int)] + rest);
            assert(seg_pairs(before) + (seq![(off as int, pkt_len as int)] + rest)
                =~= seg_pairs(out@) + rest);
        }
        off = off + pkt_len;
        left = left - pkt_len;
    }
    proof {
        assert(seg_pairs(out@) + split_from(off as int, buf_len as int, segment_size as int)
            =~= seg_pairs(out@));
    }
    out
}

} // verus!
