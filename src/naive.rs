use vstd::prelude::*;
use crate::segment::{
    Segment, seg_pair, seg_pairs, segment_ranges, split, sum_lens, lemma_sum_lens_concat,
    lemma_segmentation_covers,
};

verus! {

/// Where a per-segment send stands: the segments to send, how many went out,
/// the bytes counted for them, whether a send failed, and whether a segment
/// was only partly accepted.
pub struct SendProgress {
    pub segments: Seq<(int, int)>,
    pub next: int,
    pub written: int,
    pub failed: bool,
    pub short: bool,
}

impl SendProgress {
    /// Nothing sent yet of a buffer of `total` bytes in segments of `size` bytes.
    pub open spec fn initial(total: int, size: int) -> SendProgress {
        SendProgress { segments: split(total, size), next: 0, written: 0, failed: false, short: false }
    }

    /// A segment is waiting to be sent.
    pub open spec fn pending(self) -> bool {
        !self.failed && !self.short && self.next < self.segments.len()
    }

    /// Every segment went out.
    pub open spec fn complete(self) -> bool {
        !self.failed && !self.short && self.next >= self.segments.len()
    }

    /// The next segment went out and the platform accepted `n` bytes of it;
    /// fewer than the segment holds ends the send short.
    pub open spec fn after_sent(self, n: int) -> SendProgress {
        SendProgress {
            next: self.next + 1,
            written: self.written + n,
            short: n < self.segments[self.next].1,
            ..self
        }
    }

    /// Sending the next segment failed.
    pub open spec fn after_failure(self) -> SendProgress {
        SendProgress { failed: true, ..self }
    }

    /// How many sends were attempted: those that succeeded, and the one that failed.
    pub open spec fn attempts(self) -> int {
        self.next + if self.failed { 1int } else { 0int }
    }

    /// The progress after sending segment after segment while one is pending,
    /// each send taking the next outcome: `Some(n)` for `n` bytes accepted,
    /// `None` for a failure.
    pub open spec fn run(self, outcomes: Seq<Option<int>>) -> SendProgress
        decreases outcomes.len(),
    {
        if !self.pending() || outcomes.len() == 0 {
            self
        } else {
            match outcomes[0] {
                Some(n) => self.after_sent(n).run(outcomes.drop_first()),
                None => self.after_failure().run(outcomes.drop_first()),
            }
        }
    }
}

/// The outcomes of a send in which each segment goes out in full.
pub open spec fn full_outcomes(segments: Seq<(int, int)>) -> Seq<Option<int>> {
    segments.map_values(|p: (int, int)| Some(p.1))
}

/// What the driver of a per-segment send does next.
#[derive(Clone, Copy, Debug, PartialEq, Eq, Structural)]
pub enum NextStep {
    /// Send this segment of the buffer on its own.
    Send(Segment),
    /// All segments went out; report this many bytes.
    Done(usize),
    /// A send failed; report its error and send nothing more.
    Stopped,
    /// A segment was only partly accepted; report this many bytes, counted
    /// up to and including that segment, and send nothing more.
    Short(usize),
}

/// Sends a buffer one segment at a time, in order, and stops at the first
/// failure. The driver performs each send and reports its outcome back.
pub struct NaiveSender {
    segments: Vec<Segment>,
    next: usize,
    written: usize,
    failed: bool,
    short: bool,
}

/// Every range of the sequence has a length of at least zero.
pub open spec fn lens_nonneg(s: Seq<(int, int)>) -> bool {
    forall|i: int| 0 <= i < s.len() ==> #[trigger] s[i].1 >= 0
}

proof fn lemma_sum_lens_nonneg(s: Seq<(int, int)>)
    requires
        lens_nonneg(s),
    ensures
        sum_lens(s) >= 0,
    decreases s.len(),
{
    if s.len() > 0 {
        lemma_sum_lens_nonneg(s.drop_last());
        assert(s.last().1 >= 0);
    }
}

proof fn lemma_sum_lens_at_least_count(s: Seq<(int, int)>)
    requires
        forall|i: int| 0 <= i < s.len() ==> #[trigger] s[i].1 >= 1,
    ensures
        sum_lens(s) >= s.len(),
    decreases s.len(),
{
    if s.len() > 0 {
        lemma_sum_lens_at_least_count(s.drop_last());
        assert(s.last().1 >= 1);
    }
}

proof fn lemma_sum_lens_prefix(s: Seq<(int, int)>, k: int)
    requires
        lens_nonneg(s),
        0 <= k <= s.len(),
    ensures
        sum_lens(s.take(k)) <= sum_lens(s),
{
    assert(s =~= s.take(k) + s.skip(k));
    lemma_sum_lens_concat(s.take(k), s.skip(k));
    assert(lens_nonneg(s.skip(k))) by {
        assert forall|i: int| 0 <= i < s.skip(k).len() implies #[trigger] s.skip(k)[i].1 >= 0 by {
            assert(s.skip(k)[i] == s[k + i]);
        }
    }
    lemma_sum_lens_nonneg(s.skip(k));
}

impl View for NaiveSender {
    type V = SendProgress;

    closed spec fn view(&self) -> SendProgress {
        SendProgress {
            segments: seg_pairs(self.segments@),
            next: self.next as int,
            written: self.written as int,
            failed: self.failed,
            short: self.short,
        }
    }
}

impl NaiveSender {
    /// The counts fit: no more bytes counted than the segments sent hold, and
    /// all segments together fit in a `usize`.
    pub closed spec fn wf(&self) -> bool {
        let s = seg_pairs(self.segments@);
        &&& self.next <= self.segments@.len() <= usize::MAX
        &&& lens_nonneg(s)
        &&& self.written <= sum_lens(s.take(self.next as int))
        &&& sum_lens(s) <= usize::MAX
    }

    /// Starts sending a buffer of `buf_len` bytes in segments of
    /// `segment_size` bytes.
    pub fn new(buf_len: usize, segment_size: usize) -> (r: NaiveSender)
        requires
            segment_size > 0,
        ensures
            r.wf(),
            r@ == SendProgress::initial(buf_len as int, segment_size as int),
    {
        let segments = segment_ranges(buf_len, segment_size);
        proof {
            lemma_segmentation_covers(buf_len as int, segment_size as int);
            let s = seg_pairs(segments@);
            assert(s.take(0) =~= Seq::<(int, int)>::empty());
            assert(lens_nonneg(s));
            lemma_sum_lens_at_least_count(s);
        }
        NaiveSender { segments, next: 0, written: 0, failed: false, short: false }
    }

    /// What to do next: send the next segment, report the total once all
    /// went out, or stop after a failure.
    pub fn next_step(&self) -> (r: NextStep)
        requires
            self.wf(),
        ensures
            match r {
                NextStep::Send(seg) => self@.pending() && seg_pair(seg) == self@.segments[self@.next],
                NextStep::Done(n) => self@.complete() && n == self@.written,
                NextStep::Stopped => self@.failed,
                NextStep::Short(n) => !self@.failed && self@.short && n == self@.written,
            },
    {
        if self.failed {
            NextStep::Stopped
        } else if self.short {
            NextStep::Short(self.written)
        } else if self.next < self.segments.len() {
            NextStep::Send(self.segments[self.next])
        } else {
            NextStep::Done(self.written)
        }
    }

    /// Records that the pending segment went out and `n` of its bytes were
    /// accepted. Fewer bytes than the segment holds end the send short: no
    /// further segment is sent.
    pub fn record_sent(&mut self, n: usize)
        requires
            old(self).wf(),
            old(self)@.pending(),
            n <= old(self)@.segments[old(self)@.next].1,
        ensures
            final(self).wf(),
            final(self)@ == old(self)@.after_sent(n as int),
    {
        proof {
            let s = seg_pairs(self.segments@);
            let k = self.next as int;
            assert(s.len() == self.segments@.len());
            assert(s.take(k + 1).drop_last() =~= s.take(k));
            lemma_sum_lens_prefix(s, k + 1);
        }
        self.short = n < self.segments[self.next].len;
        self.written = self.written + n;
        self.next = self.next + 1;
    }

    /// Records that sending the pending segment failed.
    pub fn record_failure(&mut self)
        requires
            old(self).wf(),
            old(self)@.pending(),
        ensures
            final(self).wf(),
            final(self)@ == old(self)@.after_failure(),
    {
        self.failed = true;
    }
}

proof fn lemma_full_run_from(st: SendProgress)
    requires
        !st.failed,
        !st.short,
        0 <= st.next <= st.segments.len(),
    ensures
        ({
            let end = st.run(full_outcomes(st.segments).skip(st.next));
            &&& end.complete()
            &&& end.next == st.segments.len()
            &&& end.written == st.written + sum_lens(st.segments.skip(st.next))
            &&& end.segments == st.segments
        }),
    decreases st.segments.len() - st.next,
{
    let s = st.segments;
    let outs = full_outcomes(s).skip(st.next);
    if st.next == s.len() {
        assert(s.skip(st.next) =~= Seq::<(int, int)>::empty());
    } else {
        let k = st.next;
        assert(outs[0] == Some(s[k].1));
        assert(outs.drop_first() =~= full_outcomes(s).skip(k + 1));
        lemma_full_run_from(st.after_sent(s[k].1));
        assert(s.skip(k) =~= seq![s[k]] + s.skip(k + 1));
        lemma_sum_lens_concat(seq![s[k]], s.skip(k + 1));
        assert(seq![s[k]].drop_last() =~= Seq::<(int, int)>::empty());
        assert(sum_lens(Seq::<(int, int)>::empty()) == 0);
    }
}

/// When every segment goes out in full, a per-segment send of a buffer of
/// `total` bytes attempts each segment once, completes, and reports `total`.
pub proof fn lemma_full_send_reports_total(total: int, size: int)
    requires
        total >= 0,
        size > 0,
    ensures
        ({
            let segs = split(total, size);
            let end = SendProgress::initial(total, size).run(full_outcomes(segs));
            &&& end.complete()
            &&& end.written == total
            &&& end.attempts() == segs.len()
        }),
{
    let st = SendProgress::initial(total, size);
    lemma_segmentation_covers(total, size);
    assert(full_outcomes(st.segments).skip(0) =~= full_outcomes(st.segments));
    assert(st.segments.skip(0) =~= st.segments);
    lemma_full_run_from(st);
}

/// An empty buffer has no segment: its per-segment send is complete from the
/// start, attempts no send, and reports 0 bytes.
pub proof fn lemma_empty_buffer_sends_nothing(size: int, outcomes: Seq<Option<int>>)
    requires
        size > 0,
    ensures
        split(0, size).len() == 0,
        SendProgress::initial(0, size).complete(),
        SendProgress::initial(0, size).run(outcomes) == SendProgress::initial(0, size),
        SendProgress::initial(0, size).attempts() == 0,
        SendProgress::initial(0, size).written == 0,
{
    lemma_segmentation_covers(0, size);
}

proof fn lemma_run_stops_at(st: SendProgress, outcomes: Seq<Option<int>>, j: int)
    requires
        !st.failed,
        !st.short,
        0 <= j < outcomes.len(),
        0 <= st.next,
        st.next + j < st.segments.len(),
        outcomes[j] is None,
        forall|i: int| 0 <= i < j ==> #[trigger] outcomes[i] == Some(st.segments[st.next + i].1),
    ensures
        st.run(outcomes).failed,
        st.run(outcomes).next == st.next + j,
    decreases j,
{
    if j == 0 {
        assert(st.after_failure().run(outcomes.drop_first()) == st.after_failure());
    } else {
        let n = st.segments[st.next].1;
        assert(outcomes[0int] == Some(st.segments[st.next + 0int].1));
        let rest = outcomes.drop_first();
        let nx = st.after_sent(n);
        assert forall|i: int| 0 <= i < j - 1 implies #[trigger] rest[i] == Some(nx.segments[nx.next + i].1) by {
            assert(rest[i] == outcomes[i + 1]);
            assert(outcomes[i + 1] == Some(st.segments[st.next + (i + 1)].1));
        }
        lemma_run_stops_at(st.after_sent(n), rest, j - 1);
    }
}

/// A per-segment send stops at its first failure: when the segment at index
/// `k` fails after every segment before it went out in full, exactly `k + 1` sends
/// are attempted, none for the segments after `k`, and the send ends failed.
pub proof fn lemma_failure_stops_send(total: int, size: int, outcomes: Seq<Option<int>>, k: int)
    requires
        total >= 0,
        size > 0,
        0 <= k < split(total, size).len(),
        k < outcomes.len(),
        outcomes[k] is None,
        forall|i: int| 0 <= i < k ==> #[trigger] outcomes[i] == Some(split(total, size)[i].1),
    ensures
        ({
            let end = SendProgress::initial(total, size).run(outcomes);
            &&& end.failed
            &&& end.next == k
            &&& end.attempts() == k + 1
        }),
{
    lemma_run_stops_at(SendProgress::initial(total, size), outcomes, k);
}

proof fn lemma_run_short_at(st: SendProgress, outcomes: Seq<Option<int>>, j: int, n: int)
    requires
        !st.failed,
        !st.short,
        0 <= j < outcomes.len(),
        0 <= st.next,
        st.next + j < st.segments.len(),
        outcomes[j] == Some(n),
        n < st.segments[st.next + j].1,
        forall|i: int| 0 <= i < j ==> #[trigger] outcomes[i] == Some(st.segments[st.next + i].1),
    ensures
        st.run(outcomes).short,
        !st.run(outcomes).failed,
        st.run(outcomes).next == st.next + j + 1,
        st.run(outcomes).written == st.written + sum_lens(st.segments.subrange(st.next, st.next + j)) + n,
    decreases j,
{
    let segs = st.segments;
    if j == 0 {
        assert(outcomes[0int] == Some(n));
        assert(segs.subrange(st.next, st.next) =~= Seq::<(int, int)>::empty());
        assert(st.after_sent(n).run(outcomes.drop_first()) == st.after_sent(n));
    } else {
        let m = segs[st.next].1;
        assert(outcomes[0int] == Some(segs[st.next + 0int].1));
        let rest = outcomes.drop_first();
        let nx = st.after_sent(m);
        assert forall|i: int| 0 <= i < j - 1 implies #[trigger] rest[i] == Some(nx.segments[nx.next + i].1) by {
            assert(rest[i] == outcomes[i + 1]);
            assert(outcomes[i + 1] == Some(segs[st.next + (i + 1)].1));
        }
        assert(rest[j - 1] == outcomes[j]);
        lemma_run_short_at(nx, rest, j - 1, n);
        let whole = segs.subrange(st.next, st.next + j);
        let tail = segs.subrange(st.next + 1, st.next + j);
        assert(whole =~= seq![segs[st.next]] + tail);
        lemma_sum_lens_concat(seq![segs[st.next]], tail);
        assert(seq![segs[st.next]].drop_last() =~= Seq::<(int, int)>::empty());
        assert(sum_lens(Seq::<(int, int)>::empty()) == 0);
    }
}

/// A partly accepted segment ends a per-segment send: when every segment
/// before index `k` went out in full and the segment at `k` is accepted with
/// only `n` of its bytes, exactly `k + 1` sends are attempted, none for the
/// segments after `k`, and the send ends short, counting the bytes of the
/// segments before `k` and the `n` bytes accepted of segment `k`.
pub proof fn lemma_short_send_stops(total: int, size: int, outcomes: Seq<Option<int>>, k: int, n: int)
    requires
        total >= 0,
        size > 0,
        0 <= k < split(total, size).len(),
        k < outcomes.len(),
        outcomes[k] == Some(n),
        n < split(total, size)[k].1,
        forall|i: int| 0 <= i < k ==> #[trigger] outcomes[i] == Some(split(total, size)[i].1),
    ensures
        ({
            let end = SendProgress::initial(total, size).run(outcomes);
            &&& end.short
            &&& !end.failed
            &&& end.next == k + 1
            &&& end.attempts() == k + 1
            &&& end.written == sum_lens(split(total, size).take(k)) + n
        }),
{
    let st = SendProgress::initial(total, size);
    lemma_run_short_at(st, outcomes, k, n);
    assert(st.segments.subrange(0, k) =~= st.segments.take(k));
}

} // verus!
