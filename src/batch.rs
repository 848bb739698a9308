use vstd::prelude::*;
use crate::segment::{split, sum_lens, lemma_segmentation_covers};

verus! {

/// The sum of the byte counts that a batched send reports, one per message.
pub open spec fn sum_counts(s: Seq<usize>) -> int
    decreases s.len(),
{
    if s.len() == 0 {
        0
    } else {
        sum_counts(s.drop_last()) + s.last() as int
    }
}

proof fn lemma_sum_counts_prefix(s: Seq<usize>, k: int)
    requires
        0 <= k <= s.len(),
    ensures
        sum_counts(s.take(k)) <= sum_counts(s),
    decreases s.len(),
{
    if k == s.len() {
        assert(s.take(k) =~= s);
    } else {
        assert(s.drop_last().take(k) =~= s.take(k));
        lemma_sum_counts_prefix(s.drop_last(), k);
    }
}

/// The bytes sent by a batched send: the sum of the counts the platform
/// reported for the messages it sent, or `None` where that sum does not fit
/// in a `usize`.
pub fn batch_total(sent: &[usize]) -> (r: Option<usize>)
    ensures
        r == (if sum_counts(sent@) <= usize::MAX {
            Some(sum_counts(sent@) as usize)
        } else {
            None::<usize>
        }),
{
    let mut total: usize = 0;
    let mut i: usize = 0;
    while i < sent.len()
        invariant
            i <= sent@.len(),
            total == sum_counts(sent@.take(i as int)),
        decreases sent@.len() - i,
    {
        proof {
            assert(sent@.take(i + 1).drop_last() =~= sent@.take(i as int));
        }
        if sent[i] > usize::MAX - total {
            proof {
                lemma_sum_counts_prefix(sent@, i + 1);
            }
            return None;
        }
        total = total + sent[i];
        i = i + 1;
    }
    proof {
        assert(sent@.take(i as int) =~= sent@);
    }
    Some(total)
}

proof fn lemma_counts_match_lens(c: Seq<usize>, s: Seq<(int, int)>)
    requires
        c.len() == s.len(),
        forall|i: int| 0 <= i < c.len() ==> #[trigger] c[i] as int == s[i].1,
    ensures
        sum_counts(c) == sum_lens(s),
    decreases c.len(),
{
    if c.len() > 0 {
        lemma_counts_match_lens(c.drop_last(), s.drop_last());
        assert(c.last() as int == s.last().1);
    }
}

/// When the platform reports every segment of a batch sent in full, the
/// batched send of a buffer of `total` bytes reports `total` bytes.
pub proof fn lemma_full_batch_reports_total(total: int, size: int, sent: Seq<usize>)
    requires
        total >= 0,
        size > 0,
        sent.len() == split(total, size).len(),
        forall|i: int| 0 <= i < sent.len() ==> #[trigger] sent[i] as int == split(total, size)[i].1,
    ensures
        sum_counts(sent) == total,
{
    lemma_segmentation_covers(total, size);
    lemma_counts_match_lens(sent, split(total, size));
}

} // verus!
