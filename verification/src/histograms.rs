//! A histogram over a fixed range with a fixed number of bins. Counts are whole
//! numbers that stop at the greatest 64-bit value.

use crate::errors::HistDiffError;
use crate::ieee::{bits_eq, bits_lt, num_eq, num_lt};
use vstd::prelude::*;

verus! {

/// A one-dimensional histogram. `xlow` and `xhigh` are the bit patterns of the
/// bounds of its range.
#[derive(Debug, Clone)]
pub struct Hist1D {
    pub nbins: usize,
    pub xlow: u64,
    pub xhigh: u64,
    pub counts: Vec<u64>,
}

/// A count after one more observation.
pub open spec fn count_up(c: u64) -> u64 {
    if c < u64::MAX {
        (c + 1) as u64
    } else {
        c
    }
}

/// The sum of two counts, stopped at the greatest value.
pub open spec fn count_sum(a: u64, b: u64) -> u64 {
    if a + b > u64::MAX {
        u64::MAX
    } else {
        (a + b) as u64
    }
}

/// The sum of all counts.
pub open spec fn total(counts: Seq<u64>) -> int
    decreases counts.len(),
{
    if counts.len() == 0 {
        0
    } else {
        total(counts.drop_last()) + counts.last()
    }
}

/// The bin that a value falls into, if any. A value from the lower bound up
/// to, but not including, the upper bound falls into the bin `quotient`, which
/// the caller computes as the whole part of the value's distance from the lower
/// bound divided by the bin width. The upper bound itself falls into the last
/// bin. Any other value, and anything that is not a number, falls into none.
pub open spec fn bin_of(xlow: u64, xhigh: u64, nbins: usize, value: u64, quotient: usize) -> Option<
    int,
> {
    if (num_lt(xlow, value) || num_eq(xlow, value)) && num_lt(value, xhigh) {
        Some(quotient as int)
    } else if num_eq(value, xhigh) {
        Some(nbins - 1)
    } else {
        None
    }
}

/// The counts after one observation in `bin`.
pub open spec fn counts_with(counts: Seq<u64>, bin: Option<int>) -> Seq<u64> {
    match bin {
        Some(i) => if 0 <= i < counts.len() {
            counts.update(i, count_up(counts[i]))
        } else {
            counts
        },
        None => counts,
    }
}

/// The counts after a run of values, each with its quotient.
pub open spec fn counts_after(
    counts: Seq<u64>,
    xlow: u64,
    xhigh: u64,
    nbins: usize,
    values: Seq<u64>,
    quotients: Seq<usize>,
) -> Seq<u64>
    decreases values.len(),
{
    if values.len() == 0 || quotients.len() != values.len() {
        counts
    } else {
        counts_with(
            counts_after(counts, xlow, xhigh, nbins, values.drop_last(), quotients.drop_last()),
            bin_of(xlow, xhigh, nbins, values.last(), quotients.last()),
        )
    }
}

/// The bin-wise sum of two lists of counts of one length.
pub open spec fn counts_sum(a: Seq<u64>, b: Seq<u64>) -> Seq<u64> {
    Seq::new(a.len(), |i: int| count_sum(a[i], b[i]))
}

/// Changing one count changes the total by the difference.
pub proof fn lemma_total_update(counts: Seq<u64>, i: int, c: u64)
    requires
        0 <= i < counts.len(),
    ensures
        total(counts.update(i, c)) == total(counts) - counts[i] + c,
    decreases counts.len(),
{
    let changed = counts.update(i, c);
    if i == counts.len() - 1 {
        assert(changed.drop_last() =~= counts.drop_last());
    } else {
        lemma_total_update(counts.drop_last(), i, c);
        assert(changed.drop_last() =~= counts.drop_last().update(i, c));
    }
}

/// `value` is a number from the lower bound to the upper bound, both
/// included.
pub open spec fn in_range(xlow: u64, xhigh: u64, value: u64) -> bool {
    (num_lt(xlow, value) || num_eq(xlow, value)) && (num_lt(value, xhigh) || num_eq(value, xhigh))
}

/// Over a range whose lower bound is not above its upper bound, a value
/// falls into a bin exactly when it lies in the range.
pub proof fn lemma_bin_exists_in_range(
    xlow: u64,
    xhigh: u64,
    nbins: usize,
    value: u64,
    quotient: usize,
)
    requires
        num_lt(xlow, xhigh) || num_eq(xlow, xhigh),
    ensures
        bin_of(xlow, xhigh, nbins, value, quotient).is_some() <==> in_range(xlow, xhigh, value),
{
}

/// Filling a histogram with one value that lies in its range raises the sum
/// of the counts by exactly one, as long as the count of the value's bin is
/// below the greatest value; filling it with any other value, or with what is
/// not a number, changes no count.
pub proof fn lemma_one_value_counts_once(
    counts: Seq<u64>,
    xlow: u64,
    xhigh: u64,
    nbins: usize,
    value: u64,
    quotient: usize,
)
    requires
        nbins >= 1,
        counts.len() == nbins,
        num_lt(xlow, xhigh) || num_eq(xlow, xhigh),
        (num_lt(xlow, value) || num_eq(xlow, value)) && num_lt(value, xhigh) ==> quotient < nbins,
    ensures
        ({
            let bin = bin_of(xlow, xhigh, nbins, value, quotient);
            let after = counts_after(counts, xlow, xhigh, nbins, seq![value], seq![quotient]);
            &&& after == counts_with(counts, bin)
            &&& in_range(xlow, xhigh, value) && counts[bin.unwrap()] < u64::MAX ==> total(after)
                == total(counts) + 1
            &&& !in_range(xlow, xhigh, value) ==> after == counts
        }),
{
    let bin = bin_of(xlow, xhigh, nbins, value, quotient);
    let values = seq![value];
    let quotients = seq![quotient];
    assert(counts_after(counts, xlow, xhigh, nbins, values.drop_last(), quotients.drop_last())
        == counts);
    match bin {
        Some(i) => {
            lemma_total_update(counts, i, count_up(counts[i]));
        },
        None => {},
    }
}

impl Hist1D {
    /// The histogram is usable: it has at least one bin and one count for
    /// each.
    pub open spec fn wf(&self) -> bool {
        self.nbins >= 1 && self.counts@.len() == self.nbins
    }

    /// The other histogram has the same bin count and the same range.
    pub open spec fn compatible(&self, other: &Hist1D) -> bool {
        self.nbins == other.nbins && num_eq(self.xlow, other.xlow) && num_eq(
            self.xhigh,
            other.xhigh,
        )
    }

    /// An empty histogram of `nbins` bins over the range from `xlow` to
    /// `xhigh`.
    pub fn new(nbins: usize, xlow: u64, xhigh: u64) -> (hist: Self)
        requires
            nbins >= 1,
        ensures
            hist.wf(),
            hist.nbins == nbins,
            hist.xlow == xlow,
            hist.xhigh == xhigh,
            forall|i: int| 0 <= i < nbins ==> hist.counts@[i] == 0,
    {
        let mut counts: Vec<u64> = Vec::new();
        let mut i: usize = 0;
        while i < nbins
            invariant
                i <= nbins,
                counts@.len() == i,
                forall|j: int| 0 <= j < i ==> counts@[j] == 0,
            decreases nbins - i,
        {
            counts.push(0);
            i = i + 1;
        }
        Hist1D { nbins, xlow, xhigh, counts }
    }

    /// Says which bin `value` falls into; see `bin_of`.
    pub fn locate(&self, value: u64, quotient: usize) -> (bin: Option<usize>)
        requires
            self.wf(),
        ensures
            match bin_of(self.xlow, self.xhigh, self.nbins, value, quotient) {
                Some(i) => bin == Some(i as usize),
                None => bin.is_none(),
            },
    {
        if (bits_lt(self.xlow, value) || bits_eq(self.xlow, value)) && bits_lt(value, self.xhigh) {
            Some(quotient)
        } else if bits_eq(value, self.xhigh) {
            Some(self.nbins - 1)
        } else {
            None
        }
    }

    /// Counts one value. `quotient` is read only where the value lies from the
    /// lower bound up to, but not including, the upper bound; there it must
    /// name a bin.
    pub fn fill_one(&mut self, value: u64, quotient: usize)
        requires
            old(self).wf(),
            (num_lt(old(self).xlow, value) || num_eq(old(self).xlow, value)) && num_lt(
                value,
                old(self).xhigh,
            ) ==> quotient < old(self).nbins,
        ensures
            final(self).wf(),
            final(self).nbins == old(self).nbins,
            final(self).xlow == old(self).xlow,
            final(self).xhigh == old(self).xhigh,
            final(self).counts@ == counts_with(
                old(self).counts@,
                bin_of(old(self).xlow, old(self).xhigh, old(self).nbins, value, quotient),
            ),
    {
        match self.locate(value, quotient) {
            Some(i) => {
                let c: u64 = self.counts[i];
                if c < u64::MAX {
                    self.counts.set(i, c + 1);
                }
            },
            None => {},
        }
    }

    /// Counts each value of `data`, in order. `quotients[i]` belongs to
    /// `data[i]` as in `fill_one`.
    pub fn fill(&mut self, data: &[u64], quotients: &[usize])
        requires
            old(self).wf(),
            quotients@.len() == data@.len(),
            forall|i: int|
                0 <= i < data@.len() && (num_lt(old(self).xlow, data@[i]) || num_eq(
                    old(self).xlow,
                    data@[i],
                )) && num_lt(data@[i], old(self).xhigh) ==> #[trigger] quotients@[i] < old(
                    self,
                ).nbins,
        ensures
            final(self).wf(),
            final(self).nbins == old(self).nbins,
            final(self).xlow == old(self).xlow,
            final(self).xhigh == old(self).xhigh,
            final(self).counts@ == counts_after(
                old(self).counts@,
                old(self).xlow,
                old(self).xhigh,
                old(self).nbins,
                data@,
                quotients@,
            ),
    {
        let n: usize = data.len();
        let mut i: usize = 0;
        while i < n
            invariant
                i <= n,
                n == data@.len(),
                quotients@.len() == n,
                self.wf(),
                self.nbins == old(self).nbins,
                self.xlow == old(self).xlow,
                self.xhigh == old(self).xhigh,
                forall|j: int|
                    0 <= j < data@.len() && (num_lt(self.xlow, data@[j]) || num_eq(
                        self.xlow,
                        data@[j],
                    )) && num_lt(data@[j], self.xhigh) ==> #[trigger] quotients@[j] < self.nbins,
                self.counts@ == counts_after(
                    old(self).counts@,
                    self.xlow,
                    self.xhigh,
                    self.nbins,
                    data@.take(i as int),
                    quotients@.take(i as int),
                ),
            decreases n - i,
        {
            proof {
                assert(data@.take(i + 1).drop_last() =~= data@.take(i as int));
                assert(quotients@.take(i + 1).drop_last() =~= quotients@.take(i as int));
            }
            self.fill_one(data[i], quotients[i]);
            i = i + 1;
        }
        proof {
            assert(data@.take(n as int) =~= data@);
            assert(quotients@.take(n as int) =~= quotients@);
        }
    }

    /// The counts, bin by bin.
    pub fn data(&self) -> (counts: &[u64])
        ensures
            counts@ == self.counts@,
    {
        self.counts.as_slice()
    }

    /// Adds the counts of a compatible histogram, bin by bin.
    pub fn add(&mut self, other: &Hist1D)
        requires
            old(self).wf(),
            other.wf(),
            old(self).compatible(other),
        ensures
            final(self).wf(),
            final(self).nbins == old(self).nbins,
            final(self).xlow == old(self).xlow,
            final(self).xhigh == old(self).xhigh,
            final(self).counts@ == counts_sum(old(self).counts@, other.counts@),
    {
        let n: usize = self.nbins;
        let mut i: usize = 0;
        while i < n
            invariant
                i <= n,
                n == self.nbins,
                self.wf(),
                other.wf(),
                other.nbins == n,
                self.nbins == old(self).nbins,
                self.xlow == old(self).xlow,
                self.xhigh == old(self).xhigh,
                forall|j: int|
                    0 <= j < i ==> self.counts@[j] == count_sum(
                        old(self).counts@[j],
                        other.counts@[j],
                    ),
                forall|j: int| i <= j < n ==> self.counts@[j] == old(self).counts@[j],
            decreases n - i,
        {
            let a: u64 = self.counts[i];
            let b: u64 = other.counts[i];
            let sum: u64 = if a > u64::MAX - b {
                u64::MAX
            } else {
                a + b
            };
            self.counts.set(i, sum);
            i = i + 1;
        }
    }

    /// A copy of the histogram, equal to it in every field.
    pub fn duplicate(&self) -> (copy: Hist1D)
        ensures
            copy.nbins == self.nbins,
            copy.xlow == self.xlow,
            copy.xhigh == self.xhigh,
            copy.counts@ == self.counts@,
    {
        let mut counts: Vec<u64> = Vec::new();
        let n: usize = self.counts.len();
        let mut i: usize = 0;
        while i < n
            invariant
                i <= n,
                n == self.counts@.len(),
                counts@.len() == i,
                forall|j: int| 0 <= j < i ==> counts@[j] == self.counts@[j],
            decreases n - i,
        {
            counts.push(self.counts[i]);
            i = i + 1;
        }
        Hist1D { nbins: self.nbins, xlow: self.xlow, xhigh: self.xhigh, counts }
    }
}

/// The experimental rows and the control vector fit: there is at least one
/// row, and every row is as long as the control vector.
pub open spec fn shapes_fit(row_lens: Seq<usize>, ctrl_len: usize) -> bool {
    row_lens.len() > 0 && forall|k: int| 0 <= k < row_lens.len() ==> row_lens[k] == ctrl_len
}

/// Checks the shapes that a score is computed from: the length of each
/// experimental row against the length of the control vector. Fails with
/// `ShapeMismatch` exactly when there is no row or some row differs in length.
pub fn check_score_shapes(row_lens: &[usize], ctrl_len: usize) -> (res: Result<(), HistDiffError>)
    ensures
        match res {
            Ok(_) => shapes_fit(row_lens@, ctrl_len),
            Err(e) => e == HistDiffError::ShapeMismatch && !shapes_fit(row_lens@, ctrl_len),
        },
{
    let n: usize = row_lens.len();
    if n == 0 {
        return Err(HistDiffError::ShapeMismatch);
    }
    let mut k: usize = 0;
    while k < n
        invariant
            k <= n,
            n == row_lens@.len(),
            forall|j: int| 0 <= j < k ==> row_lens@[j] == ctrl_len,
        decreases n - k,
    {
        if row_lens[k] != ctrl_len {
            return Err(HistDiffError::ShapeMismatch);
        }
        k = k + 1;
    }
    Ok(())
}

} // verus!
