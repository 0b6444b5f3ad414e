//! The frame reducer: averages the filled part of a sample batch into a fixed
//! number of columns.
use vstd::prelude::*;
use vstd::arithmetic::div_mod::{lemma_div_is_ordered, lemma_div_by_multiple};
use crate::{MAX_SAMPLES, RENDERED_SAMPLES};

verus! {

/// One capture's worth of samples: a fixed-capacity buffer of which the first
/// `filled` entries hold data and the rest are zero padding.
pub struct SampleBatch {
    pub values: Vec<i32>,
    pub filled: usize,
}

impl SampleBatch {
    pub open spec fn wf(&self) -> bool {
        &&& self.values@.len() == MAX_SAMPLES
        &&& self.filled <= MAX_SAMPLES
    }

    /// A batch with no data: all padding.
    pub fn empty() -> (r: SampleBatch)
        ensures
            r.wf(),
            r.filled == 0,
            r.values@ == Seq::new(MAX_SAMPLES as nat, |i: int| 0i32),
    {
        let mut values: Vec<i32> = Vec::new();
        let mut i: usize = 0;
        while i < MAX_SAMPLES
            invariant
                i <= MAX_SAMPLES,
                values@ == Seq::new(i as nat, |k: int| 0i32),
            decreases MAX_SAMPLES - i,
        {
            values.push(0);
            i += 1;
            assert(values@ =~= Seq::new(i as nat, |k: int| 0i32));
        }
        SampleBatch { values, filled: 0 }
    }
}

/// Samples read as mathematical integers.
pub open spec fn as_ints(s: Seq<i32>) -> Seq<int> {
    s.map_values(|v: i32| v as int)
}

/// Sum of a sequence of samples.
pub open spec fn sum(s: Seq<i32>) -> int
    decreases s.len(),
{
    if s.len() == 0 {
        0
    } else {
        sum(s.drop_last()) + s.last() as int
    }
}

/// Integer division that rounds toward zero, as machine division does.
pub open spec fn trunc_div(a: int, d: int) -> int {
    if a >= 0 {
        a / d
    } else {
        -((-a) / d)
    }
}

/// Number of samples that make up one column when `n` samples are filled.
pub open spec fn chunk_len(n: int) -> int {
    n / (RENDERED_SAMPLES as int)
}

/// Mean, rounded toward zero, of the `i`-th chunk of `c` samples of `s`.
pub open spec fn chunk_mean(s: Seq<i32>, c: int, i: int) -> int {
    trunc_div(sum(s.subrange(i * c, i * c + c)), c)
}

/// Column `i` of the frame reduced from the first `n` samples of `s`: the
/// mean of its chunk, or zero when there are fewer samples than columns. The
/// samples past the last whole chunk are left out.
pub open spec fn reduced_at(s: Seq<i32>, n: int, i: int) -> int {
    if chunk_len(n) == 0 {
        0
    } else {
        chunk_mean(s, chunk_len(n), i)
    }
}

/// The frame reduced from the first `n` samples of `s`.
pub open spec fn reduced(s: Seq<i32>, n: int) -> Seq<int> {
    Seq::new(RENDERED_SAMPLES as nat, |i: int| reduced_at(s, n, i))
}

proof fn lemma_sum_push(s: Seq<i32>, a: int, j: int)
    requires
        0 <= a <= j < s.len(),
    ensures
        sum(s.subrange(a, j + 1)) == sum(s.subrange(a, j)) + s[j] as int,
{
    assert(s.subrange(a, j + 1).drop_last() =~= s.subrange(a, j));
}

proof fn lemma_quotient_bounds(a: int, len: int)
    requires
        0 < len,
        -len * 0x8000_0000 <= a <= len * 0x7fff_ffff,
    ensures
        i32::MIN <= trunc_div(a, len) <= i32::MAX,
{
    lemma_div_by_multiple(0x7fff_ffff, len);
    lemma_div_by_multiple(0x8000_0000, len);
    assert(0x7fff_ffff * len == len * 0x7fff_ffff) by (nonlinear_arith);
    assert(0x8000_0000 * len == len * 0x8000_0000) by (nonlinear_arith);
    if a >= 0 {
        lemma_div_is_ordered(a, len * 0x7fff_ffff, len);
    } else {
        lemma_div_is_ordered(-a, len * 0x8000_0000, len);
    }
}

/// Mean, rounded toward zero, of `s[start..start + len]`.
fn chunk_average(s: &Vec<i32>, start: usize, len: usize) -> (r: i32)
    requires
        0 < len <= MAX_SAMPLES,
        start + len <= s@.len(),
    ensures
        r as int == trunc_div(sum(s@.subrange(start as int, start + len)), len as int),
{
    let mut acc: i64 = 0;
    let total: usize = s.len();
    assert(start + len <= total);
    let end: usize = start + len;
    let mut j: usize = start;
    while j < end
        invariant
            end == start + len,
            start <= j <= start + len,
            start + len <= s@.len(),
            len <= MAX_SAMPLES,
            acc as int == sum(s@.subrange(start as int, j as int)),
            -(j - start) * 0x8000_0000 <= acc <= (j - start) * 0x7fff_ffff,
        decreases end - j,
    {
        proof {
            lemma_sum_push(s@, start as int, j as int);
        }
        acc = acc + s[j] as i64;
        j += 1;
    }
    proof {
        lemma_quotient_bounds(acc as int, len as int);
    }
    let d: i64 = len as i64;
    if acc >= 0 {
        (acc / d) as i32
    } else {
        let q: i64 = (-acc) / d;
        (-q) as i32
    }
}

/// Reduces a batch to exactly `RENDERED_SAMPLES` columns. Each column is the
/// mean, rounded toward zero, of a chunk of `filled / RENDERED_SAMPLES`
/// consecutive samples; a batch with fewer samples than columns gives an
/// all-zero frame.
pub fn fit_samples(batch: &SampleBatch) -> (r: Vec<i32>)
    requires
        batch.wf(),
    ensures
        r@.len() == RENDERED_SAMPLES,
        forall|i: int|
            0 <= i < RENDERED_SAMPLES ==> r@[i] as int == reduced_at(
                batch.values@,
                batch.filled as int,
                i,
            ),
        as_ints(r@) == reduced(batch.values@, batch.filled as int),
{
    let c: usize = batch.filled / RENDERED_SAMPLES;
    let mut out: Vec<i32> = Vec::new();
    let mut i: usize = 0;
    while i < RENDERED_SAMPLES
        invariant
            batch.wf(),
            i <= RENDERED_SAMPLES,
            c as int == chunk_len(batch.filled as int),
            out@.len() == i,
            forall|k: int|
                0 <= k < i ==> out@[k] as int == reduced_at(
                    batch.values@,
                    batch.filled as int,
                    k,
                ),
        decreases RENDERED_SAMPLES - i,
    {
        if c == 0 {
            out.push(0);
        } else {
            assert((i + 1) * c <= RENDERED_SAMPLES * c) by (nonlinear_arith)
                requires
                    i + 1 <= RENDERED_SAMPLES,
                    0 <= c,
            ;
            assert(RENDERED_SAMPLES * c <= batch.filled) by (nonlinear_arith)
                requires
                    c == batch.filled / RENDERED_SAMPLES,
            ;
            assert((i + 1) * c == i * c + c) by (nonlinear_arith);
            let m = chunk_average(&batch.values, i * c, c);
            out.push(m);
        }
        i += 1;
    }
    assert(as_ints(out@) =~= reduced(batch.values@, batch.filled as int));
    out
}

/// A batch with fewer filled samples than columns reduces to an all-zero
/// frame of full length.
pub proof fn lemma_short_batch_is_silent(s: Seq<i32>, n: int)
    requires
        0 <= n < RENDERED_SAMPLES,
    ensures
        reduced(s, n).len() == RENDERED_SAMPLES,
        reduced(s, n) == Seq::new(RENDERED_SAMPLES as nat, |i: int| 0int),
{
    assert(reduced(s, n) =~= Seq::new(RENDERED_SAMPLES as nat, |i: int| 0int));
}

} // verus!
