//! The render driver: keeps the latest batch between frames and turns it into
//! one vertical line segment per column.
use vstd::prelude::*;
use vstd::arithmetic::div_mod::{lemma_div_by_multiple, lemma_div_is_ordered};
use crate::{MAX_SAMPLES, RENDERED_SAMPLES};
use crate::reduce::{
    SampleBatch, as_ints, chunk_len, chunk_mean, fit_samples, reduced, sum, trunc_div,
};
use crate::ring::{SampleRing, keep_latest, lemma_burst_keeps_latest};
use crate::scale::{
    MAX_AMPLIFIER, abs, amplifier, get_amplifier, get_max_sample, lemma_peak_bounds, lemma_peak_zero_iff_silent,
    peak,
};

verus! {

/// Subpixels per pixel: line coordinates are kept in this fixed point, in
/// which both column positions and half heights are exact.
pub const SUBPIXELS: i64 = 2000000;

/// A vertical line at horizontal position `x`, from `top` down to `bottom`,
/// all in subpixels.
#[derive(Clone, Copy, Debug, PartialEq, Eq)]
pub struct Segment {
    pub x: i64,
    pub top: i64,
    pub bottom: i64,
}

/// Half the length, in subpixels, of the line drawn for a column of magnitude
/// `v` at the gain `g` (numerator, denominator): `|v| / UNIT * g` pixels,
/// rounded down to a subpixel.
pub open spec fn half_len(v: int, g: (int, int)) -> int {
    2 * abs(v) * g.0 / g.1
}

/// `seg` is the line of column `i` of frame `f` at gain `g` on a surface of
/// `w` by `h` pixels: at `i * w / RENDERED_SAMPLES` pixels from the left,
/// centred on half the height.
pub open spec fn segment_fits(seg: Segment, f: Seq<int>, i: int, w: int, h: int, g: (int, int)) -> bool {
    &&& seg.x * RENDERED_SAMPLES == i * w * SUBPIXELS
    &&& seg.top == h * SUBPIXELS / 2 - half_len(f[i], g)
    &&& seg.bottom == h * SUBPIXELS / 2 + half_len(f[i], g)
}

/// `segs` holds the line of every column of `f`, in order.
pub open spec fn segments_fit(segs: Seq<Segment>, f: Seq<int>, w: int, h: int, g: (int, int)) -> bool {
    &&& segs.len() == f.len()
    &&& forall|i: int| 0 <= i < f.len() ==> segment_fits(#[trigger] segs[i], f, i, w, h, g)
}

/// What `update_lines` returns for `batch` on a `w` by `h` surface.
pub open spec fn draws(batch: SampleBatch, w: int, h: int, r: Option<Vec<Segment>>) -> bool {
    let f = reduced(batch.values@, batch.filled as int);
    let g = amplifier(h, peak(f));
    &&& r is None <==> peak(f) == 0
    &&& r matches Some(segs) ==> g is Some && segments_fit(segs@, f, w, h, g->0)
}

/// Lines for `batch` on a surface of `screen_width` by `screen_height`
/// pixels: the batch is reduced to a frame, scaled by its gain, and each
/// column becomes one line. `None` when the frame's peak is zero: then there is
/// nothing to draw.
pub fn update_lines(batch: &SampleBatch, screen_width: u32, screen_height: u32) -> (r: Option<
    Vec<Segment>,
>)
    requires
        batch.wf(),
    ensures
        draws(*batch, screen_width as int, screen_height as int, r),
{
    let frame = fit_samples(batch);
    let top_peak = get_max_sample(&frame);
    let g = match get_amplifier(screen_height, top_peak) {
        None => {
            return None;
        },
        Some(g) => g,
    };
    let ghost f = reduced(batch.values@, batch.filled as int);
    let ghost gs = (g.num as int, g.den as int);
    let h: i64 = screen_height as i64;
    let w: i64 = screen_width as i64;
    assert(h * 1000000 <= 0xffff_ffff * 1000000) by (nonlinear_arith)
        requires
            h <= 0xffff_ffff,
    ;
    let centre: i64 = h * (SUBPIXELS / 2);
    assert(centre == h * SUBPIXELS / 2) by {
        assert(h * SUBPIXELS == (h * 1000000) * 2) by (nonlinear_arith);
        lemma_div_by_multiple(h * 1000000, 2);
    }
    let step: i64 = SUBPIXELS / (RENDERED_SAMPLES as i64);
    let mut segs: Vec<Segment> = Vec::new();
    let mut i: usize = 0;
    while i < RENDERED_SAMPLES
        invariant
            i <= RENDERED_SAMPLES,
            frame@.len() == RENDERED_SAMPLES,
            as_ints(frame@) == f,
            0 < g.den,
            g.num <= MAX_AMPLIFIER * g.den,
            gs == (g.num as int, g.den as int),
            h == screen_height,
            w == screen_width,
            centre == h * SUBPIXELS / 2,
            0 <= centre <= 0xffff_ffff * 1000000,
            step == 15625,
            segs@.len() == i,
            forall|k: int|
                0 <= k < i ==> segment_fits(
                    #[trigger] segs@[k],
                    f,
                    k,
                    screen_width as int,
                    screen_height as int,
                    gs,
                ),
        decreases RENDERED_SAMPLES - i,
    {
        let v: i32 = frame[i];
        let m: u128 = if v < 0 {
            (-(v as i64)) as u128
        } else {
            v as u128
        };
        assert(f[i as int] == v as int);
        let num: u128 = g.num as u128;
        let den: u128 = g.den as u128;
        assert(2 * m * num <= 2 * m * (10000 * den)) by (nonlinear_arith)
            requires
                num <= 10000 * den,
                0 <= m,
        ;
        assert(2 * m * num <= 0x8000_0000 * 0x8000_0000 * 0x8000_0000 * 0x8000_0000)
            by (nonlinear_arith)
            requires
                0 <= m <= 0x8000_0000,
                0 <= num <= 10000 * den,
                den <= 0xffff_ffff_ffff_ffff,
        ;
        let twice: u128 = 2 * m;
        let half: u128 = (twice * num) / den;
        proof {
            assert(2 * m * (10000 * den) == (2 * m * 10000) * den) by (nonlinear_arith);
            lemma_div_is_ordered((2 * m * num) as int, (2 * m * 10000) * den, den as int);
            lemma_div_by_multiple(2 * m * 10000, den as int);
        }
        assert(i * w * step <= RENDERED_SAMPLES * 0xffff_ffff * 15625) by (nonlinear_arith)
            requires
                i <= RENDERED_SAMPLES,
                0 <= w <= 0xffff_ffff,
                step == 15625,
        ;
        let x: i64 = (i as i64) * w * step;
        assert(x * RENDERED_SAMPLES == i * w * SUBPIXELS) by (nonlinear_arith)
            requires
                x == i * w * step,
                step == 15625,
        ;
        let seg = Segment { x, top: centre - half as i64, bottom: centre + half as i64 };
        segs.push(seg);
        i += 1;
    }
    Some(segs)
}

/// Whether any sample of the buffer is non-zero.
pub open spec fn has_signal(values: Seq<i32>) -> bool {
    exists|i: int| 0 <= i < values.len() && values[i] != 0
}

/// `s` padded with zeros to `MAX_SAMPLES`.
pub open spec fn padded(s: Seq<i32>) -> Seq<i32> {
    Seq::new(MAX_SAMPLES as nat, |i: int| if i < s.len() { s[i] } else { 0i32 })
}

/// `new` is what the driver holds after draining `items` while holding `prev`:
/// the drained samples padded with zeros, or `prev` when none arrived.
pub open spec fn refreshed(prev: SampleBatch, new: SampleBatch, items: Seq<i32>) -> bool {
    &&& items.len() == 0 ==> new.values@ == prev.values@ && new.filled == prev.filled
    &&& items.len() > 0 ==> new.values@ == padded(items) && new.filled == items.len()
}

proof fn lemma_sum_silent(s: Seq<i32>)
    requires
        forall|i: int| 0 <= i < s.len() ==> s[i] == 0,
    ensures
        sum(s) == 0,
    decreases s.len(),
{
    if s.len() > 0 {
        lemma_sum_silent(s.drop_last());
    }
}

/// A buffer without a non-zero sample reduces to a frame whose peak is zero,
/// whatever part of it counts as filled.
pub proof fn lemma_silent_batch_has_zero_peak(values: Seq<i32>, n: int)
    requires
        !has_signal(values),
        0 <= n <= values.len(),
    ensures
        peak(reduced(values, n)) == 0,
{
    let f = reduced(values, n);
    let c = chunk_len(n);
    assert forall|i: int| 0 <= i < f.len() implies f[i] == 0 by {
        if c != 0 {
            assert(0 <= i * c) by (nonlinear_arith)
                requires
                    0 <= i,
                    0 <= c,
            ;
            assert(i * c + c <= n) by (nonlinear_arith)
                requires
                    0 <= i < RENDERED_SAMPLES,
                    c == n / (RENDERED_SAMPLES as int),
                    0 <= n,
            ;
            let part = values.subrange(i * c, i * c + c);
            assert forall|k: int| 0 <= k < part.len() implies part[k] == 0 by {
                assert(part[k] == values[i * c + k]);
            }
            lemma_sum_silent(part);
            assert(chunk_mean(values, c, i) == trunc_div(0, c));
        }
    }
    lemma_peak_zero_iff_silent(f);
}

/// The render side's state: the last batch received, held until a newer one
/// arrives so that the picture does not blank between audio bursts.
pub struct RenderDriver {
    pub held: SampleBatch,
}

impl RenderDriver {
    pub open spec fn wf(&self) -> bool {
        self.held.wf()
    }

    /// A driver that holds an empty batch.
    pub fn new() -> (r: RenderDriver)
        ensures
            r.wf(),
            r.held.filled == 0,
            !has_signal(r.held.values@),
    {
        let held = SampleBatch::empty();
        RenderDriver { held }
    }

    /// Drains every pending sample from the channel without blocking. If any
    /// arrived they become the held batch, padded with zeros; otherwise the
    /// held batch stays as it was.
    pub fn refresh(&mut self, ring: &mut SampleRing)
        requires
            old(self).wf(),
            old(ring).inv(),
            old(ring).capacity() == MAX_SAMPLES,
        ensures
            final(self).wf(),
            final(ring).inv(),
            final(ring).capacity() == old(ring).capacity(),
            final(ring).items() == Seq::<i32>::empty(),
            refreshed(old(self).held, final(self).held, old(ring).items()),
    {
        let ghost items = ring.items();
        let mut vals: Vec<i32> = Vec::new();
        let mut done = false;
        while !done && vals.len() < MAX_SAMPLES
            invariant
                ring.inv(),
                ring.capacity() == old(ring).capacity(),
                items == old(ring).items(),
                vals@.len() <= MAX_SAMPLES,
                vals@.len() <= items.len(),
                vals@ == items.subrange(0, vals@.len() as int),
                ring.items() == items.subrange(vals@.len() as int, items.len() as int),
                done ==> vals@.len() == items.len(),
            decreases MAX_SAMPLES - vals@.len(), if done { 0int } else { 1int },
        {
            match ring.pop() {
                None => {
                    done = true;
                },
                Some(v) => {
                    proof {
                        assert(items.subrange(0, vals@.len() as int + 1) =~= vals@.push(v));
                        assert(ring.items() =~= items.subrange(
                            vals@.len() as int + 1,
                            items.len() as int,
                        ));
                    }
                    vals.push(v);
                },
            }
        }
        let n: usize = vals.len();
        assert(n == items.len());
        assert(ring.items() =~= Seq::<i32>::empty());
        assert(items.subrange(0, n as int) =~= items);
        if n == 0 {
            return;
        }
        let ghost taken = vals@;
        while vals.len() < MAX_SAMPLES
            invariant
                n <= vals@.len() <= MAX_SAMPLES,
                taken.len() == n,
                forall|k: int| 0 <= k < vals@.len() ==> #[trigger] vals@[k] == padded(taken)[k],
            decreases MAX_SAMPLES - vals@.len(),
        {
            vals.push(0);
        }
        assert(vals@ =~= padded(taken));
        self.held = SampleBatch { values: vals, filled: n };
    }

    /// One display frame: drains the channel into the held batch, then returns
    /// the lines to draw for it, or `None` when the held batch is silent.
    pub fn tick(&mut self, ring: &mut SampleRing, screen_width: u32, screen_height: u32) -> (r:
        Option<Vec<Segment>>)
        requires
            old(self).wf(),
            old(ring).inv(),
            old(ring).capacity() == MAX_SAMPLES,
        ensures
            final(self).wf(),
            final(ring).inv(),
            final(ring).capacity() == old(ring).capacity(),
            final(ring).items() == Seq::<i32>::empty(),
            refreshed(old(self).held, final(self).held, old(ring).items()),
            !has_signal(final(self).held.values@) ==> r is None,
            draws(final(self).held, screen_width as int, screen_height as int, r),
    {
        self.refresh(ring);
        self.draw(screen_width, screen_height)
    }

    /// The lines to draw for the held batch, or `None` when it is silent.
    pub fn draw(&self, screen_width: u32, screen_height: u32) -> (r: Option<Vec<Segment>>)
        requires
            self.wf(),
        ensures
            !has_signal(self.held.values@) ==> r is None,
            draws(self.held, screen_width as int, screen_height as int, r),
    {
        if !self.any_signal() {
            proof {
                lemma_silent_batch_has_zero_peak(self.held.values@, self.held.filled as int);
            }
            return None;
        }
        update_lines(&self.held, screen_width, screen_height)
    }

    /// Whether the held batch has a non-zero sample.
    pub fn any_signal(&self) -> (r: bool)
        ensures
            r == has_signal(self.held.values@),
    {
        let mut j: usize = 0;
        while j < self.held.values.len()
            invariant
                j <= self.held.values@.len(),
                forall|k: int| 0 <= k < j ==> self.held.values@[k] == 0,
            decreases self.held.values@.len() - j,
        {
            if self.held.values[j] != 0 {
                return true;
            }
            j += 1;
        }
        false
    }
}

/// After a burst of at least `MAX_SAMPLES` samples into the channel, the next
/// refresh holds exactly the last `MAX_SAMPLES` samples of the burst.
pub proof fn lemma_burst_then_refresh(start: Seq<i32>, data: Seq<i32>)
    requires
        MAX_SAMPLES <= data.len(),
        start.len() <= MAX_SAMPLES,
    ensures
        ({
            let kept = keep_latest(start + data, MAX_SAMPLES as int);
            &&& kept.len() == MAX_SAMPLES
            &&& padded(kept) == data.subrange(data.len() - MAX_SAMPLES, data.len() as int)
        }),
{
    lemma_burst_keeps_latest(start, data, MAX_SAMPLES as int);
    let kept = keep_latest(start + data, MAX_SAMPLES as int);
    assert(padded(kept) =~= kept);
}

} // verus!
