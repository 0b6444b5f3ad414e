//! The amplitude scaler: a frame's peak magnitude and the gain that maps it
//! onto half of the available height, capped at a maximum gain.
use vstd::prelude::*;
use crate::UNIT;
use crate::reduce::as_ints;

verus! {

/// Largest gain, in pixels per full-scale amplitude.
pub const MAX_AMPLIFIER: u64 = 10000;

pub open spec fn abs(v: int) -> int {
    if v < 0 {
        -v
    } else {
        v
    }
}

/// Largest magnitude in `s`; zero for an empty sequence.
pub open spec fn peak(s: Seq<int>) -> int
    decreases s.len(),
{
    if s.len() == 0 {
        0
    } else {
        let p = peak(s.drop_last());
        if p < abs(s.last()) {
            abs(s.last())
        } else {
            p
        }
    }
}

/// A gain in pixels per full-scale amplitude, kept as the exact fraction
/// `num / den`.
#[derive(Clone, Copy, Debug, PartialEq, Eq, Structural)]
pub struct Gain {
    pub num: u64,
    pub den: u64,
}

/// Gain, as a pair (numerator, denominator), for a peak of `p` on a surface
/// `h` pixels high: half of the half height over the peak, that is
/// `(h / 2) * 0.5 / (p / UNIT)`, capped at `MAX_AMPLIFIER`; `None` for a zero
/// peak.
pub open spec fn amplifier(h: int, p: int) -> Option<(int, int)> {
    if p == 0 {
        None
    } else if h * UNIT > 4 * p * MAX_AMPLIFIER {
        Some((MAX_AMPLIFIER as int, 1))
    } else {
        Some((h * UNIT, 4 * p))
    }
}

proof fn lemma_peak_step(s: Seq<int>, j: int)
    requires
        0 <= j < s.len(),
    ensures
        s.subrange(0, j + 1).drop_last() == s.subrange(0, j),
        s.subrange(0, j + 1).last() == s[j],
{
    assert(s.subrange(0, j + 1).drop_last() =~= s.subrange(0, j));
}

/// Every magnitude in `s` is at most its peak, and the peak is one of them
/// (or zero).
pub proof fn lemma_peak_bounds(s: Seq<int>)
    ensures
        peak(s) >= 0,
        forall|i: int| 0 <= i < s.len() ==> abs(#[trigger] s[i]) <= peak(s),
        peak(s) == 0 || exists|i: int| 0 <= i < s.len() && abs(#[trigger] s[i]) == peak(s),
    decreases s.len(),
{
    if s.len() > 0 {
        lemma_peak_bounds(s.drop_last());
        assert forall|i: int| 0 <= i < s.len() implies abs(#[trigger] s[i]) <= peak(s) by {
            if i < s.len() - 1 {
                assert(s[i] == s.drop_last()[i]);
            }
        }
        if peak(s) != 0 && peak(s) != abs(s.last()) {
            let k = choose|i: int|
                0 <= i < s.drop_last().len() && abs(#[trigger] s.drop_last()[i]) == peak(
                    s.drop_last(),
                );
            assert(s[k] == s.drop_last()[k]);
        }
    }
}

/// A frame's peak is zero exactly when every column is zero.
pub proof fn lemma_peak_zero_iff_silent(s: Seq<int>)
    ensures
        peak(s) == 0 <==> forall|i: int| 0 <= i < s.len() ==> s[i] == 0,
{
    lemma_peak_bounds(s);
}

/// Largest magnitude of the frame's columns.
pub fn get_max_sample(frame: &Vec<i32>) -> (r: u32)
    ensures
        r as int == peak(as_ints(frame@)),
{
    let mut best: u32 = 0;
    let mut j: usize = 0;
    while j < frame.len()
        invariant
            j <= frame@.len(),
            best as int == peak(as_ints(frame@).subrange(0, j as int)),
        decreases frame@.len() - j,
    {
        let v: i32 = frame[j];
        let m: u32 = if v < 0 {
            (-(v as i64)) as u32
        } else {
            v as u32
        };
        proof {
            lemma_peak_step(as_ints(frame@), j as int);
        }
        if best < m {
            best = m;
        }
        j += 1;
    }
    assert(as_ints(frame@).subrange(0, frame@.len() as int) =~= as_ints(frame@));
    best
}

/// Gain for a frame whose peak is `peak`, drawn on a surface
/// `screen_height` pixels high: `None` when the peak is zero, so that nothing
/// is drawn and nothing is divided by zero.
pub fn get_amplifier(screen_height: u32, peak: u32) -> (r: Option<Gain>)
    ensures
        r matches Some(g) ==> 0 < g.den && g.num <= MAX_AMPLIFIER * g.den,
        match r {
            None => amplifier(screen_height as int, peak as int) is None,
            Some(g) => amplifier(screen_height as int, peak as int) == Some(
                (g.num as int, g.den as int),
            ),
        },
{
    if peak == 0 {
        return None;
    }
    let h: u64 = screen_height as u64;
    assert(h * 1000000 <= 0xffff_ffff * 1000000) by (nonlinear_arith)
        requires
            h <= 0xffff_ffff,
    ;
    let num: u64 = h * UNIT as u64;
    let den: u64 = 4 * peak as u64;
    if num > den * MAX_AMPLIFIER {
        Some(Gain { num: MAX_AMPLIFIER, den: 1 })
    } else {
        Some(Gain { num, den })
    }
}

/// The gain never exceeds `MAX_AMPLIFIER`, and a frame with no non-zero
/// column has no gain at all: it is skipped rather than divided by zero.
pub proof fn lemma_gain_bounded_and_silent_skipped(f: Seq<int>, h: int)
    requires
        0 <= h,
    ensures
        amplifier(h, peak(f)) is Some ==> ({
            let (n, d) = amplifier(h, peak(f))->0;
            0 < d && 0 <= n <= MAX_AMPLIFIER * d
        }),
        (forall|i: int| 0 <= i < f.len() ==> f[i] == 0) ==> amplifier(h, peak(f)) is None,
{
    lemma_peak_bounds(f);
    lemma_peak_zero_iff_silent(f);
    if peak(f) != 0 {
        assert(0 <= h * UNIT) by (nonlinear_arith)
            requires
                0 <= h,
        ;
    }
}

} // verus!
