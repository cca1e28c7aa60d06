use vstd::prelude::*;
use crate::decimal::{
    Decimal, MAX_DIGITS, MAX_SCALE, pow10, round_div, pow10_u64, lemma_pow10_18,
    lemma_pow10_monotonic, lemma_pow10_positive,
};

verus! {

/// Output resolution: ticks per quarter note.
pub const TICKS_PER_QUARTER_NOTE: u16 = 480;

/// Microseconds in a minute.
pub const MICROS_PER_MINUTE: u64 = 60_000_000;

/// Ticks spanned by `duration` divisions when a quarter note holds
/// `divisions` divisions: `round(duration / divisions * 480)`, and no ticks
/// for a negative duration.
pub open spec fn ticks_of(duration: Decimal, divisions: Decimal) -> int {
    if duration.negative {
        0
    } else {
        round_div(
            duration.units * divisions.den() * TICKS_PER_QUARTER_NOTE,
            duration.den() * divisions.units,
        )
    }
}

/// `ticks_of`, kept within the tick positions `0 ..= u64::MAX`.
pub open spec fn clamped_ticks(duration: Decimal, divisions: Decimal) -> int {
    if ticks_of(duration, divisions) < 0 {
        0
    } else if ticks_of(duration, divisions) > u64::MAX {
        u64::MAX as int
    } else {
        ticks_of(duration, divisions)
    }
}

/// Microseconds per quarter note at `bpm` beats per minute:
/// `round(60_000_000 / bpm)`.
pub open spec fn micros_per_quarter(bpm: Decimal) -> int {
    round_div(MICROS_PER_MINUTE * bpm.den(), bpm.units as int)
}

/// Ticks spanned by `duration` at `divisions` divisions per quarter note,
/// saturated at `u64::MAX`.
pub fn duration_ticks(duration: &Decimal, divisions: &Decimal) -> (r: u64)
    requires
        duration.wf(),
        divisions.wf(),
        divisions.is_positive(),
    ensures
        r == clamped_ticks(*duration, *divisions),
{
    if duration.negative {
        return 0;
    }
    proof {
        lemma_pow10_18();
        lemma_pow10_monotonic(duration.scale as nat, MAX_SCALE as nat);
        lemma_pow10_monotonic(divisions.scale as nat, MAX_SCALE as nat);
        lemma_pow10_positive(duration.scale as nat);
        lemma_pow10_positive(divisions.scale as nat);
    }
    let du = duration.units as u128;
    let dd = pow10_u64(duration.scale) as u128;
    let vu = divisions.units as u128;
    let vd = pow10_u64(divisions.scale) as u128;
    proof {
        assert(du * vd <= 1_000_000_000_000_000_000u128 * 1_000_000_000u128) by (nonlinear_arith)
            requires
                du <= 1_000_000_000_000_000_000u128,
                vd <= 1_000_000_000u128,
        ;
        assert(dd * vu <= 1_000_000_000u128 * 1_000_000_000_000_000_000u128) by (nonlinear_arith)
            requires
                vu <= 1_000_000_000_000_000_000u128,
                dd <= 1_000_000_000u128,
        ;
        assert(dd * vu >= 1) by (nonlinear_arith)
            requires
                vu >= 1,
                dd >= 1,
        ;
    }
    let a = du * vd;
    assert(a * 480 <= 480_000_000_000_000_000_000_000_000_000u128);
    let p = a * (TICKS_PER_QUARTER_NOTE as u128);
    let q = dd * vu;
    let t = (2 * p + q) / (2 * q);
    if t > u64::MAX as u128 {
        u64::MAX
    } else {
        t as u64
    }
}

/// Microseconds per quarter note at a tempo of `bpm` beats per minute.
pub fn tempo_micros(bpm: &Decimal) -> (r: u64)
    requires
        bpm.wf(),
        bpm.is_positive(),
    ensures
        r == micros_per_quarter(*bpm),
{
    proof {
        lemma_pow10_18();
        lemma_pow10_monotonic(bpm.scale as nat, MAX_SCALE as nat);
        lemma_pow10_positive(bpm.scale as nat);
    }
    let d = pow10_u64(bpm.scale) as u128;
    let u = bpm.units as u128;
    let p = (MICROS_PER_MINUTE as u128) * d;
    let t = (2 * p + u) / (2 * u);
    proof {
        assert(t <= 2 * p + u) by (nonlinear_arith)
            requires
                u >= 1,
                t == (2 * p + u) / (2 * u),
        ;
        assert(2 * p + u <= 3_000_000_000_000_000_000u128);
    }
    t as u64
}

} // verus!
