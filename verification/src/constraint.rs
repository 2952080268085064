//! Admission checks that decide whether a process may fire at a given time:
//! a periodic due-check and a conjunction of time-window constraints.

use vstd::prelude::*;

verus! {

/// One admission window on a time scale: the remainder of the current time
/// modulo the scale must fall inside `[start, end]` (both ends included).
/// A range with `start > end` wraps around the modulo boundary, covering
/// both the late and the early part of the cycle.
#[derive(Clone, Copy, PartialEq, Eq, Structural, Debug)]
pub struct TimeRange {
    pub start: u64,
    pub end: u64,
}

/// Whether the reduced time `t` falls inside the (possibly wrapping) range.
pub open spec fn range_admits(r: TimeRange, t: int) -> bool {
    if r.start <= r.end {
        r.start <= t <= r.end
    } else {
        t >= r.start || t <= r.end
    }
}

/// Whether any range of one constraint admits the reduced time `t`.
pub open spec fn ranges_admit(ranges: Seq<TimeRange>, t: int) -> bool {
    exists|k: int| 0 <= k < ranges.len() && range_admits(ranges[k], t)
}

/// Whether one `(modulo, ranges)` pair admits the time `now`. A pair with a
/// zero modulo is a definition error and admits nothing, so a process that
/// carries it never runs.
pub open spec fn pair_admits(ranges: Seq<TimeRange>, modulo: int, now: int) -> bool {
    modulo > 0 && ranges_admit(ranges, now % modulo)
}

/// Whether every `(modulo, ranges)` pair independently admits `now`.
/// A process without constraints is always admitted.
pub open spec fn admits_all(constraint: Seq<Seq<TimeRange>>, modulo: Seq<u64>, now: int) -> bool {
    forall|i: int|
        0 <= i < constraint.len() ==> pair_admits(constraint[i], modulo[i] as int, now)
}

/// Whether a process with the given period and phase offset is due at `now`:
/// due ticks are those where `(now - period_delta) mod period == 0`. A zero
/// period is a definition error; such a process is never due.
pub open spec fn spec_due(period: int, period_delta: int, now: int) -> bool {
    period > 0 && (now - period_delta) % period == 0
}

/// Decides whether a process with the given period and phase offset is due
/// at the time `now`.
pub fn time_period_check(period: u64, period_delta: u64, now: u64) -> (r: bool)
    ensures
        r == spec_due(period as int, period_delta as int, now as int),
{
    if period == 0 {
        return false;
    }
    if now >= period_delta {
        (now - period_delta) % period == 0
    } else {
        let r = (period_delta - now) % period == 0;
        proof {
            lemma_mod_zero_symmetric((period_delta - now) as int, period as int);
        }
        r
    }
}

/// An integer and its negation leave the same zero-or-nonzero remainder
/// by a positive divisor.
proof fn lemma_mod_zero_symmetric(a: int, p: int)
    requires
        p > 0,
    ensures
        (a % p == 0) == ((-a) % p == 0),
{
    if a % p == 0 {
        vstd::arithmetic::div_mod::lemma_fundamental_div_mod(a, p);
        let q = a / p;
        assert(-a == (-q) * p) by (nonlinear_arith)
            requires
                a == p * q,
        ;
        vstd::arithmetic::div_mod::lemma_mod_multiples_basic(-q, p);
    }
    if (-a) % p == 0 {
        vstd::arithmetic::div_mod::lemma_fundamental_div_mod(-a, p);
        let q = (-a) / p;
        assert(a == (-q) * p) by (nonlinear_arith)
            requires
                -a == p * q,
        ;
        vstd::arithmetic::div_mod::lemma_mod_multiples_basic(-q, p);
    }
}

/// Decides whether every time-window constraint admits the time `now`.
/// `constraint[i]` is the list of ranges reduced modulo `constraint_modulo[i]`.
pub fn constraint_check(
    constraint: &Vec<Vec<TimeRange>>,
    constraint_modulo: &Vec<u64>,
    now: u64,
) -> (r: bool)
    requires
        constraint@.len() == constraint_modulo@.len(),
    ensures
        r == admits_all(
            constraint@.map_values(|v: Vec<TimeRange>| v@),
            constraint_modulo@,
            now as int,
        ),
{
    let ghost cs = constraint@.map_values(|v: Vec<TimeRange>| v@);
    let mut i: usize = 0;
    while i < constraint.len()
        invariant
            0 <= i <= constraint@.len(),
            constraint@.len() == constraint_modulo@.len(),
            cs == constraint@.map_values(|v: Vec<TimeRange>| v@),
            forall|j: int| 0 <= j < i ==> pair_admits(cs[j], constraint_modulo@[j] as int, now as int),
        decreases constraint@.len() - i,
    {
        let modulo = constraint_modulo[i];
        if modulo == 0 {
            assert(!pair_admits(cs[i as int], modulo as int, now as int));
            return false;
        }
        let t = now % modulo;
        let ranges = &constraint[i];
        let mut k: usize = 0;
        let mut feasible = false;
        while k < ranges.len()
            invariant
                0 <= k <= ranges@.len(),
                feasible ==> ranges_admit(ranges@, t as int),
                !feasible ==> forall|m: int| 0 <= m < k ==> !range_admits(ranges@[m], t as int),
            decreases ranges@.len() - k,
        {
            let r = ranges[k];
            if (r.start <= r.end && t >= r.start && t <= r.end)
                || (r.start > r.end && (t >= r.start || t <= r.end)) {
                feasible = true;
                assert(range_admits(ranges@[k as int], t as int));
            }
            k += 1;
        }
        if !feasible {
            assert(!pair_admits(cs[i as int], modulo as int, now as int));
            return false;
        }
        assert(cs[i as int] == ranges@);
        assert(pair_admits(cs[i as int], modulo as int, now as int));
        i += 1;
    }
    true
}

/// The wraparound law: a range whose start lies after its end admits exactly
/// the times at or after the start together with the times at or before the
/// end, and rejects everything strictly between end and start.
pub proof fn lemma_range_wraparound(r: TimeRange, t: int)
    requires
        r.start > r.end,
    ensures
        range_admits(r, t) == (t >= r.start || t <= r.end),
        (r.end < t < r.start) ==> !range_admits(r, t),
{
}

} // verus!
