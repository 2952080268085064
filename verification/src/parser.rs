//! The definition-file parser: an indentation-structured text format in
//! which each named block declares a resource (`unit`, `max`, `amount`,
//! `life`) or a process (`use`, `produce`, `catalyze`, `period`,
//! `period_delta`, `constraint`, `on_use`). Fractional quantities are read
//! as fixed-point thousandths. A malformed value surfaces as an error to
//! the driver before the engine is built; unknown keywords are skipped.

use vstd::prelude::*;
use crate::constraint::TimeRange;
use crate::process::Process;
use crate::resource::{AMOUNT_CAP, Resource, TIME_CAP};

verus! {

/// Why a definition text was rejected.
#[derive(Clone, Copy, PartialEq, Eq, Structural, Debug)]
pub enum ParseError {
    /// A numeric field does not consist of digits (with at most one point),
    /// or does not fit the representable band.
    BadNumber,
    /// A time value names no known unit, or overflows.
    BadTime,
    /// A constraint line names no known time scale or holds a malformed or
    /// oversized range.
    BadConstraint,
    /// A line is missing a required value token.
    MissingValue,
}

/// An ASCII decimal digit.
pub open spec fn spec_digit(b: u8) -> bool {
    0x30 <= b <= 0x39
}

/// A non-empty run of digits.
pub open spec fn all_digits(s: Seq<u8>) -> bool {
    s.len() > 0 && forall|i: int| 0 <= i < s.len() ==> spec_digit(#[trigger] s[i])
}

/// The number a run of digits denotes.
pub open spec fn spec_num_value(s: Seq<u8>) -> int
    decreases s.len(),
{
    if s.len() == 0 {
        0
    } else {
        spec_num_value(s.drop_last()) * 10 + (s.last() - 0x30)
    }
}

/// Bytes the format treats as blank space inside a line.
pub open spec fn spec_is_ws(b: u8) -> bool {
    b == 32 || b == 9 || b == 13
}

/// How many seconds one unit letter stands for; zero for an unknown unit.
pub open spec fn unit_multiplier(p: Seq<u8>) -> int {
    if p.len() == 1 {
        if p[0] == 115 {  // s
            1
        } else if p[0] == 109 {  // m
            60
        } else if p[0] == 104 {  // h
            3600
        } else if p[0] == 100 {  // d
            86400
        } else if p[0] == 119 {  // w
            604800
        } else if p[0] == 121 {  // y
            31557600
        } else {
            0
        }
    } else {
        0
    }
}

/// Whether two byte strings hold the same bytes.
pub fn bytes_equal(a: &Vec<u8>, b: &Vec<u8>) -> (r: bool)
    ensures
        r == (a@ == b@),
{
    if a.len() != b.len() {
        return false;
    }
    let mut i: usize = 0;
    while i < a.len()
        invariant
            0 <= i <= a@.len(),
            a@.len() == b@.len(),
            forall|k: int| 0 <= k < i ==> a@[k] == b@[k],
        decreases a@.len() - i,
    {
        if a[i] != b[i] {
            return false;
        }
        i += 1;
    }
    proof {
        assert(a@ =~= b@);
    }
    true
}

/// Parses a run of decimal digits into an integer, refusing anything that
/// is not all digits or does not fit the representable band.
pub fn parse_u64(s: &Vec<u8>) -> (r: Option<u64>)
    ensures
        match r {
            Some(v) => all_digits(s@) && v == spec_num_value(s@) && v <= AMOUNT_CAP,
            None => !all_digits(s@) || spec_num_value(s@) > AMOUNT_CAP,
        },
{
    if s.len() == 0 {
        return None;
    }
    let mut value: u64 = 0;
    let mut i: usize = 0;
    while i < s.len()
        invariant
            0 <= i <= s@.len(),
            s@.len() > 0,
            forall|k: int| 0 <= k < i ==> spec_digit(#[trigger] s@[k]),
            value == spec_num_value(s@.take(i as int)),
            value <= AMOUNT_CAP,
        decreases s@.len() - i,
    {
        let b = s[i];
        if b < 0x30 || b > 0x39 {
            return None;
        }
        let d = (b - 0x30) as u64;
        if value > (AMOUNT_CAP as u64 - d) / 10 {
            proof {
                let pre = s@.take(i + 1);
                assert(pre.drop_last() =~= s@.take(i as int));
                assert(spec_num_value(pre) == value * 10 + d);
                if forall|k: int| 0 <= k < s@.len() ==> spec_digit(#[trigger] s@[k]) {
                    lemma_num_value_monotonic(pre, s@);
                    assert(value * 10 + d > AMOUNT_CAP);
                }
            }
            return None;
        }
        value = value * 10 + d;
        proof {
            let pre = s@.take(i + 1);
            assert(pre.drop_last() =~= s@.take(i as int));
            assert(value == spec_num_value(pre));
        }
        i += 1;
    }
    proof {
        assert(s@.take(s@.len() as int) =~= s@);
    }
    Some(value)
}

/// A run of at most three digits denotes at most 999.
proof fn lemma_small_num_value(s: Seq<u8>)
    requires
        forall|i: int| 0 <= i < s.len() ==> spec_digit(#[trigger] s[i]),
        s.len() <= 3,
    ensures
        0 <= spec_num_value(s) <= 999,
        s.len() <= 2 ==> spec_num_value(s) <= 99,
        s.len() <= 1 ==> spec_num_value(s) <= 9,
    decreases s.len(),
{
    if s.len() > 0 {
        lemma_small_num_value(s.drop_last());
    }
}

/// A digit run's value only grows as more digits follow.
proof fn lemma_num_value_monotonic(prefix: Seq<u8>, s: Seq<u8>)
    requires
        prefix.len() <= s.len(),
        forall|i: int| 0 <= i < s.len() ==> spec_digit(#[trigger] s[i]),
        forall|i: int| 0 <= i < prefix.len() ==> prefix[i] == s[i],
    ensures
        spec_num_value(s) >= spec_num_value(prefix),
        spec_num_value(s) >= 0,
    decreases s.len(),
{
    if s.len() == 0 {
    } else if prefix.len() == s.len() {
        assert(prefix =~= s);
        lemma_num_value_nonneg(s);
    } else {
        lemma_num_value_monotonic(prefix, s.drop_last());
        lemma_num_value_nonneg(s.drop_last());
        assert(spec_num_value(s) == spec_num_value(s.drop_last()) * 10 + (s.last() - 0x30));
        assert(spec_num_value(s.drop_last()) * 10 >= spec_num_value(s.drop_last()))
            by (nonlinear_arith)
            requires
                spec_num_value(s.drop_last()) >= 0,
        ;
    }
}

/// A digit run's value is never negative.
proof fn lemma_num_value_nonneg(s: Seq<u8>)
    requires
        forall|i: int| 0 <= i < s.len() ==> spec_digit(#[trigger] s[i]),
    ensures
        spec_num_value(s) >= 0,
    decreases s.len(),
{
    if s.len() > 0 {
        lemma_num_value_nonneg(s.drop_last());
        assert(spec_num_value(s.drop_last()) * 10 >= 0) by (nonlinear_arith)
            requires
                spec_num_value(s.drop_last()) >= 0,
        ;
    }
}

/// The fixed-point value (in thousandths) of an integer part and up to
/// three fraction digits; fraction digits beyond the third are dropped.
pub open spec fn spec_fixed_value(int_part: Seq<u8>, frac: Seq<u8>) -> int {
    let f3 = if frac.len() >= 3 {
        frac.take(3)
    } else {
        frac
    };
    let scale = if f3.len() == 0 {
        1000
    } else if f3.len() == 1 {
        100
    } else if f3.len() == 2 {
        10
    } else {
        1int
    };
    spec_num_value(int_part) * 1000 + spec_num_value(f3) * scale
}

/// Parses a decimal number with an optional fraction (`12`, `0.6`) into
/// fixed-point thousandths, refusing anything malformed or out of band.
pub fn parse_fixed(s: &Vec<u8>) -> (r: Option<i64>)
    ensures
        r is Some ==> 0 <= r.unwrap() <= AMOUNT_CAP,
        r is Some && (forall|i: int| 0 <= i < s@.len() ==> s@[i] != 46) ==> all_digits(s@)
            && r.unwrap() == spec_num_value(s@) * 1000,
        r is Some && (exists|i: int| 0 <= i < s@.len() && s@[i] == 46) ==> exists|d: int|
            {
                &&& 0 <= d < s@.len()
                &&& s@[d] == 46
                &&& r.unwrap() == #[trigger] spec_fixed_value(
                    s@.subrange(0, d),
                    s@.subrange(d + 1, s@.len() as int),
                )
            },
{
    let mut dot: usize = s.len();
    let mut i: usize = 0;
    while i < s.len()
        invariant
            0 <= i <= s@.len(),
            dot == s@.len() || (0 <= dot < i && s@[dot as int] == 46),
            dot == s@.len() ==> forall|m: int| 0 <= m < i ==> s@[m] != 46,
        decreases s@.len() - i,
    {
        if s[i] == 46 {
            if dot != s.len() {
                return None;
            }
            dot = i;
        }
        i += 1;
    }
    if dot == s.len() {
        match parse_u64(s) {
            Some(v) => {
                if v > (AMOUNT_CAP as u64) / 1000 {
                    return None;
                }
                Some((v * 1000) as i64)
            },
            None => None,
        }
    } else {
        let mut int_part: Vec<u8> = Vec::new();
        let mut k: usize = 0;
        while k < dot
            invariant
                0 <= k <= dot,
                dot < s@.len(),
                int_part@ == s@.subrange(0, k as int),
            decreases dot - k,
        {
            int_part.push(s[k]);
            proof {
                assert(int_part@ =~= s@.subrange(0, k + 1));
            }
            k += 1;
        }
        let mut frac: Vec<u8> = Vec::new();
        let mut k: usize = dot + 1;
        while k < s.len() && frac.len() < 3
            invariant
                dot + 1 <= k <= s@.len(),
                frac@.len() <= 3,
                frac@.len() == if k > dot + 4 { 3int } else { k - dot - 1 },
                forall|m: int| 0 <= m < frac@.len() ==> frac@[m] == s@[dot + 1 + m],
            decreases s@.len() - k,
        {
            frac.push(s[k]);
            k += 1;
        }
        let whole = match parse_u64(&int_part) {
            Some(v) => v,
            None => {
                return None;
            },
        };
        let fv = if frac.len() == 0 {
            0u64
        } else {
            match parse_u64(&frac) {
                Some(v) => v,
                None => {
                    return None;
                },
            }
        };
        let scale: u64 = if frac.len() == 0 {
            1000
        } else if frac.len() == 1 {
            100
        } else if frac.len() == 2 {
            10
        } else {
            1
        };
        if whole > (AMOUNT_CAP as u64 - 999) / 1000 {
            return None;
        }
        proof {
            if frac@.len() > 0 {
                lemma_small_num_value(frac@);
            }
            assert(fv * scale <= 999) by (nonlinear_arith)
                requires
                    frac@.len() == 0 ==> fv == 0,
                    fv >= 0,
                    scale >= 1,
                    frac@.len() == 1 ==> fv <= 9 && scale == 100,
                    frac@.len() == 2 ==> fv <= 99 && scale == 10,
                    frac@.len() >= 3 ==> fv <= 999 && scale == 1,
                    frac@.len() == 0 ==> scale == 1000,
            ;
        }
        proof {
            let dd = dot as int;
            let sl = s@.len() as int;
            let full_frac = s@.subrange(dd + 1, sl);
            assert(int_part@ == s@.subrange(0, dd));
            assert(frac@ =~= if full_frac.len() >= 3 {
                full_frac.take(3)
            } else {
                full_frac
            });
            assert(spec_fixed_value(s@.subrange(0, dd), full_frac) == whole * 1000 + fv * scale);
        }
        Some((whole * 1000 + fv * scale) as i64)
    }
}

/// Converts a count and a unit letter (`s`, `m`, `h`, `d`, `w`, `y`) to
/// seconds.
pub fn parse_time_string(num: &Vec<u8>, period: &Vec<u8>) -> (r: Option<u64>)
    ensures
        match r {
            Some(v) => {
                &&& all_digits(num@)
                &&& unit_multiplier(period@) >= 1
                &&& v == spec_num_value(num@) * unit_multiplier(period@)
                &&& v <= TIME_CAP
            },
            None => !all_digits(num@) || unit_multiplier(period@) == 0 || spec_num_value(num@)
                > AMOUNT_CAP || spec_num_value(num@) * unit_multiplier(period@) > TIME_CAP,
        },
{
    let n = match parse_u64(num) {
        Some(v) => v,
        None => {
            return None;
        },
    };
    let mult: u64 = if period.len() == 1 {
        let b = period[0];
        if b == 115 {
            1
        } else if b == 109 {
            60
        } else if b == 104 {
            3600
        } else if b == 100 {
            86400
        } else if b == 119 {
            604800
        } else if b == 121 {
            31557600
        } else {
            return None;
        }
    } else {
        return None;
    };
    proof {
        assert(mult == unit_multiplier(period@));
        assert(n * mult <= AMOUNT_CAP * 31557600) by (nonlinear_arith)
            requires
                0 <= n <= AMOUNT_CAP,
                1 <= mult <= 31557600,
        ;
    }
    let wide: u128 = (n as u128) * (mult as u128);
    if wide > TIME_CAP as u128 {
        return None;
    }
    Some(wide as u64)
}

/// Splits a line into its blank-separated tokens: each token is non-empty
/// and free of blank bytes.
pub fn split_ws(line: &Vec<u8>) -> (tokens: Vec<Vec<u8>>)
    ensures
        forall|t: int|
            0 <= t < tokens@.len() ==> (#[trigger] tokens@[t])@.len() > 0 && forall|i: int|
                0 <= i < tokens@[t]@.len() ==> !spec_is_ws(#[trigger] tokens@[t]@[i]),
{
    let mut tokens: Vec<Vec<u8>> = Vec::new();
    let mut cur: Vec<u8> = Vec::new();
    let mut i: usize = 0;
    while i < line.len()
        invariant
            0 <= i <= line@.len(),
            forall|m: int| 0 <= m < cur@.len() ==> !spec_is_ws(#[trigger] cur@[m]),
            forall|t: int|
                0 <= t < tokens@.len() ==> (#[trigger] tokens@[t])@.len() > 0 && forall|m: int|
                    0 <= m < tokens@[t]@.len() ==> !spec_is_ws(#[trigger] tokens@[t]@[m]),
        decreases line@.len() - i,
    {
        let b = line[i];
        if b == 32 || b == 9 || b == 13 {
            if cur.len() > 0 {
                tokens.push(cur);
                cur = Vec::new();
            }
        } else {
            cur.push(b);
        }
        i += 1;
    }
    if cur.len() > 0 {
        tokens.push(cur);
    }
    tokens
}

/// The number of leading space bytes — the format's block depth.
pub fn indentation(line: &Vec<u8>) -> (r: usize)
    ensures
        r <= line@.len(),
{
    let mut i: usize = 0;
    while i < line.len()
        invariant
            0 <= i <= line@.len(),
        decreases line@.len() - i,
    {
        if line[i] != 32 {
            return i;
        }
        i += 1;
    }
    i
}

/// The line's content with leading and trailing blank bytes removed.
pub fn trim_bytes(line: &Vec<u8>) -> (r: Vec<u8>)
    ensures
        r@.len() <= line@.len(),
        exists|a: int, b: int| 0 <= a <= b <= line@.len() && r@ == #[trigger] line@.subrange(a, b),
{
    let mut start: usize = 0;
    while start < line.len()
        invariant
            0 <= start <= line@.len(),
        decreases line@.len() - start,
    {
        let b = line[start];
        if !(b == 32 || b == 9 || b == 13) {
            break;
        }
        start += 1;
    }
    let mut end: usize = line.len();
    while end > start
        invariant
            start <= end <= line@.len(),
        decreases end,
    {
        let b = line[end - 1];
        if !(b == 32 || b == 9 || b == 13) {
            break;
        }
        end -= 1;
    }
    let mut r: Vec<u8> = Vec::new();
    let mut i: usize = start;
    while i < end
        invariant
            start <= i <= end <= line@.len(),
            r@.len() == i - start,
            forall|m: int| 0 <= m < r@.len() ==> r@[m] == line@[start + m],
        decreases end - i,
    {
        r.push(line[i]);
        i += 1;
    }
    proof {
        assert(r@ =~= line@.subrange(start as int, end as int));
    }
    r
}

/// Copies a range of a byte string.
fn sub_bytes(v: &Vec<u8>, from: usize, to: usize) -> (r: Vec<u8>)
    requires
        from <= to <= v@.len(),
    ensures
        r@ == v@.subrange(from as int, to as int),
{
    let mut r: Vec<u8> = Vec::new();
    let mut i: usize = from;
    while i < to
        invariant
            from <= i <= to <= v@.len(),
            r@.len() == i - from,
            forall|m: int| 0 <= m < r@.len() ==> r@[m] == v@[from + m],
        decreases to - i,
    {
        r.push(v[i]);
        i += 1;
    }
    proof {
        assert(r@ =~= v@.subrange(from as int, to as int));
    }
    r
}

/// Builds one admission range on a time scale. A closed range `a-b` of
/// scale units covers the second offsets from `(a + delta) * mult` through
/// `(b + 1 + delta) * mult - 1`, each reduced modulo the scale's cycle; a
/// single value covers exactly that unit. `delta` shifts week-scale values
/// so that day zero of the cycle lands on the right weekday.
pub fn constraint_range(a: u64, b: u64, mult: u64, delta: u64, modulo: u64) -> (r: TimeRange)
    requires
        1 <= modulo,
        1 <= mult <= 86400,
        delta <= 4,
        a <= 10_000_000,
        b <= 10_000_000,
    ensures
        r.start == ((a + delta) * mult) % (modulo as int),
        r.end == ((b + 1 + delta) * mult - 1) % (modulo as int),
{
    proof {
        assert((a + delta) * mult <= 10_000_004 * 86400) by (nonlinear_arith)
            requires
                0 <= a + delta <= 10_000_004,
                0 <= mult <= 86400,
        ;
        assert(1 * 1 <= (b + 1 + delta) * mult <= 10_000_005 * 86400) by (nonlinear_arith)
            requires
                1 <= b + 1 + delta <= 10_000_005,
                1 <= mult <= 86400,
        ;
    }
    let start = ((a + delta) * mult) % modulo;
    let end = ((b + 1 + delta) * mult - 1) % modulo;
    TimeRange { start, end }
}

/// Parses the block of a `constraint` keyword: each line names a time
/// scale (`s`, `m`, `h`, `w`) and one or more unit ranges (`3`, `9-17`)
/// that must admit the current time on that scale.
pub fn parse_constraint(lines: &Vec<Vec<u8>>, pos: &mut usize, start_indentation: usize) -> (r:
    Result<(Vec<Vec<TimeRange>>, Vec<u64>), ParseError>)
    requires
        *old(pos) <= lines@.len(),
    ensures
        *old(pos) <= *final(pos) <= lines@.len(),
        r matches Ok(c) ==> c.0@.len() == c.1@.len() && forall|i: int|
            0 <= i < c.1@.len() ==> (#[trigger] c.1@[i]) >= 1,
{
    let mut constraint: Vec<Vec<TimeRange>> = Vec::new();
    let mut constraint_modulo: Vec<u64> = Vec::new();
    let mut p = *pos;
    while p < lines.len()
        invariant
            *old(pos) <= p <= lines@.len(),
            constraint@.len() == constraint_modulo@.len(),
            forall|i: int| 0 <= i < constraint_modulo@.len() ==> (#[trigger] constraint_modulo@[i]) >= 1,
        decreases lines@.len() - p,
    {
        let line = &lines[p];
        let tokens = split_ws(line);
        if tokens.len() == 0 {
            p += 1;
            continue;
        }
        if tokens[0][0] == 35 {
            p += 1;
            continue;
        }
        let ind = indentation(line);
        if ind <= start_indentation {
            break;
        }
        p += 1;
        let t0 = &tokens[0];
        let modulo: u64;
        let mult: u64;
        let delta: u64;
        if t0.len() == 1 && t0[0] == 115 {
            modulo = 60;
            mult = 1;
            delta = 0;
        } else if t0.len() == 1 && t0[0] == 109 {
            modulo = 3600;
            mult = 60;
            delta = 0;
        } else if t0.len() == 1 && t0[0] == 104 {
            modulo = 86400;
            mult = 3600;
            delta = 0;
        } else if t0.len() == 1 && t0[0] == 119 {
            modulo = 604800;
            mult = 86400;
            delta = 4;
        } else {
            *pos = p;
            return Err(ParseError::BadConstraint);
        }
        let mut ranges: Vec<TimeRange> = Vec::new();
        let mut ti: usize = 1;
        while ti < tokens.len()
            invariant
                1 <= ti <= tokens@.len(),
                1 <= modulo,
                1 <= mult <= 86400,
                delta <= 4,
                *old(pos) <= p <= lines@.len(),
            decreases tokens@.len() - ti,
        {
            let token = &tokens[ti];
            let mut dash: usize = token.len();
            let mut bi: usize = 0;
            while bi < token.len()
                invariant
                    0 <= bi <= token@.len(),
                    dash == token@.len() || dash < bi,
                decreases token@.len() - bi,
            {
                if token[bi] == 45 && dash == token.len() {
                    dash = bi;
                }
                bi += 1;
            }
            let a: u64;
            let b: u64;
            if dash == token.len() {
                a = match parse_u64(token) {
                    Some(v) => v,
                    None => {
                        *pos = p;
                        return Err(ParseError::BadConstraint);
                    },
                };
                b = a;
            } else {
                let left = sub_bytes(token, 0, dash);
                let right = sub_bytes(token, dash + 1, token.len());
                a = match parse_u64(&left) {
                    Some(v) => v,
                    None => {
                        *pos = p;
                        return Err(ParseError::BadConstraint);
                    },
                };
                b = match parse_u64(&right) {
                    Some(v) => v,
                    None => {
                        *pos = p;
                        return Err(ParseError::BadConstraint);
                    },
                };
            }
            if a > 10_000_000 || b > 10_000_000 {
                *pos = p;
                return Err(ParseError::BadConstraint);
            }
            let rg = constraint_range(a, b, mult, delta, modulo);
            ranges.push(rg);
            ti += 1;
        }
        constraint.push(ranges);
        constraint_modulo.push(modulo);
    }
    *pos = p;
    Ok((constraint, constraint_modulo))
}

/// Parses the block of a `use`, `produce` or `catalyze` keyword: one
/// `name quantity` line per entry, later lines replacing earlier ones of
/// the same name, as map keys do.
pub fn parse_resource_list(lines: &Vec<Vec<u8>>, pos: &mut usize, start_indentation: usize) -> (r:
    Result<Vec<(Vec<u8>, i64)>, ParseError>)
    requires
        *old(pos) <= lines@.len(),
    ensures
        *old(pos) <= *final(pos) <= lines@.len(),
        r matches Ok(l) ==> crate::process::def_list_wf(l@) && crate::process::def_names_distinct(
            l@,
        ),
{
    let mut list: Vec<(Vec<u8>, i64)> = Vec::new();
    let mut p = *pos;
    while p < lines.len()
        invariant
            *old(pos) <= p <= lines@.len(),
            crate::process::def_list_wf(list@),
            crate::process::def_names_distinct(list@),
        decreases lines@.len() - p,
    {
        let line = &lines[p];
        let tokens = split_ws(line);
        if tokens.len() == 0 {
            p += 1;
            continue;
        }
        if tokens[0][0] == 35 {
            p += 1;
            continue;
        }
        let ind = indentation(line);
        if ind <= start_indentation {
            break;
        }
        p += 1;
        if tokens.len() == 2 {
            let qty = match parse_fixed(&tokens[1]) {
                Some(v) => v,
                None => {
                    *pos = p;
                    return Err(ParseError::BadNumber);
                },
            };
            let nm = crate::resource::copy_bytes(&tokens[0]);
            let ghost pre = list@;
            let mut found: usize = list.len();
            let mut si: usize = 0;
            while si < list.len()
                invariant
                    0 <= si <= list@.len(),
                    list@ == pre,
                    found <= list@.len(),
                    found == list@.len() ==> forall|m: int|
                        0 <= m < si ==> (#[trigger] pre[m]).0@ != nm@,
                    found < list@.len() ==> found < si && pre[found as int].0@ == nm@,
                decreases list@.len() - si,
            {
                if found == list.len() && bytes_equal(&list[si].0, &nm) {
                    found = si;
                }
                si += 1;
            }
            if found < list.len() {
                list[found] = (nm, qty);
                proof {
                    assert(pre[found as int].0@ == nm@);
                    assert forall|i: int, j: int|
                        0 <= i < j < list@.len() implies (#[trigger] list@[i]).0@ != (
                    #[trigger] list@[j]).0@ by {
                        if i != found {
                            assert(list@[i] == pre[i]);
                        }
                        if j != found {
                            assert(list@[j] == pre[j]);
                        }
                    }
                    assert forall|m: int| 0 <= m < list@.len() implies 0 <= (
                    #[trigger] list@[m]).1 <= AMOUNT_CAP by {
                        if m != found {
                            assert(list@[m] == pre[m]);
                        }
                    }
                }
            } else {
                list.push((nm, qty));
                proof {
                    assert forall|i: int, j: int|
                        0 <= i < j < list@.len() implies (#[trigger] list@[i]).0@ != (
                    #[trigger] list@[j]).0@ by {
                        if j == pre.len() {
                            assert(list@[i] == pre[i]);
                            assert(pre[i].0@ != nm@);
                        } else {
                            assert(list@[i] == pre[i]);
                            assert(list@[j] == pre[j]);
                        }
                    }
                    assert forall|m: int| 0 <= m < list@.len() implies 0 <= (
                    #[trigger] list@[m]).1 <= AMOUNT_CAP by {
                        if m < pre.len() {
                            assert(list@[m] == pre[m]);
                        }
                    }
                }
            }
        }
    }
    *pos = p;
    Ok(list)
}

/// Parses the body of a `resource` block into a resource definition; the
/// caller supplies the name from the heading line.
pub fn parse_resource(lines: &Vec<Vec<u8>>, pos: &mut usize, start_indentation: usize) -> (r:
    Result<Resource, ParseError>)
    requires
        *old(pos) <= lines@.len(),
    ensures
        *old(pos) <= *final(pos) <= lines@.len(),
        r matches Ok(res) ==> res.wf() && res@.queue.len() == 0 && res@.stat_sum == 0,
{
    let mut resource = Resource::default();
    let mut p = *pos;
    while p < lines.len()
        invariant
            *old(pos) <= p <= lines@.len(),
            resource.wf(),
            resource@.queue.len() == 0,
            resource@.stat_sum == 0,
        decreases lines@.len() - p,
    {
        let line = &lines[p];
        let tokens = split_ws(line);
        if tokens.len() == 0 {
            p += 1;
            continue;
        }
        if tokens[0][0] == 35 {
            p += 1;
            continue;
        }
        let ind = indentation(line);
        if ind <= start_indentation {
            break;
        }
        p += 1;
        let ghost pre = resource@;
        let kw_unit: Vec<u8> = vec![117, 110, 105, 116];
        let kw_max: Vec<u8> = vec![109, 97, 120];
        let kw_life: Vec<u8> = vec![108, 105, 102, 101];
        let kw_amount: Vec<u8> = vec![97, 109, 111, 117, 110, 116];
        if bytes_equal(&tokens[0], &kw_unit) {
            if tokens.len() < 2 {
                *pos = p;
                return Err(ParseError::MissingValue);
            }
            resource.unit = crate::resource::copy_bytes(&tokens[1]);
        } else if bytes_equal(&tokens[0], &kw_max) {
            if tokens.len() < 2 {
                *pos = p;
                return Err(ParseError::MissingValue);
            }
            resource.max = match parse_fixed(&tokens[1]) {
                Some(v) => v,
                None => {
                    *pos = p;
                    return Err(ParseError::BadNumber);
                },
            };
        } else if bytes_equal(&tokens[0], &kw_life) {
            if tokens.len() < 3 {
                *pos = p;
                return Err(ParseError::MissingValue);
            }
            resource.life = match parse_time_string(&tokens[1], &tokens[2]) {
                Some(v) => v,
                None => {
                    *pos = p;
                    return Err(ParseError::BadTime);
                },
            };
        } else if bytes_equal(&tokens[0], &kw_amount) {
            if tokens.len() < 2 {
                *pos = p;
                return Err(ParseError::MissingValue);
            }
            resource.amount = match parse_fixed(&tokens[1]) {
                Some(v) => v,
                None => {
                    *pos = p;
                    return Err(ParseError::BadNumber);
                },
            };
        }
        proof {
            assert(resource@.queue =~= pre.queue);
        }
    }
    *pos = p;
    Ok(resource)
}

/// Parses the body of a `process` block into a process definition; the
/// caller supplies the name from the heading line. A definition with a
/// positive `on_use` budget is an on-use pool.
pub fn parse_process(lines: &Vec<Vec<u8>>, pos: &mut usize, start_indentation: usize) -> (r:
    Result<Process, ParseError>)
    requires
        *old(pos) <= lines@.len(),
    ensures
        *old(pos) <= *final(pos) <= lines@.len(),
        r matches Ok(proc) ==> proc.wf(),
{
    let mut process = Process::default();
    let mut p = *pos;
    while p < lines.len()
        invariant
            *old(pos) <= p <= lines@.len(),
            process.wf(),
        decreases lines@.len() - p,
    {
        let line = &lines[p];
        let tokens = split_ws(line);
        if tokens.len() == 0 {
            p += 1;
            continue;
        }
        if tokens[0][0] == 35 {
            p += 1;
            continue;
        }
        let ind = indentation(line);
        if ind <= start_indentation {
            break;
        }
        p += 1;
        let kw_produce: Vec<u8> = vec![112, 114, 111, 100, 117, 99, 101];
        let kw_use: Vec<u8> = vec![117, 115, 101];
        let kw_catalyze: Vec<u8> = vec![99, 97, 116, 97, 108, 121, 122, 101];
        let kw_period: Vec<u8> = vec![112, 101, 114, 105, 111, 100];
        let kw_period_delta: Vec<u8> = vec![
            112, 101, 114, 105, 111, 100, 95, 100, 101, 108, 116, 97,
        ];
        let kw_constraint: Vec<u8> = vec![99, 111, 110, 115, 116, 114, 97, 105, 110, 116];
        let kw_on_use: Vec<u8> = vec![111, 110, 95, 117, 115, 101];
        if bytes_equal(&tokens[0], &kw_produce) {
            process.output = match parse_resource_list(lines, &mut p, ind) {
                Ok(l) => l,
                Err(e) => {
                    *pos = p;
                    return Err(e);
                },
            };
        } else if bytes_equal(&tokens[0], &kw_use) {
            process.input = match parse_resource_list(lines, &mut p, ind) {
                Ok(l) => l,
                Err(e) => {
                    *pos = p;
                    return Err(e);
                },
            };
        } else if bytes_equal(&tokens[0], &kw_catalyze) {
            process.catalyst = match parse_resource_list(lines, &mut p, ind) {
                Ok(l) => l,
                Err(e) => {
                    *pos = p;
                    return Err(e);
                },
            };
        } else if bytes_equal(&tokens[0], &kw_period) {
            if tokens.len() < 3 {
                *pos = p;
                return Err(ParseError::MissingValue);
            }
            process.period = match parse_time_string(&tokens[1], &tokens[2]) {
                Some(v) => v,
                None => {
                    *pos = p;
                    return Err(ParseError::BadTime);
                },
            };
        } else if bytes_equal(&tokens[0], &kw_period_delta) {
            if tokens.len() < 3 {
                *pos = p;
                return Err(ParseError::MissingValue);
            }
            let mut d = match parse_time_string(&tokens[1], &tokens[2]) {
                Some(v) => v,
                None => {
                    *pos = p;
                    return Err(ParseError::BadTime);
                },
            };
            if process.period == 604800 {
                d = (d + 4 * 86400) % 604800;
            }
            process.period_delta = d;
        } else if bytes_equal(&tokens[0], &kw_constraint) {
            let (c, m) = match parse_constraint(lines, &mut p, ind) {
                Ok(cm) => cm,
                Err(e) => {
                    *pos = p;
                    return Err(e);
                },
            };
            process.constraint = c;
            process.constraint_modulo = m;
        } else if bytes_equal(&tokens[0], &kw_on_use) {
            if tokens.len() < 2 {
                *pos = p;
                return Err(ParseError::MissingValue);
            }
            process.on_use = match parse_fixed(&tokens[1]) {
                Some(v) => v,
                None => {
                    *pos = p;
                    return Err(ParseError::BadNumber);
                },
            };
        }
    }
    *pos = p;
    Ok(process)
}

/// Whether a byte string ends with the given suffix.
fn ends_with(t: &Vec<u8>, suffix: &Vec<u8>) -> (r: bool)
    ensures
        r == (t@.len() >= suffix@.len() && t@.skip(t@.len() - suffix@.len()) == suffix@),
{
    if t.len() < suffix.len() {
        return false;
    }
    let off = t.len() - suffix.len();
    let mut j: usize = off;
    while j < t.len()
        invariant
            off <= j <= t@.len(),
            off == t@.len() - suffix@.len(),
            t@.len() >= suffix@.len(),
            forall|m: int| 0 <= m < j - off ==> t@[off + m] == suffix@[m],
        decreases t@.len() - j,
    {
        if t[j] != suffix[j - off] {
            proof {
                assert(t@.skip(t@.len() - suffix@.len())[j - off] == t@[j as int]);
            }
            return false;
        }
        j += 1;
    }
    proof {
        assert(t@.skip(t@.len() - suffix@.len()) =~= suffix@);
    }
    true
}

/// Inserts a named resource definition: a later definition of the same
/// name replaces the earlier one in place, as reinsertion into an ordered
/// map does.
fn upsert_resource(list: &mut Vec<Resource>, res: Resource)
    requires
        forall|i: int|
            0 <= i < old(list)@.len() ==> (#[trigger] old(list)@[i]).wf() && old(list)@[i]@.queue.len()
                == 0 && old(list)@[i]@.stat_sum == 0,
        crate::names::names_distinct(crate::simulation::res_names_of(old(list)@)),
        res.wf(),
        res@.queue.len() == 0,
        res@.stat_sum == 0,
    ensures
        forall|i: int|
            0 <= i < final(list)@.len() ==> (#[trigger] final(list)@[i]).wf()
                && final(list)@[i]@.queue.len() == 0 && final(list)@[i]@.stat_sum == 0,
        crate::names::names_distinct(crate::simulation::res_names_of(final(list)@)),
{
    let ghost pre = list@;
    let mut found: usize = list.len();
    let mut si: usize = 0;
    while si < list.len()
        invariant
            0 <= si <= list@.len(),
            list@ == pre,
            found <= list@.len(),
            found == list@.len() ==> forall|m: int|
                0 <= m < si ==> (#[trigger] pre[m]).name@ != res.name@,
            found < list@.len() ==> found < si && pre[found as int].name@ == res.name@,
        decreases list@.len() - si,
    {
        if found == list.len() && bytes_equal(&list[si].name, &res.name) {
            found = si;
        }
        si += 1;
    }
    if found < list.len() {
        list[found] = res;
        proof {
            assert forall|i: int, j: int|
                0 <= i < j < list@.len() implies crate::simulation::res_names_of(list@)[i]
                != crate::simulation::res_names_of(list@)[j] by {
                assert(crate::simulation::res_names_of(list@)[i] == list@[i].name@);
                assert(crate::simulation::res_names_of(list@)[j] == list@[j].name@);
                if i != found {
                    assert(list@[i] == pre[i]);
                }
                if j != found {
                    assert(list@[j] == pre[j]);
                }
                assert(crate::simulation::res_names_of(pre)[i] == pre[i].name@);
                assert(crate::simulation::res_names_of(pre)[j] == pre[j].name@);
            }
            assert forall|i: int| 0 <= i < list@.len() implies (#[trigger] list@[i]).wf()
                && list@[i]@.queue.len() == 0 && list@[i]@.stat_sum == 0 by {
                if i != found {
                    assert(list@[i] == pre[i]);
                }
            }
        }
    } else {
        list.push(res);
        proof {
            assert forall|i: int, j: int|
                0 <= i < j < list@.len() implies crate::simulation::res_names_of(list@)[i]
                != crate::simulation::res_names_of(list@)[j] by {
                assert(crate::simulation::res_names_of(list@)[i] == list@[i].name@);
                assert(crate::simulation::res_names_of(list@)[j] == list@[j].name@);
                if j == pre.len() {
                    assert(list@[i] == pre[i]);
                } else {
                    assert(list@[i] == pre[i]);
                    assert(list@[j] == pre[j]);
                    assert(crate::simulation::res_names_of(pre)[i] == pre[i].name@);
                    assert(crate::simulation::res_names_of(pre)[j] == pre[j].name@);
                }
            }
            assert forall|i: int| 0 <= i < list@.len() implies (#[trigger] list@[i]).wf()
                && list@[i]@.queue.len() == 0 && list@[i]@.stat_sum == 0 by {
                if i < pre.len() {
                    assert(list@[i] == pre[i]);
                }
            }
        }
    }
}

/// Inserts a named process definition with replace-in-place semantics, as
/// [`upsert_resource`] does for resources.
fn upsert_process(list: &mut Vec<Process>, proc: Process, require_budget: bool)
    requires
        forall|i: int|
            0 <= i < old(list)@.len() ==> (#[trigger] old(list)@[i]).wf() && (require_budget
                ==> old(list)@[i].on_use >= 1),
        crate::names::names_distinct(crate::simulation::def_names_of(old(list)@)),
        proc.wf(),
        require_budget ==> proc.on_use >= 1,
    ensures
        forall|i: int|
            0 <= i < final(list)@.len() ==> (#[trigger] final(list)@[i]).wf() && (require_budget
                ==> final(list)@[i].on_use >= 1),
        crate::names::names_distinct(crate::simulation::def_names_of(final(list)@)),
{
    let ghost pre = list@;
    let mut found: usize = list.len();
    let mut si: usize = 0;
    while si < list.len()
        invariant
            0 <= si <= list@.len(),
            list@ == pre,
            found <= list@.len(),
            found == list@.len() ==> forall|m: int|
                0 <= m < si ==> (#[trigger] pre[m]).name@ != proc.name@,
            found < list@.len() ==> found < si && pre[found as int].name@ == proc.name@,
        decreases list@.len() - si,
    {
        if found == list.len() && bytes_equal(&list[si].name, &proc.name) {
            found = si;
        }
        si += 1;
    }
    if found < list.len() {
        list[found] = proc;
        proof {
            assert forall|i: int, j: int|
                0 <= i < j < list@.len() implies crate::simulation::def_names_of(list@)[i]
                != crate::simulation::def_names_of(list@)[j] by {
                assert(crate::simulation::def_names_of(list@)[i] == list@[i].name@);
                assert(crate::simulation::def_names_of(list@)[j] == list@[j].name@);
                if i != found {
                    assert(list@[i] == pre[i]);
                }
                if j != found {
                    assert(list@[j] == pre[j]);
                }
                assert(crate::simulation::def_names_of(pre)[i] == pre[i].name@);
                assert(crate::simulation::def_names_of(pre)[j] == pre[j].name@);
            }
            assert forall|i: int| 0 <= i < list@.len() implies (#[trigger] list@[i]).wf() && (
            require_budget ==> list@[i].on_use >= 1) by {
                if i != found {
                    assert(list@[i] == pre[i]);
                }
            }
        }
    } else {
        list.push(proc);
        proof {
            assert forall|i: int, j: int|
                0 <= i < j < list@.len() implies crate::simulation::def_names_of(list@)[i]
                != crate::simulation::def_names_of(list@)[j] by {
                assert(crate::simulation::def_names_of(list@)[i] == list@[i].name@);
                assert(crate::simulation::def_names_of(list@)[j] == list@[j].name@);
                if j == pre.len() {
                    assert(list@[i] == pre[i]);
                } else {
                    assert(list@[i] == pre[i]);
                    assert(list@[j] == pre[j]);
                    assert(crate::simulation::def_names_of(pre)[i] == pre[i].name@);
                    assert(crate::simulation::def_names_of(pre)[j] == pre[j].name@);
                }
            }
            assert forall|i: int| 0 <= i < list@.len() implies (#[trigger] list@[i]).wf() && (
            require_budget ==> list@[i].on_use >= 1) by {
                if i < pre.len() {
                    assert(list@[i] == pre[i]);
                }
            }
        }
    }
}

/// Parses a whole definition text, given as its lines: named `resource`
/// and `process` blocks, with each block's name taken from the nearest
/// preceding plain line. Process definitions with a positive `on_use`
/// budget are split off as on-use pools. The result is ready for
/// [`crate::simulation::Simulation::new`]: well-formed definitions with
/// distinct names.
pub fn parse_simulation_lines(lines: &Vec<Vec<u8>>) -> (r: Result<
    (Vec<Resource>, Vec<Process>, Vec<Process>),
    ParseError,
>)
    ensures
        r matches Ok(defs) ==> {
            &&& forall|i: int|
                0 <= i < defs.0@.len() ==> (#[trigger] defs.0@[i]).wf() && defs.0@[i]@.queue.len()
                    == 0 && defs.0@[i]@.stat_sum == 0
            &&& crate::names::names_distinct(crate::simulation::res_names_of(defs.0@))
            &&& forall|j: int| 0 <= j < defs.1@.len() ==> (#[trigger] defs.1@[j]).wf()
            &&& forall|j: int|
                0 <= j < defs.2@.len() ==> (#[trigger] defs.2@[j]).wf() && defs.2@[j].on_use >= 1
            &&& crate::names::names_distinct(crate::simulation::def_names_of(defs.2@))
        },
{
    let mut resources: Vec<Resource> = Vec::new();
    let mut processes: Vec<Process> = Vec::new();
    let mut on_use_processes: Vec<Process> = Vec::new();
    let mut name: Vec<u8> = Vec::new();
    let mut p: usize = 0;
    while p < lines.len()
        invariant
            0 <= p <= lines@.len(),
            forall|i: int|
                0 <= i < resources@.len() ==> (#[trigger] resources@[i]).wf()
                    && resources@[i]@.queue.len() == 0 && resources@[i]@.stat_sum == 0,
            crate::names::names_distinct(crate::simulation::res_names_of(resources@)),
            forall|j: int| 0 <= j < processes@.len() ==> (#[trigger] processes@[j]).wf(),
            crate::names::names_distinct(crate::simulation::def_names_of(processes@)),
            forall|j: int|
                0 <= j < on_use_processes@.len() ==> (#[trigger] on_use_processes@[j]).wf()
                    && on_use_processes@[j].on_use >= 1,
            crate::names::names_distinct(crate::simulation::def_names_of(on_use_processes@)),
        decreases lines@.len() - p,
    {
        let line = &lines[p];
        let tokens = split_ws(line);
        if tokens.len() == 0 {
            p += 1;
            continue;
        }
        if tokens[0][0] == 35 {
            p += 1;
            continue;
        }
        let ind = indentation(line);
        let trimmed = trim_bytes(line);
        p += 1;
        let kw_resource: Vec<u8> = vec![114, 101, 115, 111, 117, 114, 99, 101];
        let kw_process: Vec<u8> = vec![112, 114, 111, 99, 101, 115, 115];
        if ends_with(&trimmed, &kw_resource) {
            let mut res = match parse_resource(lines, &mut p, ind) {
                Ok(res) => res,
                Err(e) => {
                    return Err(e);
                },
            };
            res.name = crate::resource::copy_bytes(&name);
            proof {
                assert(res@.queue =~= Seq::<(int, int)>::empty());
            }
            upsert_resource(&mut resources, res);
        } else if ends_with(&trimmed, &kw_process) {
            let mut proc = match parse_process(lines, &mut p, ind) {
                Ok(proc) => proc,
                Err(e) => {
                    return Err(e);
                },
            };
            proc.name = crate::resource::copy_bytes(&name);
            if proc.on_use > 0 {
                upsert_process(&mut on_use_processes, proc, true);
            } else {
                upsert_process(&mut processes, proc, false);
            }
        } else {
            name = trimmed;
        }
    }
    Ok((resources, processes, on_use_processes))
}

} // verus!
