//! The throughput resolver: how many simultaneous invocations of a process
//! the current tick admits — the minimum over the concurrency cap and one
//! availability bound per catalyst, input and output requirement.

use vstd::prelude::*;
use crate::constraint::{admits_all, constraint_check, spec_due, time_period_check};
use crate::process::{Entry, PoolModel, ProcModel, RunPool, RunProcess, Target, pool_wf, proc_wf};
use crate::resource::{AMOUNT_CAP, ResModel, Resource, res_wf};

verus! {

/// How many invocations one entry's availability allows: none when nothing
/// is available, unlimited (beyond any concurrency cap) when the entry's
/// per-invocation quantity is zero, else the integer quotient.
pub open spec fn spec_avail_bound(avail: int, qty: int) -> int {
    if avail <= 0 {
        0
    } else if qty == 0 {
        u64::MAX as int
    } else {
        avail / qty
    }
}

/// The bound a catalyst requirement imposes: uncommitted stock divided by
/// the required quantity; a reference to anything but a ledger resource
/// forbids running.
pub open spec fn spec_catalyst_bound(rs: Seq<ResModel>, e: Entry) -> int {
    match e.target {
        Target::Res(r) => spec_avail_bound(rs[r as int].amount - rs[r as int].reserved, e.qty as int),
        _ => 0,
    }
}

/// The bound an input requirement imposes: uncommitted stock for a ledger
/// resource, the undrawn budget for an on-use pool, nothing runnable for an
/// unknown name.
pub open spec fn spec_input_bound(rs: Seq<ResModel>, pools: Seq<PoolModel>, e: Entry) -> int {
    match e.target {
        Target::Res(r) => spec_avail_bound(rs[r as int].amount - rs[r as int].reserved, e.qty as int),
        Target::Pool(p) => spec_avail_bound(-pools[p as int].acc, e.qty as int),
        Target::Missing => 0,
    }
}

/// The bound an output imposes: remaining headroom under the capacity.
/// An output naming an unknown resource is ignored, so it bounds nothing.
pub open spec fn spec_output_bound(rs: Seq<ResModel>, e: Entry) -> int {
    match e.target {
        Target::Res(r) => spec_avail_bound(rs[r as int].max - rs[r as int].amount, e.qty as int),
        _ => u64::MAX as int,
    }
}

/// Minimum of `cur` and the catalyst bounds of the first `k` entries.
pub open spec fn spec_cat_min(rs: Seq<ResModel>, es: Seq<Entry>, k: int, cur: int) -> int
    decreases k,
{
    if k <= 0 {
        cur
    } else {
        let prev = spec_cat_min(rs, es, k - 1, cur);
        let b = spec_catalyst_bound(rs, es[k - 1]);
        if b < prev {
            b
        } else {
            prev
        }
    }
}

/// Minimum of `cur` and the input bounds of the first `k` entries.
pub open spec fn spec_in_min(
    rs: Seq<ResModel>,
    pools: Seq<PoolModel>,
    es: Seq<Entry>,
    k: int,
    cur: int,
) -> int
    decreases k,
{
    if k <= 0 {
        cur
    } else {
        let prev = spec_in_min(rs, pools, es, k - 1, cur);
        let b = spec_input_bound(rs, pools, es[k - 1]);
        if b < prev {
            b
        } else {
            prev
        }
    }
}

/// Minimum of `cur` and the output bounds of the first `k` entries.
pub open spec fn spec_out_min(rs: Seq<ResModel>, es: Seq<Entry>, k: int, cur: int) -> int
    decreases k,
{
    if k <= 0 {
        cur
    } else {
        let prev = spec_out_min(rs, es, k - 1, cur);
        let b = spec_output_bound(rs, es[k - 1]);
        if b < prev {
            b
        } else {
            prev
        }
    }
}

/// The number of times a process can run this tick: zero unless it is due
/// and admitted, else the minimum over its concurrency cap and every
/// requirement's availability bound.
pub open spec fn spec_times(rs: Seq<ResModel>, pools: Seq<PoolModel>, p: ProcModel, now: int) -> int {
    if !spec_due(p.period, p.period_delta, now) {
        0
    } else if !admits_all(p.constraint, p.modulo, now) {
        0
    } else {
        spec_out_min(
            rs,
            p.output,
            p.output.len() as int,
            spec_in_min(
                rs,
                pools,
                p.input,
                p.input.len() as int,
                spec_cat_min(rs, p.catalyst, p.catalyst.len() as int, p.max_catalyst),
            ),
        )
    }
}

/// An availability bound is never negative when the quantity is not.
pub proof fn lemma_avail_bound_nonneg(avail: int, qty: int)
    requires
        qty >= 0,
    ensures
        spec_avail_bound(avail, qty) >= 0,
{
    if avail > 0 && qty > 0 {
        vstd::arithmetic::div_mod::lemma_div_pos_is_pos(avail, qty);
    }
}

/// A longer prefix can only lower a running minimum, and a minimum seeded
/// at or above zero stays at or above zero.
pub proof fn lemma_cat_min_le(rs: Seq<ResModel>, es: Seq<Entry>, k1: int, k2: int, cur: int)
    requires
        0 <= k1 <= k2 <= es.len(),
        forall|m: int| 0 <= m < es.len() ==> (#[trigger] es[m]).qty >= 0,
    ensures
        spec_cat_min(rs, es, k2, cur) <= spec_cat_min(rs, es, k1, cur),
        cur >= 0 ==> spec_cat_min(rs, es, k2, cur) >= 0,
    decreases k2,
{
    if k2 > 0 {
        lemma_cat_min_le(rs, es, if k1 < k2 { k1 } else { k1 - 1 }, k2 - 1, cur);
        match es[k2 - 1].target {
            Target::Res(r) => {
                lemma_avail_bound_nonneg(
                    rs[r as int].amount - rs[r as int].reserved,
                    es[k2 - 1].qty as int,
                );
            },
            _ => {},
        }
    }
}

/// As [`lemma_cat_min_le`], for the input fold.
pub proof fn lemma_in_min_le(
    rs: Seq<ResModel>,
    pools: Seq<PoolModel>,
    es: Seq<Entry>,
    k1: int,
    k2: int,
    cur: int,
)
    requires
        0 <= k1 <= k2 <= es.len(),
        forall|m: int| 0 <= m < es.len() ==> (#[trigger] es[m]).qty >= 0,
    ensures
        spec_in_min(rs, pools, es, k2, cur) <= spec_in_min(rs, pools, es, k1, cur),
        cur >= 0 ==> spec_in_min(rs, pools, es, k2, cur) >= 0,
    decreases k2,
{
    if k2 > 0 {
        lemma_in_min_le(rs, pools, es, if k1 < k2 { k1 } else { k1 - 1 }, k2 - 1, cur);
        match es[k2 - 1].target {
            Target::Res(r) => {
                lemma_avail_bound_nonneg(
                    rs[r as int].amount - rs[r as int].reserved,
                    es[k2 - 1].qty as int,
                );
            },
            Target::Pool(p) => {
                lemma_avail_bound_nonneg(-pools[p as int].acc, es[k2 - 1].qty as int);
            },
            Target::Missing => {},
        }
    }
}

/// As [`lemma_cat_min_le`], for the output fold.
pub proof fn lemma_out_min_le(rs: Seq<ResModel>, es: Seq<Entry>, k1: int, k2: int, cur: int)
    requires
        0 <= k1 <= k2 <= es.len(),
        forall|m: int| 0 <= m < es.len() ==> (#[trigger] es[m]).qty >= 0,
    ensures
        spec_out_min(rs, es, k2, cur) <= spec_out_min(rs, es, k1, cur),
        cur >= 0 ==> spec_out_min(rs, es, k2, cur) >= 0,
    decreases k2,
{
    if k2 > 0 {
        lemma_out_min_le(rs, es, if k1 < k2 { k1 } else { k1 - 1 }, k2 - 1, cur);
        match es[k2 - 1].target {
            Target::Res(r) => {
                lemma_avail_bound_nonneg(
                    rs[r as int].max - rs[r as int].amount,
                    es[k2 - 1].qty as int,
                );
            },
            _ => {},
        }
    }
}

/// A running minimum over a prefix lies at or below every bound inside the
/// prefix, and at or below its seed.
pub proof fn lemma_cat_min_le_bound(rs: Seq<ResModel>, es: Seq<Entry>, k: int, cur: int, m: int)
    requires
        0 <= m < k <= es.len(),
    ensures
        spec_cat_min(rs, es, k, cur) <= spec_catalyst_bound(rs, es[m]),
        spec_cat_min(rs, es, k, cur) <= cur,
    decreases k,
{
    if k - 1 > m {
        lemma_cat_min_le_bound(rs, es, k - 1, cur, m);
    }
    lemma_cat_min_seed_le(rs, es, k - 1, cur);
}

/// The catalyst fold never exceeds its seed.
pub proof fn lemma_cat_min_seed_le(rs: Seq<ResModel>, es: Seq<Entry>, k: int, cur: int)
    requires
        0 <= k,
    ensures
        spec_cat_min(rs, es, k, cur) <= cur,
    decreases k,
{
    if k > 0 {
        lemma_cat_min_seed_le(rs, es, k - 1, cur);
    }
}

/// As [`lemma_cat_min_le_bound`], for the input fold.
pub proof fn lemma_in_min_le_bound(
    rs: Seq<ResModel>,
    pools: Seq<PoolModel>,
    es: Seq<Entry>,
    k: int,
    cur: int,
    m: int,
)
    requires
        0 <= m < k <= es.len(),
    ensures
        spec_in_min(rs, pools, es, k, cur) <= spec_input_bound(rs, pools, es[m]),
        spec_in_min(rs, pools, es, k, cur) <= cur,
    decreases k,
{
    if k - 1 > m {
        lemma_in_min_le_bound(rs, pools, es, k - 1, cur, m);
    }
    lemma_in_min_seed_le(rs, pools, es, k - 1, cur);
}

/// The input fold never exceeds its seed.
pub proof fn lemma_in_min_seed_le(rs: Seq<ResModel>, pools: Seq<PoolModel>, es: Seq<Entry>, k: int, cur: int)
    requires
        0 <= k,
    ensures
        spec_in_min(rs, pools, es, k, cur) <= cur,
    decreases k,
{
    if k > 0 {
        lemma_in_min_seed_le(rs, pools, es, k - 1, cur);
    }
}

/// As [`lemma_cat_min_le_bound`], for the output fold.
pub proof fn lemma_out_min_le_bound(rs: Seq<ResModel>, es: Seq<Entry>, k: int, cur: int, m: int)
    requires
        0 <= m < k <= es.len(),
    ensures
        spec_out_min(rs, es, k, cur) <= spec_output_bound(rs, es[m]),
        spec_out_min(rs, es, k, cur) <= cur,
    decreases k,
{
    if k - 1 > m {
        lemma_out_min_le_bound(rs, es, k - 1, cur, m);
    }
    lemma_out_min_seed_le(rs, es, k - 1, cur);
}

/// The output fold never exceeds its seed.
pub proof fn lemma_out_min_seed_le(rs: Seq<ResModel>, es: Seq<Entry>, k: int, cur: int)
    requires
        0 <= k,
    ensures
        spec_out_min(rs, es, k, cur) <= cur,
    decreases k,
{
    if k > 0 {
        lemma_out_min_seed_le(rs, es, k - 1, cur);
    }
}

/// A positive resolver result sits at or below every single bound and at or
/// below the concurrency cap.
pub proof fn lemma_times_le_bounds(rs: Seq<ResModel>, pools: Seq<PoolModel>, p: ProcModel, now: int)
    requires
        spec_times(rs, pools, p, now) > 0,
    ensures
        forall|m: int|
            0 <= m < p.catalyst.len() ==> spec_times(rs, pools, p, now) <= spec_catalyst_bound(
                rs,
                #[trigger] p.catalyst[m],
            ),
        forall|m: int|
            0 <= m < p.input.len() ==> spec_times(rs, pools, p, now) <= spec_input_bound(
                rs,
                pools,
                #[trigger] p.input[m],
            ),
        forall|m: int|
            0 <= m < p.output.len() ==> spec_times(rs, pools, p, now) <= spec_output_bound(
                rs,
                #[trigger] p.output[m],
            ),
        spec_times(rs, pools, p, now) <= p.max_catalyst,
{
    let seed_cat = p.max_catalyst;
    let c = spec_cat_min(rs, p.catalyst, p.catalyst.len() as int, seed_cat);
    let ci = spec_in_min(rs, pools, p.input, p.input.len() as int, c);
    let t = spec_times(rs, pools, p, now);
    lemma_out_min_seed_le(rs, p.output, p.output.len() as int, ci);
    lemma_in_min_seed_le(rs, pools, p.input, p.input.len() as int, c);
    lemma_cat_min_seed_le(rs, p.catalyst, p.catalyst.len() as int, seed_cat);
    assert forall|m: int| 0 <= m < p.catalyst.len() implies t <= spec_catalyst_bound(
        rs,
        #[trigger] p.catalyst[m],
    ) by {
        lemma_cat_min_le_bound(rs, p.catalyst, p.catalyst.len() as int, seed_cat, m);
    }
    assert forall|m: int| 0 <= m < p.input.len() implies t <= spec_input_bound(
        rs,
        pools,
        #[trigger] p.input[m],
    ) by {
        lemma_in_min_le_bound(rs, pools, p.input, p.input.len() as int, c, m);
    }
    assert forall|m: int| 0 <= m < p.output.len() implies t <= spec_output_bound(
        rs,
        #[trigger] p.output[m],
    ) by {
        lemma_out_min_le_bound(rs, p.output, p.output.len() as int, ci, m);
    }
}

/// An invocation count inside an entry's availability bound consumes at
/// most the available quantity, and the availability was positive.
pub proof fn lemma_mul_within(avail: int, qty: int, n: int)
    requires
        qty >= 0,
        n >= 1,
        n <= spec_avail_bound(avail, qty),
    ensures
        0 <= qty * n,
        qty * n <= avail,
        avail > 0,
        qty >= 1 ==> n <= avail,
{
    if qty == 0 {
        assert(qty == 0 ==> qty * n == 0) by (nonlinear_arith);
    } else {
        assert(n <= qty * n) by (nonlinear_arith)
            requires
                qty >= 1,
                n >= 1,
        ;
        vstd::arithmetic::div_mod::lemma_fundamental_div_mod(avail, qty);
        assert(qty * n <= qty * (avail / qty)) by (nonlinear_arith)
            requires
                qty >= 1,
                n <= avail / qty,
        ;
        assert(avail % qty >= 0) by {
            vstd::arithmetic::div_mod::lemma_mod_division_less_than_divisor(avail, qty);
        }
        assert(qty * n >= 0) by (nonlinear_arith)
            requires
                qty >= 1,
                n >= 1,
        ;
    }
}

/// Multiplies a per-invocation quantity by an invocation count known to
/// stay inside the representable band.
pub fn scale_qty(qty: i64, n: u64) -> (r: i64)
    requires
        qty >= 0,
        qty >= 1 ==> n <= 2 * (AMOUNT_CAP as int),
        0 <= qty * n <= 2 * (AMOUNT_CAP as int),
    ensures
        r == qty * n,
{
    if qty == 0 {
        proof {
            assert(qty * n == 0) by (nonlinear_arith)
                requires
                    qty == 0,
            ;
        }
        0
    } else {
        proof {
            assert(n <= 2 * (AMOUNT_CAP as int));
            assert(n as i64 == n as int);
        }
        qty * (n as i64)
    }
}

/// Computes how many times `process` can run at time `now` against the
/// current ledger and pool states.
pub fn times_process_can_run(
    resources: &Vec<Resource>,
    pools: &Vec<RunPool>,
    process: &RunProcess,
    now: u64,
) -> (n: u64)
    requires
        forall|i: int| 0 <= i < resources@.len() ==> res_wf((#[trigger] resources@[i])@),
        forall|j: int|
            0 <= j < pools@.len() ==> pool_wf((#[trigger] pools@[j])@, resources@.len() as int),
        proc_wf(process@, resources@.len() as int, pools@.len() as int),
    ensures
        n == spec_times(
            resources@.map_values(|r: Resource| r@),
            pools@.map_values(|p: RunPool| p@),
            process@,
            now as int,
        ),
{
    let ghost rs = resources@.map_values(|r: Resource| r@);
    let ghost ps = pools@.map_values(|p: RunPool| p@);
    if !time_period_check(process.period, process.period_delta, now) {
        return 0;
    }
    if !constraint_check(&process.constraint, &process.constraint_modulo, now) {
        return 0;
    }
    let ghost seed_cat = process@.max_catalyst;
    let mut can_run: u64 = process.max_catalyst;
    let mut i: usize = 0;
    while i < process.catalyst.len()
        invariant
            0 <= i <= process.catalyst@.len(),
            can_run == spec_cat_min(rs, process@.catalyst, i as int, seed_cat),
            forall|k: int| 0 <= k < resources@.len() ==> res_wf((#[trigger] resources@[k])@),
            proc_wf(process@, resources@.len() as int, pools@.len() as int),
            rs == resources@.map_values(|r: Resource| r@),
            ps == pools@.map_values(|p: RunPool| p@),
            seed_cat == process@.max_catalyst,
            spec_due(process@.period, process@.period_delta, now as int),
            admits_all(process@.constraint, process@.modulo, now as int),
        decreases process.catalyst@.len() - i,
    {
        let e = process.catalyst[i];
        let b: u64 = match e.target {
            Target::Res(r) => {
                let avail = resources[r].amount - resources[r].amount_used_as_catalyst;
                if avail <= 0 {
                    0
                } else if e.qty == 0 {
                    u64::MAX
                } else {
                    (avail / e.qty) as u64
                }
            },
            _ => {
                proof {
                    lemma_cat_min_le(rs, process@.catalyst, i as int, i + 1, seed_cat);
                    lemma_cat_min_le(rs, process@.catalyst, i + 1, process@.catalyst.len() as int, seed_cat);
                    lemma_in_min_le(rs, ps, process@.input, 0, process@.input.len() as int, 0);
                    lemma_out_min_le(rs, process@.output, 0, process@.output.len() as int, 0);
                    lemma_in_min_le(
                        rs,
                        ps,
                        process@.input,
                        0,
                        process@.input.len() as int,
                        spec_cat_min(rs, process@.catalyst, process@.catalyst.len() as int, seed_cat),
                    );
                    lemma_out_min_le(
                        rs,
                        process@.output,
                        0,
                        process@.output.len() as int,
                        spec_in_min(
                            rs,
                            ps,
                            process@.input,
                            process@.input.len() as int,
                            spec_cat_min(
                                rs,
                                process@.catalyst,
                                process@.catalyst.len() as int,
                                seed_cat,
                            ),
                        ),
                    );
                }
                return 0;
            },
        };
        if b < can_run {
            can_run = b;
        }
        proof {
            assert(can_run == spec_cat_min(rs, process@.catalyst, i + 1, seed_cat));
        }
        if can_run == 0 {
            proof {
                lemma_cat_min_le(rs, process@.catalyst, i + 1, process@.catalyst.len() as int, seed_cat);
                lemma_cat_min_le(rs, process@.catalyst, 0, process@.catalyst.len() as int, seed_cat);
                lemma_in_min_le(
                    rs,
                    ps,
                    process@.input,
                    0,
                    process@.input.len() as int,
                    spec_cat_min(rs, process@.catalyst, process@.catalyst.len() as int, seed_cat),
                );
                lemma_out_min_le(
                    rs,
                    process@.output,
                    0,
                    process@.output.len() as int,
                    spec_in_min(
                        rs,
                        ps,
                        process@.input,
                        process@.input.len() as int,
                        spec_cat_min(rs, process@.catalyst, process@.catalyst.len() as int, seed_cat),
                    ),
                );
            }
            return 0;
        }
        i += 1;
    }
    let ghost seed_in = spec_cat_min(rs, process@.catalyst, process@.catalyst.len() as int, seed_cat);
    let mut j: usize = 0;
    while j < process.input.len()
        invariant
            0 <= j <= process.input@.len(),
            can_run == spec_in_min(rs, ps, process@.input, j as int, seed_in),
            seed_in == spec_cat_min(rs, process@.catalyst, process@.catalyst.len() as int, seed_cat),
            seed_cat == process@.max_catalyst,
            forall|k: int| 0 <= k < resources@.len() ==> res_wf((#[trigger] resources@[k])@),
            forall|k: int|
                0 <= k < pools@.len() ==> pool_wf((#[trigger] pools@[k])@, resources@.len() as int),
            proc_wf(process@, resources@.len() as int, pools@.len() as int),
            rs == resources@.map_values(|r: Resource| r@),
            ps == pools@.map_values(|p: RunPool| p@),
            spec_due(process@.period, process@.period_delta, now as int),
            admits_all(process@.constraint, process@.modulo, now as int),
        decreases process.input@.len() - j,
    {
        let e = process.input[j];
        let b: u64 = match e.target {
            Target::Res(r) => {
                let avail = resources[r].amount - resources[r].amount_used_as_catalyst;
                if avail <= 0 {
                    0
                } else if e.qty == 0 {
                    u64::MAX
                } else {
                    (avail / e.qty) as u64
                }
            },
            Target::Pool(p) => {
                let avail = -pools[p].on_use_accumulate;
                if avail <= 0 {
                    0
                } else if e.qty == 0 {
                    u64::MAX
                } else {
                    (avail / e.qty) as u64
                }
            },
            Target::Missing => {
                proof {
                    lemma_in_min_le(rs, ps, process@.input, j + 1, process@.input.len() as int, seed_in);
                    lemma_out_min_le(
                        rs,
                        process@.output,
                        0,
                        process@.output.len() as int,
                        spec_in_min(rs, ps, process@.input, process@.input.len() as int, seed_in),
                    );
                    lemma_cat_min_le(rs, process@.catalyst, 0, process@.catalyst.len() as int, seed_cat);
                    lemma_in_min_le(rs, ps, process@.input, 0, process@.input.len() as int, seed_in);
                }
                return 0;
            },
        };
        if b < can_run {
            can_run = b;
        }
        proof {
            assert(can_run == spec_in_min(rs, ps, process@.input, j + 1, seed_in));
        }
        if can_run == 0 {
            proof {
                lemma_in_min_le(rs, ps, process@.input, j + 1, process@.input.len() as int, seed_in);
                lemma_cat_min_le(rs, process@.catalyst, 0, process@.catalyst.len() as int, seed_cat);
                lemma_in_min_le(rs, ps, process@.input, 0, process@.input.len() as int, seed_in);
                lemma_out_min_le(
                    rs,
                    process@.output,
                    0,
                    process@.output.len() as int,
                    spec_in_min(rs, ps, process@.input, process@.input.len() as int, seed_in),
                );
            }
            return 0;
        }
        j += 1;
    }
    let ghost seed_out = spec_in_min(rs, ps, process@.input, process@.input.len() as int, seed_in);
    let mut k: usize = 0;
    while k < process.output.len()
        invariant
            0 <= k <= process.output@.len(),
            can_run == spec_out_min(rs, process@.output, k as int, seed_out),
            seed_out == spec_in_min(rs, ps, process@.input, process@.input.len() as int, seed_in),
            seed_in == spec_cat_min(rs, process@.catalyst, process@.catalyst.len() as int, seed_cat),
            seed_cat == process@.max_catalyst,
            forall|m: int| 0 <= m < resources@.len() ==> res_wf((#[trigger] resources@[m])@),
            proc_wf(process@, resources@.len() as int, pools@.len() as int),
            rs == resources@.map_values(|r: Resource| r@),
            ps == pools@.map_values(|p: RunPool| p@),
            spec_due(process@.period, process@.period_delta, now as int),
            admits_all(process@.constraint, process@.modulo, now as int),
        decreases process.output@.len() - k,
    {
        let e = process.output[k];
        let b: u64 = match e.target {
            Target::Res(r) => {
                let avail = resources[r].max - resources[r].amount;
                if avail <= 0 {
                    0
                } else if e.qty == 0 {
                    u64::MAX
                } else {
                    (avail / e.qty) as u64
                }
            },
            _ => u64::MAX,
        };
        if b < can_run {
            can_run = b;
        }
        proof {
            assert(can_run == spec_out_min(rs, process@.output, k + 1, seed_out));
        }
        if can_run == 0 {
            proof {
                lemma_out_min_le(rs, process@.output, k + 1, process@.output.len() as int, seed_out);
                lemma_cat_min_le(rs, process@.catalyst, 0, process@.catalyst.len() as int, seed_cat);
                lemma_in_min_le(rs, ps, process@.input, 0, process@.input.len() as int, seed_in);
                lemma_out_min_le(rs, process@.output, 0, process@.output.len() as int, seed_out);
            }
            return 0;
        }
        k += 1;
    }
    can_run
}

} // verus!
