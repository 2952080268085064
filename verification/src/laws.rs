//! The laws the engine obeys, stated and proved over the tick and resolver
//! models: capacity preservation, the decay round trip, settlement
//! conservation, and throughput monotonicity.

use vstd::prelude::*;
use crate::process::{Entry, PoolModel, ProcModel, Target, entries_wf, pool_wf};
use crate::resource::{
    AMOUNT_CAP, ResModel, res_wf, spec_credit, spec_decay,
};
use crate::simulation::{
    SimModel, lemma_decay_all_props, lemma_reserve_pools_props, lemma_run_processes_props,
    sim_wf, spec_decay_all, spec_reserve_pools, spec_reset_all, spec_run_processes,
    spec_settle_pool, spec_settle_pools, spec_settle_refunds, spec_tick,
};
use crate::throughput::{
    spec_avail_bound, spec_catalyst_bound, spec_cat_min, spec_in_min, spec_input_bound,
    spec_out_min, spec_times,
};

verus! {

/// A refund never touches a ledger index that none of the first `k` inputs
/// targets.
proof fn lemma_settle_refunds_untouched(
    rs: Seq<ResModel>,
    inputs: Seq<Entry>,
    acc: int,
    cap: int,
    k: int,
    r: usize,
)
    requires
        0 <= k <= inputs.len(),
        entries_wf(inputs, rs.len() as int, 0, false),
        forall|m: int| 0 <= m < k ==> (#[trigger] inputs[m]).target != Target::Res(r),
        r < rs.len(),
    ensures
        spec_settle_refunds(rs, inputs, acc, cap, k).len() == rs.len(),
        spec_settle_refunds(rs, inputs, acc, cap, k)[r as int] == rs[r as int],
    decreases k,
{
    if k > 0 {
        lemma_settle_refunds_untouched(rs, inputs, acc, cap, k - 1, r);
    }
}

/// Settlement never touches a ledger index that no pool lists among its
/// own inputs.
proof fn lemma_settle_pools_untouched(rs: Seq<ResModel>, pools: Seq<PoolModel>, k: int, r: usize)
    requires
        0 <= k <= pools.len(),
        forall|j: int| 0 <= j < pools.len() ==> pool_wf(#[trigger] pools[j], rs.len() as int),
        forall|j: int, m: int|
            0 <= j < pools.len() && 0 <= m < pools[j].input.len() ==> (
            #[trigger] pools[j].input[m]).target != Target::Res(r),
        r < rs.len(),
    ensures
        spec_settle_pools(rs, pools, k).0.len() == rs.len(),
        spec_settle_pools(rs, pools, k).0[r as int] == rs[r as int],
    decreases k,
{
    if k > 0 {
        lemma_settle_pools_untouched(rs, pools, k - 1, r);
        let (r1, p1) = spec_settle_pools(rs, pools, k - 1);
        lemma_settle_refunds_untouched(
            r1,
            pools[k - 1].input,
            pools[k - 1].acc,
            pools[k - 1].on_use,
            pools[k - 1].input.len() as int,
            r,
        );
    }
}

/// Capacity preservation: a resource that no on-use pool lists among its
/// own inputs, and that starts a tick at or under its capacity, ends the
/// tick at or under its capacity. Decay, pre-reservation debits and input
/// debits only lower the amount; outputs stop at the remaining headroom;
/// only a pool's settlement refund — which reaches just the pool's own
/// inputs, after they may have been refilled — can push a stock above its
/// capacity, and such starvation-adjacent anomalies stay visible in the
/// reported values rather than being clamped.
pub proof fn lemma_amount_within_capacity(s: SimModel, r: usize)
    requires
        sim_wf(s),
        r < s.resources.len(),
        s.resources[r as int].amount <= s.resources[r as int].max,
        forall|j: int, m: int|
            0 <= j < s.pools.len() && 0 <= m < s.pools[j].input.len() ==> (
            #[trigger] s.pools[j].input[m]).target != Target::Res(r),
    ensures
        spec_tick(s).resources[r as int].amount <= s.resources[r as int].max,
{
    let i = r as int;
    let r1 = spec_decay_all(s.resources, s.time);
    lemma_decay_all_props(s.resources, s.time);
    lemma_reserve_pools_props(r1, s.pools, s.pools.len() as int);
    let (r2, p2) = spec_reserve_pools(r1, s.pools, s.pools.len() as int);
    let r3 = spec_reset_all(r2);
    assert(r3[i] == (ResModel { reserved: 0, ..r2[i] }));
    assert(r3[i].amount <= s.resources[i].amount && r3[i].max == s.resources[i].max);
    assert forall|k: int, kk: int|
        0 <= k < r3.len() && 0 <= kk < r3[k].queue.len() implies (
    #[trigger] r3[k].queue[kk]).0 <= s.time + r3[k].life by {
        assert(r3[k].queue == r1[k].queue);
        let m = choose|m: int|
            0 <= m < s.resources[k].queue.len() && r1[k].queue[kk] == s.resources[k].queue[m];
        assert(s.resources[k].queue[m].0 <= s.time + s.resources[k].life);
    }
    lemma_run_processes_props(r3, p2, s.processes, s.time, s.processes.len() as int);
    let (r4, p4) = spec_run_processes(r3, p2, s.processes, s.time, s.processes.len() as int);
    assert(r4[i].amount <= s.resources[i].max);
    assert forall|j: int, m: int|
        0 <= j < p4.len() && 0 <= m < p4[j].input.len() implies (
    #[trigger] p4[j].input[m]).target != Target::Res(r) by {
        assert(p4[j].input == s.pools[j].input);
    }
    lemma_settle_pools_untouched(r4, p4, p4.len() as int, r);
    let (r5, p5) = spec_settle_pools(r4, p4, p4.len() as int);
    assert(r5[i] == r4[i]);
    assert(spec_tick(s).resources[i].amount == r5[i].amount);
}

/// Decay round trip, at the ledger level: a stock whose queue holds a
/// single pending entry of quantity `q` expiring at time `e` loses nothing
/// to decay at any earlier time, and exactly `q` once the clock reaches
/// `e`.
pub proof fn lemma_decay_round_trip(m: ResModel, now: int)
    requires
        res_wf(m),
        m.queue.len() == 1,
        -AMOUNT_CAP <= m.amount - m.queue[0].1,
    ensures
        now < m.queue[0].0 ==> spec_decay(m, now) == m,
        now >= m.queue[0].0 ==> spec_decay(m, now).amount == m.amount - m.queue[0].1
            && spec_decay(m, now).queue.len() == 0,
{
    if now >= m.queue[0].0 {
        let m2 = ResModel {
            amount: crate::resource::spec_clip(m.amount - m.queue[0].1),
            queue: m.queue.drop_first(),
            ..m
        };
        assert(m2.queue.len() == 0);
        assert(spec_decay(m2, now) == m2);
        assert(spec_decay(m, now) == m2);
    }
}

/// Decay round trip for a produced quantity: a fresh stock with lifetime
/// `L` credited `+q` at time `t` decays nothing before `t + L` and loses
/// exactly `q` — returning to its prior amount — once the clock reaches
/// `t + L`.
pub proof fn lemma_credit_decay_round_trip(m: ResModel, q: int, t: int, now: int)
    requires
        res_wf(m),
        m.queue.len() == 0,
        m.life > 0,
        0 <= q <= 2 * AMOUNT_CAP,
        m.amount + q <= AMOUNT_CAP,
    ensures
        now < t + m.life ==> spec_decay(spec_credit(m, q, t), now) == spec_credit(m, q, t),
        now >= t + m.life ==> spec_decay(spec_credit(m, q, t), now).amount == m.amount
            && spec_decay(spec_credit(m, q, t), now).queue.len() == 0,
{
    let m2 = spec_credit(m, q, t);
    assert(m2.queue == m.queue.push((t + m.life, q)));
    assert(m2.queue.len() == 1);
    assert(m2.queue[0] == (t + m.life, q));
    if now >= t + m.life {
        let m3 = ResModel {
            amount: crate::resource::spec_clip(m2.amount - q),
            queue: m2.queue.drop_first(),
            ..m2
        };
        assert(m3.queue.len() == 0);
        assert(spec_decay(m3, now) == m3);
        assert(spec_decay(m2, now) == m3);
        assert(m3.amount == m.amount);
    }
}

/// Settlement conservation: whenever a pool settles, the drawn quantity it
/// records and the unspent budget it refunds sum exactly to its capacity —
/// no leakage and no double counting — and the drawn quantity lies between
/// zero and the capacity. A pool that was never reserved records its whole
/// budget as the tick's utilization and refunds nothing.
pub proof fn lemma_settlement_conservation(rs: Seq<ResModel>, p: PoolModel)
    requires
        pool_wf(p, rs.len() as int),
    ensures
        spec_settle_pool(rs, p).1.acc_writer - p.acc_writer == p.on_use + p.acc,
        (spec_settle_pool(rs, p).1.acc_writer - p.acc_writer) + (-p.acc) == p.on_use,
        0 <= spec_settle_pool(rs, p).1.acc_writer - p.acc_writer <= p.on_use,
        spec_settle_pool(rs, p).1.acc == p.acc,
        spec_settle_pool(rs, p).1.on_use == p.on_use,
{
}

/// Raising a single entry's quantity never raises its availability bound.
proof fn lemma_avail_bound_anti(avail: int, q1: int, q2: int)
    requires
        0 <= q1 <= q2,
        avail <= u64::MAX,
    ensures
        spec_avail_bound(avail, q2) <= spec_avail_bound(avail, q1),
{
    if avail > 0 {
        if q1 == 0 {
            if q2 > 0 {
                vstd::arithmetic::div_mod::lemma_div_is_ordered_by_denominator(avail, 1, q2);
                vstd::arithmetic::div_mod::lemma_div_by_multiple(avail, 1);
                assert(avail * 1 == avail) by (nonlinear_arith);
                assert(avail / q2 <= avail / 1);
            }
        } else {
            vstd::arithmetic::div_mod::lemma_div_is_ordered_by_denominator(avail, q1, q2);
        }
    }
}

/// With bounds pointwise at or below, the input fold stays at or below.
proof fn lemma_in_min_pointwise(
    rs: Seq<ResModel>,
    pools: Seq<PoolModel>,
    es1: Seq<Entry>,
    es2: Seq<Entry>,
    k: int,
    cur: int,
)
    requires
        0 <= k <= es1.len(),
        es1.len() == es2.len(),
        forall|m: int|
            0 <= m < es1.len() ==> spec_input_bound(rs, pools, #[trigger] es2[m])
                <= spec_input_bound(rs, pools, #[trigger] es1[m]),
    ensures
        spec_in_min(rs, pools, es2, k, cur) <= spec_in_min(rs, pools, es1, k, cur),
    decreases k,
{
    if k > 0 {
        lemma_in_min_pointwise(rs, pools, es1, es2, k - 1, cur);
    }
}

/// With bounds pointwise at or below, the catalyst fold stays at or below.
proof fn lemma_cat_min_pointwise(
    rs: Seq<ResModel>,
    es1: Seq<Entry>,
    es2: Seq<Entry>,
    k: int,
    cur: int,
)
    requires
        0 <= k <= es1.len(),
        es1.len() == es2.len(),
        forall|m: int|
            0 <= m < es1.len() ==> spec_catalyst_bound(rs, #[trigger] es2[m]) <= spec_catalyst_bound(
                rs,
                #[trigger] es1[m],
            ),
    ensures
        spec_cat_min(rs, es2, k, cur) <= spec_cat_min(rs, es1, k, cur),
    decreases k,
{
    if k > 0 {
        lemma_cat_min_pointwise(rs, es1, es2, k - 1, cur);
    }
}

/// A lower seed keeps the input fold at or below.
proof fn lemma_in_min_seed_mono(
    rs: Seq<ResModel>,
    pools: Seq<PoolModel>,
    es: Seq<Entry>,
    k: int,
    c1: int,
    c2: int,
)
    requires
        0 <= k,
        c1 <= c2,
    ensures
        spec_in_min(rs, pools, es, k, c1) <= spec_in_min(rs, pools, es, k, c2),
    decreases k,
{
    if k > 0 {
        lemma_in_min_seed_mono(rs, pools, es, k - 1, c1, c2);
    }
}

/// A lower seed keeps the output fold at or below.
proof fn lemma_out_min_seed_mono(rs: Seq<ResModel>, es: Seq<Entry>, k: int, c1: int, c2: int)
    requires
        0 <= k,
        c1 <= c2,
    ensures
        spec_out_min(rs, es, k, c1) <= spec_out_min(rs, es, k, c2),
    decreases k,
{
    if k > 0 {
        lemma_out_min_seed_mono(rs, es, k - 1, c1, c2);
    }
}

/// Throughput monotonicity in an input requirement: raising the quantity
/// of any single input entry, holding everything else fixed, never raises
/// the number of invocations the resolver grants.
pub proof fn lemma_throughput_monotone_input(
    rs: Seq<ResModel>,
    pools: Seq<PoolModel>,
    p1: ProcModel,
    p2: ProcModel,
    m: int,
    now: int,
)
    requires
        forall|i: int| 0 <= i < rs.len() ==> res_wf(#[trigger] rs[i]),
        forall|j: int| 0 <= j < pools.len() ==> pool_wf(#[trigger] pools[j], rs.len() as int),
        crate::process::proc_wf(p1, rs.len() as int, pools.len() as int),
        0 <= m < p1.input.len(),
        p2.input.len() == p1.input.len(),
        forall|k: int| 0 <= k < p1.input.len() && k != m ==> p2.input[k] == p1.input[k],
        p2.input[m].target == p1.input[m].target,
        0 <= p1.input[m].qty <= p2.input[m].qty,
        p2.output == p1.output,
        p2.catalyst == p1.catalyst,
        p2.max_catalyst == p1.max_catalyst,
        p2.period == p1.period,
        p2.period_delta == p1.period_delta,
        p2.constraint == p1.constraint,
        p2.modulo == p1.modulo,
    ensures
        spec_times(rs, pools, p2, now) <= spec_times(rs, pools, p1, now),
{
    if crate::constraint::spec_due(p1.period, p1.period_delta, now)
        && crate::constraint::admits_all(p1.constraint, p1.modulo, now) {
        let c = spec_cat_min(rs, p1.catalyst, p1.catalyst.len() as int, p1.max_catalyst);
        assert forall|k: int| 0 <= k < p1.input.len() implies spec_input_bound(
            rs,
            pools,
            #[trigger] p2.input[k],
        ) <= spec_input_bound(rs, pools, #[trigger] p1.input[k]) by {
            if k == m {
                match p1.input[m].target {
                    Target::Res(r) => {
                        lemma_avail_bound_anti(
                            rs[r as int].amount - rs[r as int].reserved,
                            p1.input[m].qty as int,
                            p2.input[m].qty as int,
                        );
                    },
                    Target::Pool(pp) => {
                        lemma_avail_bound_anti(
                            -pools[pp as int].acc,
                            p1.input[m].qty as int,
                            p2.input[m].qty as int,
                        );
                    },
                    Target::Missing => {},
                }
            }
        }
        lemma_in_min_pointwise(rs, pools, p1.input, p2.input, p1.input.len() as int, c);
        lemma_out_min_seed_mono(
            rs,
            p1.output,
            p1.output.len() as int,
            spec_in_min(rs, pools, p2.input, p2.input.len() as int, c),
            spec_in_min(rs, pools, p1.input, p1.input.len() as int, c),
        );
    }
}

/// Throughput monotonicity in a catalyst requirement: raising the quantity
/// of any single catalyst entry, holding everything else fixed, never
/// raises the number of invocations the resolver grants.
pub proof fn lemma_throughput_monotone_catalyst(
    rs: Seq<ResModel>,
    pools: Seq<PoolModel>,
    p1: ProcModel,
    p2: ProcModel,
    m: int,
    now: int,
)
    requires
        forall|i: int| 0 <= i < rs.len() ==> res_wf(#[trigger] rs[i]),
        forall|j: int| 0 <= j < pools.len() ==> pool_wf(#[trigger] pools[j], rs.len() as int),
        crate::process::proc_wf(p1, rs.len() as int, pools.len() as int),
        0 <= m < p1.catalyst.len(),
        p2.catalyst.len() == p1.catalyst.len(),
        forall|k: int| 0 <= k < p1.catalyst.len() && k != m ==> p2.catalyst[k] == p1.catalyst[k],
        p2.catalyst[m].target == p1.catalyst[m].target,
        0 <= p1.catalyst[m].qty <= p2.catalyst[m].qty,
        p2.output == p1.output,
        p2.input == p1.input,
        p2.max_catalyst == p1.max_catalyst,
        p2.period == p1.period,
        p2.period_delta == p1.period_delta,
        p2.constraint == p1.constraint,
        p2.modulo == p1.modulo,
    ensures
        spec_times(rs, pools, p2, now) <= spec_times(rs, pools, p1, now),
{
    if crate::constraint::spec_due(p1.period, p1.period_delta, now)
        && crate::constraint::admits_all(p1.constraint, p1.modulo, now) {
        assert forall|k: int| 0 <= k < p1.catalyst.len() implies spec_catalyst_bound(
            rs,
            #[trigger] p2.catalyst[k],
        ) <= spec_catalyst_bound(rs, #[trigger] p1.catalyst[k]) by {
            if k == m {
                match p1.catalyst[m].target {
                    Target::Res(r) => {
                        lemma_avail_bound_anti(
                            rs[r as int].amount - rs[r as int].reserved,
                            p1.catalyst[m].qty as int,
                            p2.catalyst[m].qty as int,
                        );
                    },
                    _ => {},
                }
            }
        }
        lemma_cat_min_pointwise(rs, p1.catalyst, p2.catalyst, p1.catalyst.len() as int, p1.max_catalyst);
        let c1 = spec_cat_min(rs, p1.catalyst, p1.catalyst.len() as int, p1.max_catalyst);
        let c2 = spec_cat_min(rs, p2.catalyst, p2.catalyst.len() as int, p2.max_catalyst);
        lemma_in_min_seed_mono(rs, pools, p1.input, p1.input.len() as int, c2, c1);
        lemma_out_min_seed_mono(
            rs,
            p1.output,
            p1.output.len() as int,
            spec_in_min(rs, pools, p2.input, p2.input.len() as int, c2),
            spec_in_min(rs, pools, p1.input, p1.input.len() as int, c1),
        );
    }
}

} // verus!
