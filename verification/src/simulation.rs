//! The tick scheduler: one simulated second advances through six strictly
//! ordered phases — decay, pool pre-reservation, catalyst-scratch reset,
//! process execution, pool settlement, statistics update. Pools reserve
//! pessimistically before any consumer draws and settle only after every
//! consumer had its chance, so rules competing for a shared pool within one
//! tick see no order bias.

use vstd::prelude::*;
use crate::constraint::TimeRange;
use crate::process::{
    Entry, PoolModel, ProcModel, RunPool, RunProcess, Target, entries_wf, pool_wf, proc_wf,
};
use crate::resource::{
    AMOUNT_CAP, ResModel, Resource, TIME_CAP, clip_add, lemma_spec_decay, res_wf, spec_decay,
    spec_tick_stats,
};

verus! {

/// Mathematical model of a whole simulation state.
#[verifier::ext_equal]
pub ghost struct SimModel {
    pub resources: Seq<ResModel>,
    pub processes: Seq<ProcModel>,
    pub pools: Seq<PoolModel>,
    pub time: int,
    pub write_every: int,
    pub last_write_time: int,
}

/// Well-formedness of a simulation model: every part well-formed against
/// the registry sizes, the clock inside the supported band, decay entries
/// never scheduled beyond one lifetime from now, and the per-interval
/// accumulators bounded by the ticks elapsed since the last report — which
/// keeps their arithmetic exact.
pub open spec fn sim_wf(s: SimModel) -> bool {
    &&& forall|i: int| 0 <= i < s.resources.len() ==> res_wf(#[trigger] s.resources[i])
    &&& forall|i: int, k: int|
        0 <= i < s.resources.len() && 0 <= k < s.resources[i].queue.len() ==> (
        #[trigger] s.resources[i].queue[k]).0 <= s.time + s.resources[i].life
    &&& forall|i: int|
        0 <= i < s.resources.len() ==> -((s.time - s.last_write_time) * AMOUNT_CAP) <= (
        #[trigger] s.resources[i]).stat_sum <= (s.time - s.last_write_time) * AMOUNT_CAP
    &&& forall|j: int|
        0 <= j < s.pools.len() ==> pool_wf(#[trigger] s.pools[j], s.resources.len() as int)
    &&& forall|j: int|
        0 <= j < s.pools.len() ==> 0 <= (#[trigger] s.pools[j]).acc_writer <= (s.time
            - s.last_write_time) * AMOUNT_CAP
    &&& forall|j: int|
        0 <= j < s.processes.len() ==> proc_wf(
            #[trigger] s.processes[j],
            s.resources.len() as int,
            s.pools.len() as int,
        )
    &&& 0 <= s.time <= TIME_CAP
    &&& 1 <= s.write_every
    &&& 0 <= s.last_write_time <= s.time
}

/// The simulation driver: the resource ledger, the two process registries
/// (ordinary rules and on-use pools) in definition order, the clock in
/// seconds, and the reporting cadence.
pub struct Simulation {
    pub resources: Vec<Resource>,
    pub processes: Vec<RunProcess>,
    pub on_use_processes: Vec<RunPool>,
    pub time: u64,
    pub write_every: u64,
    pub last_write_time: u64,
}

impl View for Simulation {
    type V = SimModel;

    open spec fn view(&self) -> SimModel {
        SimModel {
            resources: self.resources@.map_values(|r: Resource| r@),
            processes: self.processes@.map_values(|p: RunProcess| p@),
            pools: self.on_use_processes@.map_values(|p: RunPool| p@),
            time: self.time as int,
            write_every: self.write_every as int,
            last_write_time: self.last_write_time as int,
        }
    }
}

/// One line of a state snapshot: a resource's name, current amount, unit
/// and capacity.
#[derive(Clone, Debug)]
pub struct SnapshotEntry {
    pub name: Vec<u8>,
    pub amount: i64,
    pub unit: Vec<u8>,
    pub max: i64,
}

/// Per-resource statistics of one reporting row: minimum, sum (the average
/// is `sum / elapsed`), maximum and current amount over the interval.
#[derive(Clone, Copy, PartialEq, Eq, Structural, Debug)]
pub struct ResourceStat {
    pub min: i64,
    pub sum: i128,
    pub max: i64,
    pub current: i64,
}

/// Mathematical model of a reporting row.
#[verifier::ext_equal]
pub ghost struct RowModel {
    pub time: int,
    pub elapsed: int,
    pub stats: Seq<(int, int, int, int)>,
    pub utilization: Seq<int>,
}

/// One reporting row: the timestamp, the seconds elapsed since the previous
/// row, one [`ResourceStat`] per resource, and one drawn-quantity
/// accumulator per on-use pool, all in registry order.
pub struct Row {
    pub time: u64,
    pub elapsed: u64,
    pub stats: Vec<ResourceStat>,
    pub utilization: Vec<i128>,
}

impl View for Row {
    type V = RowModel;

    open spec fn view(&self) -> RowModel {
        RowModel {
            time: self.time as int,
            elapsed: self.elapsed as int,
            stats: self.stats@.map_values(
                |st: ResourceStat| (st.min as int, st.sum as int, st.max as int, st.current as int),
            ),
            utilization: self.utilization@.map_values(|u: i128| u as int),
        }
    }
}

/// The row a state reports: per resource the interval's min, sum, max and
/// current amount; per pool the interval's drawn quantity.
pub open spec fn spec_row_of(s: SimModel) -> RowModel {
    RowModel {
        time: s.time,
        elapsed: s.time - s.last_write_time,
        stats: Seq::new(
            s.resources.len(),
            |i: int|
                (
                    s.resources[i].stat_min,
                    s.resources[i].stat_sum,
                    s.resources[i].stat_max,
                    s.resources[i].amount,
                ),
        ),
        utilization: Seq::new(s.pools.len(), |j: int| s.pools[j].acc_writer),
    }
}

/// The state after a row is emitted: every interval accumulator starts
/// over and the report clock catches up.
pub open spec fn spec_after_report(s: SimModel) -> SimModel {
    SimModel {
        resources: s.resources.map_values(
            |r: ResModel|
                ResModel {
                    stat_min: crate::resource::STAT_MIN_INIT as int,
                    stat_max: 0,
                    stat_sum: 0,
                    ..r
                },
        ),
        pools: s.pools.map_values(|p: PoolModel| PoolModel { acc_writer: 0, ..p }),
        last_write_time: s.time,
        ..s
    }
}

/// One iteration of the run loop, the `k`-th since the run began: a tick,
/// the clock advancing one second, and — on reporting boundaries — a row
/// emission with its accumulator reset.
pub open spec fn spec_step(s: SimModel, k: int, write_every: int) -> SimModel {
    let t = spec_tick(s);
    let t2 = SimModel { time: s.time + 1, ..t };
    if k % write_every == 0 {
        spec_after_report(t2)
    } else {
        t2
    }
}

/// The state after the first `k` iterations of a run.
pub open spec fn spec_run_sim(s: SimModel, k: int) -> SimModel
    decreases k,
{
    if k <= 0 {
        s
    } else {
        spec_step(spec_run_sim(s, k - 1), k - 1, s.write_every)
    }
}

/// The rows emitted by the first `k` iterations of a run, in order: one per
/// reporting boundary, each describing the state right after its tick.
pub open spec fn spec_rows(s: SimModel, k: int) -> Seq<RowModel>
    decreases k,
{
    if k <= 0 {
        Seq::empty()
    } else {
        let prev_rows = spec_rows(s, k - 1);
        let prev = spec_run_sim(s, k - 1);
        let t2 = SimModel { time: prev.time + 1, ..spec_tick(prev) };
        if (k - 1) % s.write_every == 0 {
            prev_rows.push(spec_row_of(t2))
        } else {
            prev_rows
        }
    }
}

/// Resetting the interval accumulators keeps a well-formed state
/// well-formed, whatever the clock says.
pub proof fn lemma_after_report_wf(s: SimModel)
    requires
        sim_wf(s),
    ensures
        sim_wf(spec_after_report(s)),
        spec_after_report(s).resources.len() == s.resources.len(),
        spec_after_report(s).pools.len() == s.pools.len(),
        spec_after_report(s).processes == s.processes,
        spec_after_report(s).time == s.time,
        spec_after_report(s).write_every == s.write_every,
{
    let t = spec_after_report(s);
    assert forall|i: int| 0 <= i < t.resources.len() implies res_wf(#[trigger] t.resources[i])
        && t.resources[i].queue == s.resources[i].queue && t.resources[i].life
        == s.resources[i].life && t.resources[i].stat_sum == 0 by {
        assert(t.resources[i] == (ResModel {
            stat_min: crate::resource::STAT_MIN_INIT as int,
            stat_max: 0,
            stat_sum: 0,
            ..s.resources[i]
        }));
    }
    assert forall|i: int| 0 <= i < t.resources.len() implies -((t.time - t.last_write_time) * (
    AMOUNT_CAP as int)) <= (#[trigger] t.resources[i]).stat_sum <= (t.time - t.last_write_time) * (
    AMOUNT_CAP as int) by {
        assert((t.time - t.last_write_time) * (AMOUNT_CAP as int) == 0) by (nonlinear_arith)
            requires
                t.time == t.last_write_time,
        ;
    }
    assert forall|j: int| 0 <= j < t.pools.len() implies pool_wf(
        #[trigger] t.pools[j],
        t.resources.len() as int,
    ) && 0 <= t.pools[j].acc_writer <= (t.time - t.last_write_time) * (AMOUNT_CAP as int) by {
        assert(t.pools[j] == (PoolModel { acc_writer: 0, ..s.pools[j] }));
        assert((t.time - t.last_write_time) * (AMOUNT_CAP as int) == 0) by (nonlinear_arith)
            requires
                t.time == t.last_write_time,
        ;
    }
}

/// Where a name points after resolution against the registries: the
/// resource of that name if one exists; else — for inputs only — the pool
/// of that name; else nowhere (a definition error, not a crash).
pub open spec fn resolves_to(
    res_names: Seq<Seq<u8>>,
    pool_names: Seq<Seq<u8>>,
    name: Seq<u8>,
    t: Target,
    allow_pool: bool,
) -> bool {
    match t {
        Target::Res(i) => i < res_names.len() && res_names[i as int] == name,
        Target::Pool(j) => {
            &&& allow_pool
            &&& j < pool_names.len()
            &&& pool_names[j as int] == name
            &&& forall|i: int| 0 <= i < res_names.len() ==> res_names[i] != name
        },
        Target::Missing => {
            &&& forall|i: int| 0 <= i < res_names.len() ==> res_names[i] != name
            &&& (!allow_pool || forall|j: int|
                0 <= j < pool_names.len() ==> pool_names[j] != name)
        },
    }
}

/// The names of a resource list, in order.
pub open spec fn res_names_of(resources: Seq<Resource>) -> Seq<Seq<u8>> {
    resources.map_values(|r: Resource| r.name@)
}

/// The names of a process-definition list, in order.
pub open spec fn def_names_of(defs: Seq<crate::process::Process>) -> Seq<Seq<u8>> {
    defs.map_values(|p: crate::process::Process| p.name@)
}

/// Entries resolved from a definition list with distinct keys are
/// well-formed: quantities carried over, targets inside the registries, and
/// no two entries aimed at the same place.
pub proof fn lemma_resolved_entries_wf(
    list: Seq<(Vec<u8>, i64)>,
    es: Seq<Entry>,
    res_names: Seq<Seq<u8>>,
    pool_names: Seq<Seq<u8>>,
    allow_pool: bool,
)
    requires
        es.len() == list.len(),
        crate::process::def_list_wf(list),
        crate::process::def_names_distinct(list),
        forall|k: int|
            0 <= k < list.len() ==> (#[trigger] es[k]).qty == list[k].1 && resolves_to(
                res_names,
                pool_names,
                list[k].0@,
                es[k].target,
                allow_pool,
            ),
    ensures
        entries_wf(es, res_names.len() as int, pool_names.len() as int, allow_pool),
{
    assert forall|i: int, j: int|
        0 <= i < j < es.len() implies ((#[trigger] es[i]).target == (#[trigger] es[j]).target
        ==> es[i].target is Missing) by {
        if es[i].target == es[j].target {
            match es[i].target {
                Target::Res(r) => {
                    assert(list[i].0@ == res_names[r as int]);
                    assert(list[j].0@ == res_names[r as int]);
                    assert(false);
                },
                Target::Pool(p) => {
                    assert(list[i].0@ == pool_names[p as int]);
                    assert(list[j].0@ == pool_names[p as int]);
                    assert(false);
                },
                Target::Missing => {},
            }
        }
    }
}

/// Resolves one definition list (name, quantity pairs) against the two
/// registries: resources take precedence; pools are admissible only where
/// `allow_pool` holds (input maps); anything else resolves to nowhere.
fn resolve_entries(
    list: &Vec<(Vec<u8>, i64)>,
    res_map: &indexmap::IndexMap<Vec<u8>, usize>,
    pool_map: &indexmap::IndexMap<Vec<u8>, usize>,
    allow_pool: bool,
    Ghost(res_names): Ghost<Seq<Seq<u8>>>,
    Ghost(pool_names): Ghost<Seq<Seq<u8>>>,
) -> (r: Vec<Entry>)
    requires
        crate::names::index_map_view(*res_map) == crate::names::spec_names_map(
            res_names,
            res_names.len() as int,
        ),
        crate::names::index_map_view(*pool_map) == crate::names::spec_names_map(
            pool_names,
            pool_names.len() as int,
        ),
        crate::names::names_distinct(res_names),
        crate::names::names_distinct(pool_names),
        res_names.len() <= usize::MAX,
        pool_names.len() <= usize::MAX,
    ensures
        r@.len() == list@.len(),
        forall|k: int|
            0 <= k < list@.len() ==> (#[trigger] r@[k]).qty == list@[k].1 && resolves_to(
                res_names,
                pool_names,
                list@[k].0@,
                r@[k].target,
                allow_pool,
            ),
{
    let mut r: Vec<Entry> = Vec::new();
    let mut k: usize = 0;
    while k < list.len()
        invariant
            0 <= k <= list@.len(),
            r@.len() == k,
            crate::names::index_map_view(*res_map) == crate::names::spec_names_map(
                res_names,
                res_names.len() as int,
            ),
            crate::names::index_map_view(*pool_map) == crate::names::spec_names_map(
                pool_names,
                pool_names.len() as int,
            ),
            crate::names::names_distinct(res_names),
            crate::names::names_distinct(pool_names),
            res_names.len() <= usize::MAX,
            pool_names.len() <= usize::MAX,
            forall|m: int|
                0 <= m < k ==> (#[trigger] r@[m]).qty == list@[m].1 && resolves_to(
                    res_names,
                    pool_names,
                    list@[m].0@,
                    r@[m].target,
                    allow_pool,
                ),
        decreases list@.len() - k,
    {
        proof {
            crate::names::lemma_names_map_full(res_names, res_names.len() as int);
            crate::names::lemma_names_map_full(pool_names, pool_names.len() as int);
        }
        let e = &list[k];
        let ghost nm = e.0@;
        let target = match crate::names::name_map_get(res_map, &e.0) {
            Some(i) => {
                proof {
                    let i0 = choose|i0: int| 0 <= i0 < res_names.len() && res_names[i0] == nm;
                    assert(crate::names::index_map_view(*res_map)[res_names[i0]] == i0);
                    assert(i == i0);
                }
                Target::Res(i)
            },
            None => {
                proof {
                    assert(forall|i: int| 0 <= i < res_names.len() ==> res_names[i] != nm);
                }
                if allow_pool {
                    match crate::names::name_map_get(pool_map, &e.0) {
                        Some(j) => {
                            proof {
                                let j0 = choose|j0: int|
                                    0 <= j0 < pool_names.len() && pool_names[j0] == nm;
                                assert(crate::names::index_map_view(*pool_map)[pool_names[j0]]
                                    == j0);
                                assert(j == j0);
                            }
                            Target::Pool(j)
                        },
                        None => {
                            proof {
                                assert(forall|j: int|
                                    0 <= j < pool_names.len() ==> pool_names[j] != nm);
                            }
                            Target::Missing
                        },
                    }
                } else {
                    Target::Missing
                }
            },
        };
        let entry = Entry { target, qty: e.1 };
        proof {
            assert(resolves_to(res_names, pool_names, nm, entry.target, allow_pool));
        }
        r.push(entry);
        k += 1;
    }
    r
}

impl Simulation {
    /// Structural soundness of the ledger vectors plus well-formedness of
    /// the model.
    pub open spec fn wf(&self) -> bool {
        &&& forall|i: int|
            0 <= i < self.resources@.len() ==> (#[trigger] self.resources@[i]).wf()
        &&& sim_wf(self@)
    }
}

/// The decay phase: every resource drains its expired queue entries.
pub open spec fn spec_decay_all(rs: Seq<ResModel>, now: int) -> Seq<ResModel> {
    rs.map_values(|r: ResModel| spec_decay(r, now))
}

/// The catalyst-scratch reset phase: every reservation counter returns to
/// zero before any process executes.
pub open spec fn spec_reset_all(rs: Seq<ResModel>) -> Seq<ResModel> {
    rs.map_values(|r: ResModel| ResModel { reserved: 0, ..r })
}

/// Whether one of a pool's own input requirements is currently satisfiable:
/// a ledger resource must hold at least the required quantity; an entry
/// naming anything else does not block the pool (and is never debited).
pub open spec fn spec_input_satisfied(rs: Seq<ResModel>, e: Entry) -> bool {
    match e.target {
        Target::Res(r) => rs[r as int].amount >= e.qty,
        _ => true,
    }
}

/// Whether the first `k` input requirements are all satisfiable.
pub open spec fn spec_pool_feasible_upto(rs: Seq<ResModel>, inputs: Seq<Entry>, k: int) -> bool {
    forall|i: int| 0 <= i < k ==> spec_input_satisfied(rs, #[trigger] inputs[i])
}

/// Whether all of a pool's input requirements are satisfiable at once.
pub open spec fn spec_pool_feasible(rs: Seq<ResModel>, inputs: Seq<Entry>) -> bool {
    spec_pool_feasible_upto(rs, inputs, inputs.len() as int)
}

/// Debiting the first `k` inputs of a feasible pool from the ledger.
/// The decay queues are left alone here; settlement returns the unspent
/// fraction at the end of the tick.
pub open spec fn spec_debit_pool_inputs(rs: Seq<ResModel>, inputs: Seq<Entry>, k: int) -> Seq<ResModel>
    decreases k,
{
    if k <= 0 {
        rs
    } else {
        let prev = spec_debit_pool_inputs(rs, inputs, k - 1);
        match inputs[k - 1].target {
            Target::Res(r) => prev.update(
                r as int,
                ResModel { amount: prev[r as int].amount - inputs[k - 1].qty, ..prev[r as int] },
            ),
            _ => prev,
        }
    }
}

/// Pre-reservation of one pool: a feasible pool debits its inputs and
/// reserves its whole budget (`acc = -on_use`); an infeasible one is marked
/// unusable (`acc = 0`).
pub open spec fn spec_reserve_pool(rs: Seq<ResModel>, p: PoolModel) -> (Seq<ResModel>, PoolModel) {
    if spec_pool_feasible(rs, p.input) {
        (
            spec_debit_pool_inputs(rs, p.input, p.input.len() as int),
            PoolModel { acc: -p.on_use, ..p },
        )
    } else {
        (rs, PoolModel { acc: 0, ..p })
    }
}

/// Pre-reservation of the first `k` pools, in registry order; later pools
/// see the debits of earlier ones.
pub open spec fn spec_reserve_pools(rs: Seq<ResModel>, pools: Seq<PoolModel>, k: int) -> (
    Seq<ResModel>,
    Seq<PoolModel>,
)
    decreases k,
{
    if k <= 0 {
        (rs, pools)
    } else {
        let (r1, p1) = spec_reserve_pools(rs, pools, k - 1);
        let (r2, pk) = spec_reserve_pool(r1, pools[k - 1]);
        (r2, p1.update(k - 1, pk))
    }
}

/// A ledger index that none of the first `k` inputs targets is untouched by
/// their debit.
pub proof fn lemma_debit_untouched(rs: Seq<ResModel>, inputs: Seq<Entry>, k: int, r: usize)
    requires
        0 <= k <= inputs.len(),
        entries_wf(inputs, rs.len() as int, 0, false),
        forall|m: int| 0 <= m < k ==> (#[trigger] inputs[m]).target != Target::Res(r),
        r < rs.len(),
    ensures
        spec_debit_pool_inputs(rs, inputs, k).len() == rs.len(),
        spec_debit_pool_inputs(rs, inputs, k)[r as int] == rs[r as int],
    decreases k,
{
    if k > 0 {
        lemma_debit_untouched(rs, inputs, k - 1, r);
    }
}

/// Debiting the inputs of a feasible pool only lowers amounts, never below
/// zero, changes nothing else, and keeps every resource well-formed.
pub proof fn lemma_debit_inputs_props(rs: Seq<ResModel>, inputs: Seq<Entry>, k: int)
    requires
        0 <= k <= inputs.len(),
        forall|i: int| 0 <= i < rs.len() ==> res_wf(#[trigger] rs[i]),
        entries_wf(inputs, rs.len() as int, 0, false),
        spec_pool_feasible(rs, inputs),
    ensures
        spec_debit_pool_inputs(rs, inputs, k).len() == rs.len(),
        forall|i: int|
            0 <= i < rs.len() ==> (#[trigger] spec_debit_pool_inputs(rs, inputs, k)[i])
                == (ResModel { amount: spec_debit_pool_inputs(rs, inputs, k)[i].amount, ..rs[i] }),
        forall|i: int|
            0 <= i < rs.len() ==> (#[trigger] spec_debit_pool_inputs(rs, inputs, k)[i]).amount
                <= rs[i].amount,
        forall|i: int|
            0 <= i < rs.len() ==> ((#[trigger] spec_debit_pool_inputs(rs, inputs, k)[i]).amount
                >= 0 || spec_debit_pool_inputs(rs, inputs, k)[i].amount == rs[i].amount),
        forall|i: int|
            0 <= i < rs.len() ==> res_wf(#[trigger] spec_debit_pool_inputs(rs, inputs, k)[i]),
    decreases k,
{
    if k > 0 {
        lemma_debit_inputs_props(rs, inputs, k - 1);
        match inputs[k - 1].target {
            Target::Res(r) => {
                assert(forall|m: int|
                    0 <= m < k - 1 ==> (#[trigger] inputs[m]).target != Target::Res(r));
                lemma_debit_untouched(rs, inputs, k - 1, r);
                assert(spec_input_satisfied(rs, inputs[k - 1]));
            },
            _ => {},
        }
    }
}

/// Pre-reservation only lowers amounts (never below zero unless they
/// already were), touches only amounts and pool accumulators, and keeps
/// everything well-formed. Pools before `k` hold a full or empty
/// reservation; pools from `k` on are untouched.
pub proof fn lemma_reserve_pools_props(rs: Seq<ResModel>, pools: Seq<PoolModel>, k: int)
    requires
        0 <= k <= pools.len(),
        forall|i: int| 0 <= i < rs.len() ==> res_wf(#[trigger] rs[i]),
        forall|j: int| 0 <= j < pools.len() ==> pool_wf(#[trigger] pools[j], rs.len() as int),
    ensures
        spec_reserve_pools(rs, pools, k).0.len() == rs.len(),
        spec_reserve_pools(rs, pools, k).1.len() == pools.len(),
        forall|i: int|
            0 <= i < rs.len() ==> (#[trigger] spec_reserve_pools(rs, pools, k).0[i]) == (ResModel {
                amount: spec_reserve_pools(rs, pools, k).0[i].amount,
                ..rs[i]
            }),
        forall|i: int|
            0 <= i < rs.len() ==> (#[trigger] spec_reserve_pools(rs, pools, k).0[i]).amount
                <= rs[i].amount,
        forall|i: int|
            0 <= i < rs.len() ==> ((#[trigger] spec_reserve_pools(rs, pools, k).0[i]).amount >= 0
                || spec_reserve_pools(rs, pools, k).0[i].amount == rs[i].amount),
        forall|i: int|
            0 <= i < rs.len() ==> res_wf(#[trigger] spec_reserve_pools(rs, pools, k).0[i]),
        forall|m: int|
            0 <= m < k ==> (#[trigger] spec_reserve_pools(rs, pools, k).1[m]) == (PoolModel {
                acc: spec_reserve_pools(rs, pools, k).1[m].acc,
                ..pools[m]
            }),
        forall|m: int|
            0 <= m < k ==> ((#[trigger] spec_reserve_pools(rs, pools, k).1[m]).acc == 0
                || spec_reserve_pools(rs, pools, k).1[m].acc == -pools[m].on_use),
        forall|m: int|
            k <= m < pools.len() ==> (#[trigger] spec_reserve_pools(rs, pools, k).1[m])
                == pools[m],
        forall|m: int|
            0 <= m < pools.len() ==> pool_wf(
                #[trigger] spec_reserve_pools(rs, pools, k).1[m],
                rs.len() as int,
            ),
    decreases k,
{
    if k > 0 {
        lemma_reserve_pools_props(rs, pools, k - 1);
        let (r1, p1) = spec_reserve_pools(rs, pools, k - 1);
        if spec_pool_feasible(r1, pools[k - 1].input) {
            lemma_debit_inputs_props(r1, pools[k - 1].input, pools[k - 1].input.len() as int);
        }
    }
}

/// Applying the first `k` input entries of a rule invoked `n` times: a
/// ledger resource is debited and its decay queue charged for the consumed
/// quantity; a pool draw moves the accumulator toward zero; an unknown name
/// does nothing (such a rule never runs anyway).
pub open spec fn spec_apply_inputs(
    rs: Seq<ResModel>,
    pools: Seq<PoolModel>,
    es: Seq<Entry>,
    n: int,
    k: int,
) -> (Seq<ResModel>, Seq<PoolModel>)
    decreases k,
{
    if k <= 0 {
        (rs, pools)
    } else {
        let (r1, p1) = spec_apply_inputs(rs, pools, es, n, k - 1);
        let e = es[k - 1];
        match e.target {
            Target::Res(r) => (
                r1.update(
                    r as int,
                    ResModel {
                        amount: r1[r as int].amount - e.qty * n,
                        queue: crate::resource::spec_deduct(r1[r as int].queue, e.qty * n),
                        ..r1[r as int]
                    },
                ),
                p1,
            ),
            Target::Pool(p) => (
                r1,
                p1.update(
                    p as int,
                    PoolModel { acc: p1[p as int].acc + e.qty * n, ..p1[p as int] },
                ),
            ),
            Target::Missing => (r1, p1),
        }
    }
}

/// Applying the first `k` catalyst entries: the required quantities are
/// reserved (not consumed) for the rest of the tick.
pub open spec fn spec_apply_catalysts(rs: Seq<ResModel>, es: Seq<Entry>, n: int, k: int) -> Seq<
    ResModel,
>
    decreases k,
{
    if k <= 0 {
        rs
    } else {
        let r1 = spec_apply_catalysts(rs, es, n, k - 1);
        let e = es[k - 1];
        match e.target {
            Target::Res(r) => r1.update(
                r as int,
                ResModel { reserved: r1[r as int].reserved + e.qty * n, ..r1[r as int] },
            ),
            _ => r1,
        }
    }
}

/// Applying the first `k` output entries: each produced quantity is
/// credited, scheduling its decay if the resource has a finite lifetime.
pub open spec fn spec_apply_outputs(
    rs: Seq<ResModel>,
    es: Seq<Entry>,
    n: int,
    now: int,
    k: int,
) -> Seq<ResModel>
    decreases k,
{
    if k <= 0 {
        rs
    } else {
        let r1 = spec_apply_outputs(rs, es, n, now, k - 1);
        let e = es[k - 1];
        match e.target {
            Target::Res(r) => r1.update(
                r as int,
                crate::resource::spec_credit(r1[r as int], e.qty * n, now),
            ),
            _ => r1,
        }
    }
}

/// One rule fired `n` times: inputs are debited, then catalysts reserved,
/// then outputs credited.
pub open spec fn spec_apply_process(
    rs: Seq<ResModel>,
    pools: Seq<PoolModel>,
    p: ProcModel,
    n: int,
    now: int,
) -> (Seq<ResModel>, Seq<PoolModel>) {
    let (r1, p1) = spec_apply_inputs(rs, pools, p.input, n, p.input.len() as int);
    let r2 = spec_apply_catalysts(r1, p.catalyst, n, p.catalyst.len() as int);
    let r3 = spec_apply_outputs(r2, p.output, n, now, p.output.len() as int);
    (r3, p1)
}

/// The execution phase: the first `k` rules, in registry order, each fire
/// as many times as the state they observe admits.
pub open spec fn spec_run_processes(
    rs: Seq<ResModel>,
    pools: Seq<PoolModel>,
    procs: Seq<ProcModel>,
    now: int,
    k: int,
) -> (Seq<ResModel>, Seq<PoolModel>)
    decreases k,
{
    if k <= 0 {
        (rs, pools)
    } else {
        let (r1, p1) = spec_run_processes(rs, pools, procs, now, k - 1);
        let n = crate::throughput::spec_times(r1, p1, procs[k - 1], now);
        if n > 0 {
            spec_apply_process(r1, p1, procs[k - 1], n, now)
        } else {
            (r1, p1)
        }
    }
}

/// Refunding the unspent fraction of a reserved pool to the first `k` of
/// its own inputs: each input resource receives back its share
/// `qty * refund / on_use` of the unspent budget `refund = -acc`,
/// proportionally to its unit ratio (integer division, rounding down).
pub open spec fn spec_settle_refunds(
    rs: Seq<ResModel>,
    inputs: Seq<Entry>,
    acc: int,
    cap: int,
    k: int,
) -> Seq<ResModel>
    decreases k,
{
    if k <= 0 {
        rs
    } else {
        let prev = spec_settle_refunds(rs, inputs, acc, cap, k - 1);
        match inputs[k - 1].target {
            Target::Res(r) => prev.update(
                r as int,
                ResModel {
                    amount: crate::resource::spec_clip(
                        prev[r as int].amount + inputs[k - 1].qty * (-acc) / cap,
                    ),
                    ..prev[r as int]
                },
            ),
            _ => prev,
        }
    }
}

/// Settlement of one pool: the unspent budget flows back to its inputs and
/// the drawn quantity `on_use + acc` is added to the utilization
/// accumulator. A pool that was never reserved (`acc == 0`) refunds nothing
/// and records its whole budget.
pub open spec fn spec_settle_pool(rs: Seq<ResModel>, p: PoolModel) -> (Seq<ResModel>, PoolModel) {
    (
        spec_settle_refunds(rs, p.input, p.acc, p.on_use, p.input.len() as int),
        PoolModel { acc_writer: p.acc_writer + p.acc + p.on_use, ..p },
    )
}

/// Settlement of the first `k` pools, in registry order.
pub open spec fn spec_settle_pools(rs: Seq<ResModel>, pools: Seq<PoolModel>, k: int) -> (
    Seq<ResModel>,
    Seq<PoolModel>,
)
    decreases k,
{
    if k <= 0 {
        (rs, pools)
    } else {
        let (r1, p1) = spec_settle_pools(rs, pools, k - 1);
        let (r2, pk) = spec_settle_pool(r1, pools[k - 1]);
        (r2, p1.update(k - 1, pk))
    }
}

/// A refund share is between zero and the input's own quantity.
pub proof fn lemma_refund_share_bounds(qty: int, acc: int, cap: int)
    requires
        0 <= qty,
        1 <= cap,
        -cap <= acc <= 0,
    ensures
        0 <= qty * (-acc) / cap <= qty,
{
    vstd::arithmetic::div_mod::lemma_div_pos_is_pos(qty * (-acc), cap);
    assert(qty * (-acc) >= 0) by (nonlinear_arith)
        requires
            qty >= 0,
            -acc >= 0,
    ;
    assert(qty * (-acc) <= qty * cap) by (nonlinear_arith)
        requires
            qty >= 0,
            -acc <= cap,
    ;
    vstd::arithmetic::div_mod::lemma_div_is_ordered(qty * (-acc), qty * cap, cap);
    vstd::arithmetic::div_mod::lemma_div_by_multiple(qty, cap);
}

/// Refunds only raise amounts (saturating at the representable band),
/// change nothing else, and keep every resource well-formed.
pub proof fn lemma_settle_refunds_props(
    rs: Seq<ResModel>,
    inputs: Seq<Entry>,
    acc: int,
    cap: int,
    k: int,
)
    requires
        0 <= k <= inputs.len(),
        1 <= cap,
        -cap <= acc <= 0,
        forall|i: int| 0 <= i < rs.len() ==> res_wf(#[trigger] rs[i]),
        entries_wf(inputs, rs.len() as int, 0, false),
    ensures
        spec_settle_refunds(rs, inputs, acc, cap, k).len() == rs.len(),
        forall|i: int|
            0 <= i < rs.len() ==> (#[trigger] spec_settle_refunds(rs, inputs, acc, cap, k)[i])
                == (ResModel {
                amount: spec_settle_refunds(rs, inputs, acc, cap, k)[i].amount,
                ..rs[i]
            }),
        forall|i: int|
            0 <= i < rs.len() ==> (#[trigger] spec_settle_refunds(
                rs,
                inputs,
                acc,
                cap,
                k,
            )[i]).amount >= rs[i].amount,
        forall|i: int|
            0 <= i < rs.len() ==> res_wf(#[trigger] spec_settle_refunds(rs, inputs, acc, cap, k)[i]),
    decreases k,
{
    if k > 0 {
        lemma_settle_refunds_props(rs, inputs, acc, cap, k - 1);
        match inputs[k - 1].target {
            Target::Res(r) => {
                lemma_refund_share_bounds(inputs[k - 1].qty as int, acc, cap);
            },
            _ => {},
        }
    }
}

/// Settlement only raises amounts, only moves utilization accumulators (by
/// the drawn quantity, between zero and the budget), and keeps everything
/// well-formed. Pools from `k` on are untouched.
pub proof fn lemma_settle_pools_props(rs: Seq<ResModel>, pools: Seq<PoolModel>, k: int)
    requires
        0 <= k <= pools.len(),
        forall|i: int| 0 <= i < rs.len() ==> res_wf(#[trigger] rs[i]),
        forall|j: int| 0 <= j < pools.len() ==> pool_wf(#[trigger] pools[j], rs.len() as int),
    ensures
        spec_settle_pools(rs, pools, k).0.len() == rs.len(),
        spec_settle_pools(rs, pools, k).1.len() == pools.len(),
        forall|i: int|
            0 <= i < rs.len() ==> (#[trigger] spec_settle_pools(rs, pools, k).0[i]) == (ResModel {
                amount: spec_settle_pools(rs, pools, k).0[i].amount,
                ..rs[i]
            }),
        forall|i: int|
            0 <= i < rs.len() ==> (#[trigger] spec_settle_pools(rs, pools, k).0[i]).amount
                >= rs[i].amount,
        forall|i: int|
            0 <= i < rs.len() ==> res_wf(#[trigger] spec_settle_pools(rs, pools, k).0[i]),
        forall|j: int|
            0 <= j < k ==> (#[trigger] spec_settle_pools(rs, pools, k).1[j]) == (PoolModel {
                acc_writer: pools[j].acc_writer + pools[j].acc + pools[j].on_use,
                ..pools[j]
            }),
        forall|j: int|
            k <= j < pools.len() ==> (#[trigger] spec_settle_pools(rs, pools, k).1[j]) == pools[j],
        forall|j: int|
            0 <= j < pools.len() ==> pool_wf(
                #[trigger] spec_settle_pools(rs, pools, k).1[j],
                rs.len() as int,
            ),
    decreases k,
{
    if k > 0 {
        lemma_settle_pools_props(rs, pools, k - 1);
        let (r1, p1) = spec_settle_pools(rs, pools, k - 1);
        lemma_settle_refunds_props(
            r1,
            pools[k - 1].input,
            pools[k - 1].acc,
            pools[k - 1].on_use,
            pools[k - 1].input.len() as int,
        );
    }
}

/// One whole tick: decay, pool pre-reservation, catalyst-scratch reset,
/// process execution, pool settlement, statistics update — in that fixed
/// order. The clock itself advances outside, in [`Simulation::run`].
pub open spec fn spec_tick(s: SimModel) -> SimModel {
    let r1 = spec_decay_all(s.resources, s.time);
    let (r2, p2) = spec_reserve_pools(r1, s.pools, s.pools.len() as int);
    let r3 = spec_reset_all(r2);
    let (r4, p4) = spec_run_processes(r3, p2, s.processes, s.time, s.processes.len() as int);
    let (r5, p5) = spec_settle_pools(r4, p4, p4.len() as int);
    let r6 = r5.map_values(|r: ResModel| spec_tick_stats(r));
    SimModel { resources: r6, pools: p5, ..s }
}

/// Decaying every resource keeps each well-formed, touches only amounts
/// and queues, only lowers amounts, and leaves only entries that were
/// already in the queue.
pub proof fn lemma_decay_all_props(rs: Seq<ResModel>, now: int)
    requires
        forall|i: int| 0 <= i < rs.len() ==> res_wf(#[trigger] rs[i]),
    ensures
        spec_decay_all(rs, now).len() == rs.len(),
        forall|i: int| 0 <= i < rs.len() ==> res_wf(#[trigger] spec_decay_all(rs, now)[i]),
        forall|i: int|
            0 <= i < rs.len() ==> (#[trigger] spec_decay_all(rs, now)[i]) == (ResModel {
                amount: spec_decay_all(rs, now)[i].amount,
                queue: spec_decay_all(rs, now)[i].queue,
                ..rs[i]
            }),
        forall|i: int|
            0 <= i < rs.len() ==> (#[trigger] spec_decay_all(rs, now)[i]).amount <= rs[i].amount,
        forall|i: int, kk: int|
            0 <= i < rs.len() && 0 <= kk < spec_decay_all(rs, now)[i].queue.len() ==> exists|m: int|
                0 <= m < rs[i].queue.len() && (#[trigger] spec_decay_all(rs, now)[i].queue[kk])
                    == rs[i].queue[m],
{
    assert forall|i: int| 0 <= i < rs.len() implies res_wf(#[trigger] spec_decay_all(rs, now)[i])
        && spec_decay_all(rs, now)[i] == (ResModel {
        amount: spec_decay_all(rs, now)[i].amount,
        queue: spec_decay_all(rs, now)[i].queue,
        ..rs[i]
    }) && spec_decay_all(rs, now)[i].amount <= rs[i].amount by {
        lemma_spec_decay(rs[i], now);
    }
    assert forall|i: int, kk: int|
        0 <= i < rs.len() && 0 <= kk < spec_decay_all(rs, now)[i].queue.len() implies exists|m: int|
        0 <= m < rs[i].queue.len() && (#[trigger] spec_decay_all(rs, now)[i].queue[kk])
            == rs[i].queue[m] by {
        lemma_spec_decay(rs[i], now);
        let k = choose|k: int|
            0 <= k <= rs[i].queue.len() && spec_decay(rs[i], now).queue == rs[i].queue.skip(k);
        assert(spec_decay_all(rs, now)[i].queue[kk] == rs[i].queue[kk + k]);
    }
}

/// The execution phase keeps every resource well-formed, touches only
/// amounts, queues and reservations, keeps every queue entry expiring at
/// most one lifetime after `now`, only raises an amount to at most its
/// capacity, and touches pools only by moving their accumulators toward
/// zero.
pub proof fn lemma_run_processes_props(
    rs: Seq<ResModel>,
    pools: Seq<PoolModel>,
    procs: Seq<ProcModel>,
    now: int,
    k: int,
)
    requires
        0 <= k <= procs.len(),
        0 <= now <= TIME_CAP,
        forall|i: int| 0 <= i < rs.len() ==> res_wf(#[trigger] rs[i]),
        forall|j: int| 0 <= j < pools.len() ==> pool_wf(#[trigger] pools[j], rs.len() as int),
        forall|j: int|
            0 <= j < procs.len() ==> proc_wf(#[trigger] procs[j], rs.len() as int, pools.len() as int),
        forall|i: int, kk: int|
            0 <= i < rs.len() && 0 <= kk < rs[i].queue.len() ==> (
            #[trigger] rs[i].queue[kk]).0 <= now + rs[i].life,
    ensures
        spec_run_processes(rs, pools, procs, now, k).0.len() == rs.len(),
        spec_run_processes(rs, pools, procs, now, k).1.len() == pools.len(),
        forall|i: int|
            0 <= i < rs.len() ==> (#[trigger] spec_run_processes(rs, pools, procs, now, k).0[i])
                == (ResModel {
                amount: spec_run_processes(rs, pools, procs, now, k).0[i].amount,
                queue: spec_run_processes(rs, pools, procs, now, k).0[i].queue,
                reserved: spec_run_processes(rs, pools, procs, now, k).0[i].reserved,
                ..rs[i]
            }),
        forall|i: int|
            0 <= i < rs.len() ==> res_wf(
                #[trigger] spec_run_processes(rs, pools, procs, now, k).0[i],
            ),
        forall|i: int|
            0 <= i < rs.len() ==> ((#[trigger] spec_run_processes(
                rs,
                pools,
                procs,
                now,
                k,
            ).0[i]).amount <= rs[i].amount || spec_run_processes(rs, pools, procs, now, k).0[i].amount
                <= rs[i].max),
        forall|i: int, kk: int|
            0 <= i < rs.len() && 0 <= kk < spec_run_processes(rs, pools, procs, now, k).0[i].queue.len()
                ==> (#[trigger] spec_run_processes(rs, pools, procs, now, k).0[i].queue[kk]).0
                <= now + rs[i].life,
        forall|j: int|
            0 <= j < pools.len() ==> (#[trigger] spec_run_processes(rs, pools, procs, now, k).1[j])
                == (PoolModel {
                acc: spec_run_processes(rs, pools, procs, now, k).1[j].acc,
                ..pools[j]
            }),
        forall|j: int|
            0 <= j < pools.len() ==> pool_wf(
                #[trigger] spec_run_processes(rs, pools, procs, now, k).1[j],
                rs.len() as int,
            ),
        forall|j: int|
            0 <= j < pools.len() ==> (#[trigger] spec_run_processes(rs, pools, procs, now, k).1[j]).acc
                >= pools[j].acc,
    decreases k,
{
    if k > 0 {
        lemma_run_processes_props(rs, pools, procs, now, k - 1);
        let (r1, p1) = spec_run_processes(rs, pools, procs, now, k - 1);
        let p = procs[k - 1];
        let n = crate::throughput::spec_times(r1, p1, p, now);
        if n > 0 {
            crate::throughput::lemma_times_le_bounds(r1, p1, p, now);
            lemma_apply_inputs_props(r1, p1, p.input, n, p.input.len() as int);
            let (rx, px) = spec_apply_inputs(r1, p1, p.input, n, p.input.len() as int);
            lemma_apply_catalysts_props(r1, rx, p.catalyst, n, p.catalyst.len() as int);
            let ry = spec_apply_catalysts(rx, p.catalyst, n, p.catalyst.len() as int);
            assert forall|i: int| 0 <= i < ry.len() implies (#[trigger] ry[i]).amount
                <= r1[i].amount by {}
            lemma_apply_outputs_props(r1, ry, p.output, n, now, p.output.len() as int);
        }
    }
}

/// One tick started from a well-formed state, with the clock then advanced
/// one second, is well-formed again: amounts and reservations stay in band,
/// queue entries still expire within one lifetime of the clock, and the
/// per-interval accumulators stay within one amount per elapsed tick.
pub proof fn lemma_tick_wf(s: SimModel)
    requires
        sim_wf(s),
        s.time + 1 <= TIME_CAP,
    ensures
        sim_wf(SimModel { time: s.time + 1, ..spec_tick(s) }),
        spec_tick(s).resources.len() == s.resources.len(),
        spec_tick(s).pools.len() == s.pools.len(),
        spec_tick(s).processes == s.processes,
{
    let r1 = spec_decay_all(s.resources, s.time);
    lemma_decay_all_props(s.resources, s.time);
    assert forall|i: int, kk: int|
        0 <= i < r1.len() && 0 <= kk < r1[i].queue.len() implies (#[trigger] r1[i].queue[kk]).0
        <= s.time + r1[i].life by {
        let m = choose|m: int| 0 <= m < s.resources[i].queue.len() && r1[i].queue[kk]
            == s.resources[i].queue[m];
        assert(s.resources[i].queue[m].0 <= s.time + s.resources[i].life);
    }
    lemma_reserve_pools_props(r1, s.pools, s.pools.len() as int);
    let (r2, p2) = spec_reserve_pools(r1, s.pools, s.pools.len() as int);
    let r3 = spec_reset_all(r2);
    assert(r3.len() == r2.len());
    assert(forall|i: int|
        0 <= i < r3.len() ==> (#[trigger] r3[i]) == (ResModel { reserved: 0, ..r2[i] }));
    lemma_run_processes_props(r3, p2, s.processes, s.time, s.processes.len() as int);
    let (r4, p4) = spec_run_processes(r3, p2, s.processes, s.time, s.processes.len() as int);
    lemma_settle_pools_props(r4, p4, p4.len() as int);
    let (r5, p5) = spec_settle_pools(r4, p4, p4.len() as int);
    let r6 = r5.map_values(|r: ResModel| spec_tick_stats(r));
    let t = SimModel { time: s.time + 1, ..spec_tick(s) };
    assert(t.resources == r6);
    assert forall|i: int| 0 <= i < t.resources.len() implies res_wf(#[trigger] t.resources[i])
        && (t.resources[i].queue == r4[i].queue) && (t.resources[i].life == s.resources[i].life)
        && (t.resources[i].stat_sum == s.resources[i].stat_sum + r5[i].amount) by {
        assert(r6[i] == spec_tick_stats(r5[i]));
    }
    assert forall|i: int, kk: int|
        0 <= i < t.resources.len() && 0 <= kk < t.resources[i].queue.len() implies (
    #[trigger] t.resources[i].queue[kk]).0 <= t.time + t.resources[i].life by {
        assert(r4[i].queue[kk].0 <= s.time + r3[i].life);
    }
    assert forall|i: int| 0 <= i < t.resources.len() implies -((t.time - t.last_write_time) * (
    AMOUNT_CAP as int)) <= (#[trigger] t.resources[i]).stat_sum <= (t.time - t.last_write_time) * (
    AMOUNT_CAP as int) by {
        assert(-((s.time - s.last_write_time) * (AMOUNT_CAP as int)) <= s.resources[i].stat_sum <= (
        s.time - s.last_write_time) * (AMOUNT_CAP as int));
        assert(-AMOUNT_CAP <= r5[i].amount <= AMOUNT_CAP);
        assert((t.time - t.last_write_time) * (AMOUNT_CAP as int) == (s.time - s.last_write_time) * (
        AMOUNT_CAP as int) + AMOUNT_CAP) by (nonlinear_arith)
            requires
                t.time == s.time + 1,
                t.last_write_time == s.last_write_time,
        ;
    }
    assert forall|j: int| 0 <= j < t.pools.len() implies pool_wf(#[trigger] t.pools[j], t.resources.len() as int)
        && 0 <= t.pools[j].acc_writer <= (t.time - t.last_write_time) * (AMOUNT_CAP as int) by {
        assert(t.pools[j] == p5[j]);
        assert(p5[j] == (PoolModel {
            acc_writer: p4[j].acc_writer + p4[j].acc + p4[j].on_use,
            ..p4[j]
        }));
        assert(p4[j].acc_writer == s.pools[j].acc_writer);
        assert(0 <= p4[j].acc + p4[j].on_use <= AMOUNT_CAP);
        assert(0 <= s.pools[j].acc_writer <= (s.time - s.last_write_time) * (AMOUNT_CAP as int));
        assert((t.time - t.last_write_time) * (AMOUNT_CAP as int) == (s.time - s.last_write_time) * (
        AMOUNT_CAP as int) + AMOUNT_CAP) by (nonlinear_arith)
            requires
                t.time == s.time + 1,
                t.last_write_time == s.last_write_time,
        ;
    }
}

/// A ledger index that none of the first `k` input entries targets is left
/// alone by their application; likewise the registry lists keep their
/// lengths.
pub proof fn lemma_apply_inputs_untouched_res(
    rs: Seq<ResModel>,
    pools: Seq<PoolModel>,
    es: Seq<Entry>,
    n: int,
    k: int,
    r: usize,
)
    requires
        0 <= k <= es.len(),
        entries_wf(es, rs.len() as int, pools.len() as int, true),
        forall|m: int| 0 <= m < k ==> (#[trigger] es[m]).target != Target::Res(r),
        r < rs.len(),
    ensures
        spec_apply_inputs(rs, pools, es, n, k).0.len() == rs.len(),
        spec_apply_inputs(rs, pools, es, n, k).1.len() == pools.len(),
        spec_apply_inputs(rs, pools, es, n, k).0[r as int] == rs[r as int],
    decreases k,
{
    if k > 0 {
        lemma_apply_inputs_untouched_res(rs, pools, es, n, k - 1, r);
    }
}

/// A pool index that none of the first `k` input entries draws on keeps its
/// accumulator.
pub proof fn lemma_apply_inputs_untouched_pool(
    rs: Seq<ResModel>,
    pools: Seq<PoolModel>,
    es: Seq<Entry>,
    n: int,
    k: int,
    p: usize,
)
    requires
        0 <= k <= es.len(),
        entries_wf(es, rs.len() as int, pools.len() as int, true),
        forall|m: int| 0 <= m < k ==> (#[trigger] es[m]).target != Target::Pool(p),
        p < pools.len(),
    ensures
        spec_apply_inputs(rs, pools, es, n, k).0.len() == rs.len(),
        spec_apply_inputs(rs, pools, es, n, k).1.len() == pools.len(),
        spec_apply_inputs(rs, pools, es, n, k).1[p as int] == pools[p as int],
    decreases k,
{
    if k > 0 {
        lemma_apply_inputs_untouched_pool(rs, pools, es, n, k - 1, p);
    }
}

/// As above, for the catalyst application.
pub proof fn lemma_apply_catalysts_untouched(
    rs: Seq<ResModel>,
    es: Seq<Entry>,
    n: int,
    k: int,
    r: usize,
)
    requires
        0 <= k <= es.len(),
        entries_wf(es, rs.len() as int, 0, false),
        forall|m: int| 0 <= m < k ==> (#[trigger] es[m]).target != Target::Res(r),
        r < rs.len(),
    ensures
        spec_apply_catalysts(rs, es, n, k).len() == rs.len(),
        spec_apply_catalysts(rs, es, n, k)[r as int] == rs[r as int],
    decreases k,
{
    if k > 0 {
        lemma_apply_catalysts_untouched(rs, es, n, k - 1, r);
    }
}

/// As above, for the output application.
pub proof fn lemma_apply_outputs_untouched(
    rs: Seq<ResModel>,
    es: Seq<Entry>,
    n: int,
    now: int,
    k: int,
    r: usize,
)
    requires
        0 <= k <= es.len(),
        entries_wf(es, rs.len() as int, 0, false),
        forall|m: int| 0 <= m < k ==> (#[trigger] es[m]).target != Target::Res(r),
        r < rs.len(),
    ensures
        spec_apply_outputs(rs, es, n, now, k).len() == rs.len(),
        spec_apply_outputs(rs, es, n, now, k)[r as int] == rs[r as int],
    decreases k,
{
    if k > 0 {
        lemma_apply_outputs_untouched(rs, es, n, now, k - 1, r);
    }
}

/// Input application only lowers amounts (staying at or above the committed
/// reservation where it debits), charges decay queues without moving their
/// expiries, moves pool accumulators toward zero, and keeps everything
/// well-formed.
pub proof fn lemma_apply_inputs_props(
    rs: Seq<ResModel>,
    pools: Seq<PoolModel>,
    es: Seq<Entry>,
    n: int,
    k: int,
)
    requires
        0 <= k <= es.len(),
        n >= 1,
        forall|i: int| 0 <= i < rs.len() ==> res_wf(#[trigger] rs[i]),
        forall|j: int| 0 <= j < pools.len() ==> pool_wf(#[trigger] pools[j], rs.len() as int),
        entries_wf(es, rs.len() as int, pools.len() as int, true),
        forall|m: int|
            0 <= m < es.len() ==> n <= crate::throughput::spec_input_bound(
                rs,
                pools,
                #[trigger] es[m],
            ),
    ensures
        spec_apply_inputs(rs, pools, es, n, k).0.len() == rs.len(),
        spec_apply_inputs(rs, pools, es, n, k).1.len() == pools.len(),
        forall|i: int|
            0 <= i < rs.len() ==> (#[trigger] spec_apply_inputs(rs, pools, es, n, k).0[i])
                == (ResModel {
                amount: spec_apply_inputs(rs, pools, es, n, k).0[i].amount,
                queue: spec_apply_inputs(rs, pools, es, n, k).0[i].queue,
                ..rs[i]
            }),
        forall|i: int|
            0 <= i < rs.len() ==> (#[trigger] spec_apply_inputs(rs, pools, es, n, k).0[i]).amount
                <= rs[i].amount,
        forall|i: int|
            0 <= i < rs.len() ==> ((#[trigger] spec_apply_inputs(rs, pools, es, n, k).0[i]).amount
                >= 0 || spec_apply_inputs(rs, pools, es, n, k).0[i].amount == rs[i].amount),
        forall|i: int|
            0 <= i < rs.len() ==> res_wf(#[trigger] spec_apply_inputs(rs, pools, es, n, k).0[i]),
        forall|i: int|
            0 <= i < rs.len() ==> (#[trigger] spec_apply_inputs(rs, pools, es, n, k).0[i]).queue.len()
                == rs[i].queue.len(),
        forall|i: int, kk: int|
            0 <= i < rs.len() && 0 <= kk < rs[i].queue.len() ==> (#[trigger] spec_apply_inputs(
                rs,
                pools,
                es,
                n,
                k,
            ).0[i].queue[kk]).0 == rs[i].queue[kk].0,
        forall|j: int|
            0 <= j < pools.len() ==> (#[trigger] spec_apply_inputs(rs, pools, es, n, k).1[j])
                == (PoolModel {
                acc: spec_apply_inputs(rs, pools, es, n, k).1[j].acc,
                ..pools[j]
            }),
        forall|j: int|
            0 <= j < pools.len() ==> pools[j].acc <= (#[trigger] spec_apply_inputs(
                rs,
                pools,
                es,
                n,
                k,
            ).1[j]).acc <= 0,
        forall|j: int|
            0 <= j < pools.len() ==> pool_wf(
                #[trigger] spec_apply_inputs(rs, pools, es, n, k).1[j],
                rs.len() as int,
            ),
    decreases k,
{
    if k > 0 {
        lemma_apply_inputs_props(rs, pools, es, n, k - 1);
        let (r1, p1) = spec_apply_inputs(rs, pools, es, n, k - 1);
        let e = es[k - 1];
        match e.target {
            Target::Res(r) => {
                assert(forall|m: int|
                    0 <= m < k - 1 ==> (#[trigger] es[m]).target != Target::Res(r));
                lemma_apply_inputs_untouched_res(rs, pools, es, n, k - 1, r);
                assert(n <= crate::throughput::spec_input_bound(rs, pools, e));
                crate::throughput::lemma_mul_within(
                    rs[r as int].amount - rs[r as int].reserved,
                    e.qty as int,
                    n,
                );
                crate::resource::lemma_spec_deduct_props(rs[r as int].queue, e.qty * n);
                let v = ResModel {
                    amount: r1[r as int].amount - e.qty * n,
                    queue: crate::resource::spec_deduct(r1[r as int].queue, e.qty * n),
                    ..r1[r as int]
                };
                crate::resource::lemma_queue_shrunk_wf(
                    ResModel { amount: v.amount, ..rs[r as int] },
                    v.queue,
                );
                assert(res_wf(v));
            },
            Target::Pool(p) => {
                assert(forall|m: int|
                    0 <= m < k - 1 ==> (#[trigger] es[m]).target != Target::Pool(p));
                lemma_apply_inputs_untouched_pool(rs, pools, es, n, k - 1, p);
                assert(n <= crate::throughput::spec_input_bound(rs, pools, e));
                crate::throughput::lemma_mul_within(-pools[p as int].acc, e.qty as int, n);
            },
            Target::Missing => {},
        }
    }
}

/// Catalyst application only raises reservation counters, never beyond the
/// stock that backed them when the invocation count was computed, and keeps
/// everything well-formed. `rs0` is the state the bounds were computed
/// against; `rsx` the state after the input debits, whose reservations still
/// match `rs0`.
pub proof fn lemma_apply_catalysts_props(
    rs0: Seq<ResModel>,
    rsx: Seq<ResModel>,
    es: Seq<Entry>,
    n: int,
    k: int,
)
    requires
        0 <= k <= es.len(),
        n >= 1,
        rsx.len() == rs0.len(),
        forall|i: int| 0 <= i < rs0.len() ==> res_wf(#[trigger] rs0[i]),
        forall|i: int| 0 <= i < rsx.len() ==> res_wf(#[trigger] rsx[i]),
        forall|i: int| 0 <= i < rsx.len() ==> (#[trigger] rsx[i]).reserved == rs0[i].reserved,
        entries_wf(es, rs0.len() as int, 0, false),
        forall|m: int|
            0 <= m < es.len() ==> n <= crate::throughput::spec_catalyst_bound(
                rs0,
                #[trigger] es[m],
            ),
    ensures
        spec_apply_catalysts(rsx, es, n, k).len() == rsx.len(),
        forall|i: int|
            0 <= i < rsx.len() ==> (#[trigger] spec_apply_catalysts(rsx, es, n, k)[i])
                == (ResModel {
                reserved: spec_apply_catalysts(rsx, es, n, k)[i].reserved,
                ..rsx[i]
            }),
        forall|i: int|
            0 <= i < rsx.len() ==> rsx[i].reserved <= (#[trigger] spec_apply_catalysts(
                rsx,
                es,
                n,
                k,
            )[i]).reserved <= AMOUNT_CAP,
        forall|i: int|
            0 <= i < rsx.len() ==> res_wf(#[trigger] spec_apply_catalysts(rsx, es, n, k)[i]),
    decreases k,
{
    if k > 0 {
        lemma_apply_catalysts_props(rs0, rsx, es, n, k - 1);
        let e = es[k - 1];
        match e.target {
            Target::Res(r) => {
                assert(forall|m: int|
                    0 <= m < k - 1 ==> (#[trigger] es[m]).target != Target::Res(r));
                lemma_apply_catalysts_untouched(rsx, es, n, k - 1, r);
                assert(n <= crate::throughput::spec_catalyst_bound(rs0, e));
                crate::throughput::lemma_mul_within(
                    rs0[r as int].amount - rs0[r as int].reserved,
                    e.qty as int,
                    n,
                );
            },
            _ => {},
        }
    }
}

/// Output application only raises amounts, and a raised amount stays at or
/// under the capacity the bound was computed against; queue entries are only
/// appended, each expiring one lifetime after `now`. `rs0` is the state the
/// bounds were computed against; `rsy` the state at application, whose
/// amounts are at or below those of `rs0`.
pub proof fn lemma_apply_outputs_props(
    rs0: Seq<ResModel>,
    rsy: Seq<ResModel>,
    es: Seq<Entry>,
    n: int,
    now: int,
    k: int,
)
    requires
        0 <= k <= es.len(),
        n >= 1,
        0 <= now <= TIME_CAP,
        rsy.len() == rs0.len(),
        forall|i: int| 0 <= i < rs0.len() ==> res_wf(#[trigger] rs0[i]),
        forall|i: int| 0 <= i < rsy.len() ==> res_wf(#[trigger] rsy[i]),
        forall|i: int| 0 <= i < rsy.len() ==> (#[trigger] rsy[i]).amount <= rs0[i].amount,
        forall|i: int|
            0 <= i < rsy.len() ==> (#[trigger] rsy[i]).max == rs0[i].max && rsy[i].life
                == rs0[i].life,
        forall|i: int, kk: int|
            0 <= i < rsy.len() && 0 <= kk < rsy[i].queue.len() ==> (
            #[trigger] rsy[i].queue[kk]).0 <= now + rsy[i].life,
        entries_wf(es, rs0.len() as int, 0, false),
        forall|m: int|
            0 <= m < es.len() ==> n <= crate::throughput::spec_output_bound(rs0, #[trigger] es[m]),
    ensures
        spec_apply_outputs(rsy, es, n, now, k).len() == rsy.len(),
        forall|i: int|
            0 <= i < rsy.len() ==> (#[trigger] spec_apply_outputs(rsy, es, n, now, k)[i])
                == (ResModel {
                amount: spec_apply_outputs(rsy, es, n, now, k)[i].amount,
                queue: spec_apply_outputs(rsy, es, n, now, k)[i].queue,
                ..rsy[i]
            }),
        forall|i: int|
            0 <= i < rsy.len() ==> (#[trigger] spec_apply_outputs(rsy, es, n, now, k)[i]).amount
                >= rsy[i].amount,
        forall|i: int|
            0 <= i < rsy.len() ==> ((#[trigger] spec_apply_outputs(rsy, es, n, now, k)[i]).amount
                <= rs0[i].max || spec_apply_outputs(rsy, es, n, now, k)[i].amount
                == rsy[i].amount),
        forall|i: int|
            0 <= i < rsy.len() ==> res_wf(#[trigger] spec_apply_outputs(rsy, es, n, now, k)[i]),
        forall|i: int, kk: int|
            0 <= i < rsy.len() && 0 <= kk < spec_apply_outputs(rsy, es, n, now, k)[i].queue.len()
                ==> (#[trigger] spec_apply_outputs(rsy, es, n, now, k)[i].queue[kk]).0 <= now
                + rsy[i].life,
    decreases k,
{
    if k > 0 {
        lemma_apply_outputs_props(rs0, rsy, es, n, now, k - 1);
        let r1 = spec_apply_outputs(rsy, es, n, now, k - 1);
        let e = es[k - 1];
        match e.target {
            Target::Res(r) => {
                assert(forall|m: int|
                    0 <= m < k - 1 ==> (#[trigger] es[m]).target != Target::Res(r));
                lemma_apply_outputs_untouched(rsy, es, n, now, k - 1, r);
                assert(n <= crate::throughput::spec_output_bound(rs0, e));
                crate::throughput::lemma_mul_within(
                    rs0[r as int].max - rs0[r as int].amount,
                    e.qty as int,
                    n,
                );
                let v = crate::resource::spec_credit(r1[r as int], e.qty * n, now);
                if rsy[r as int].life > 0 {
                    assert(forall|kk: int|
                        0 <= kk < v.queue.len() ==> 0 <= (#[trigger] v.queue[kk]).1 <= 2
                            * AMOUNT_CAP);
                    assert(forall|a: int, b: int|
                        0 <= a <= b < v.queue.len() ==> (#[trigger] v.queue[a]).0 <= (
                        #[trigger] v.queue[b]).0);
                }
                assert(res_wf(v));
            },
            _ => {},
        }
    }
}

impl Simulation {
    /// Phase one of a tick: decays every resource at the current time.
    fn decay_resources(&mut self)
        requires
            old(self).wf(),
        ensures
            final(self)@ == (SimModel {
                resources: spec_decay_all(old(self)@.resources, old(self)@.time),
                ..old(self)@
            }),
            forall|i: int|
                0 <= i < final(self).resources@.len() ==> (
                #[trigger] final(self).resources@[i]).wf(),
            final(self).processes == old(self).processes,
            final(self).on_use_processes == old(self).on_use_processes,
    {
        let now = self.time;
        let ghost orig = self.resources@;
        let mut i: usize = 0;
        while i < self.resources.len()
            invariant
                0 <= i <= self.resources@.len(),
                self.resources@.len() == orig.len(),
                forall|k: int| 0 <= k < orig.len() ==> (#[trigger] orig[k]).wf(),
                forall|k: int|
                    0 <= k < i ==> (#[trigger] self.resources@[k])@ == spec_decay(
                        orig[k]@,
                        now as int,
                    ),
                forall|k: int| 0 <= k < i ==> (#[trigger] self.resources@[k]).wf(),
                forall|k: int| i <= k < orig.len() ==> self.resources@[k] == orig[k],
                self.processes == old(self).processes,
                self.on_use_processes == old(self).on_use_processes,
                self.time == old(self).time,
                self.write_every == old(self).write_every,
                self.last_write_time == old(self).last_write_time,
                now == old(self).time,
            decreases self.resources@.len() - i,
        {
            proof {
                assert(self.resources@[i as int] == orig[i as int]);
                assert(orig[i as int].wf());
            }
            self.resources[i].decay(now);
            i += 1;
        }
        proof {
            assert(self@.resources =~= spec_decay_all(old(self)@.resources, old(self)@.time));
            assert(self@ =~= (SimModel {
                resources: spec_decay_all(old(self)@.resources, old(self)@.time),
                ..old(self)@
            }));
        }
    }

    /// Builds a simulation from loaded definitions: the resource ledger as
    /// given, each process's and pool's entry names resolved once against
    /// the registries (resources first, then — for process inputs — pools;
    /// unknown names resolve to nowhere and make the rule unrunnable). The
    /// clock starts at zero with reports every second; see
    /// [`Simulation::set_start_time`] and
    /// [`Simulation::set_reporting_interval`].
    pub fn new(
        resources: Vec<Resource>,
        processes: Vec<crate::process::Process>,
        on_use_processes: Vec<crate::process::Process>,
    ) -> (sim: Simulation)
        requires
            forall|i: int|
                0 <= i < resources@.len() ==> (#[trigger] resources@[i]).wf(),
            forall|i: int|
                0 <= i < resources@.len() ==> (#[trigger] resources@[i])@.queue.len() == 0
                    && resources@[i]@.stat_sum == 0,
            crate::names::names_distinct(res_names_of(resources@)),
            forall|j: int| 0 <= j < processes@.len() ==> (#[trigger] processes@[j]).wf(),
            forall|j: int|
                0 <= j < on_use_processes@.len() ==> (#[trigger] on_use_processes@[j]).wf()
                    && on_use_processes@[j].on_use >= 1,
            crate::names::names_distinct(def_names_of(on_use_processes@)),
        ensures
            sim.wf(),
            sim@.time == 0,
            sim@.write_every == 1,
            sim@.last_write_time == 0,
            sim@.resources == resources@.map_values(|r: Resource| r@),
            sim@.processes.len() == processes@.len(),
            sim@.pools.len() == on_use_processes@.len(),
            forall|j: int|
                0 <= j < processes@.len() ==> {
                    let rp = #[trigger] sim@.processes[j];
                    let d = processes@[j];
                    &&& rp.name == d.name@
                    &&& rp.max_catalyst == d.max_catalyst as int
                    &&& rp.period == d.period as int
                    &&& rp.period_delta == d.period_delta as int
                    &&& rp.constraint == d.constraint@.map_values(|v: Vec<TimeRange>| v@)
                    &&& rp.modulo == d.constraint_modulo@
                    &&& rp.input.len() == d.input@.len()
                    &&& rp.output.len() == d.output@.len()
                    &&& rp.catalyst.len() == d.catalyst@.len()
                },
            forall|j: int, k: int|
                0 <= j < processes@.len() && 0 <= k < processes@[j].input@.len() ==> {
                    let en = #[trigger] sim@.processes[j].input[k];
                    &&& en.qty == processes@[j].input@[k].1
                    &&& resolves_to(
                        res_names_of(resources@),
                        def_names_of(on_use_processes@),
                        processes@[j].input@[k].0@,
                        en.target,
                        true,
                    )
                },
            forall|j: int, k: int|
                0 <= j < processes@.len() && 0 <= k < processes@[j].output@.len() ==> {
                    let en = #[trigger] sim@.processes[j].output[k];
                    &&& en.qty == processes@[j].output@[k].1
                    &&& resolves_to(
                        res_names_of(resources@),
                        def_names_of(on_use_processes@),
                        processes@[j].output@[k].0@,
                        en.target,
                        false,
                    )
                },
            forall|j: int, k: int|
                0 <= j < processes@.len() && 0 <= k < processes@[j].catalyst@.len() ==> {
                    let en = #[trigger] sim@.processes[j].catalyst[k];
                    &&& en.qty == processes@[j].catalyst@[k].1
                    &&& resolves_to(
                        res_names_of(resources@),
                        def_names_of(on_use_processes@),
                        processes@[j].catalyst@[k].0@,
                        en.target,
                        false,
                    )
                },
            forall|j: int|
                0 <= j < on_use_processes@.len() ==> {
                    let pl = #[trigger] sim@.pools[j];
                    let d = on_use_processes@[j];
                    &&& pl.name == d.name@
                    &&& pl.on_use == d.on_use as int
                    &&& pl.acc == 0
                    &&& pl.acc_writer == 0
                    &&& pl.input.len() == d.input@.len()
                },
            forall|j: int, k: int|
                0 <= j < on_use_processes@.len() && 0 <= k < on_use_processes@[j].input@.len()
                    ==> {
                    let en = #[trigger] sim@.pools[j].input[k];
                    &&& en.qty == on_use_processes@[j].input@[k].1
                    &&& resolves_to(
                        res_names_of(resources@),
                        def_names_of(on_use_processes@),
                        on_use_processes@[j].input@[k].0@,
                        en.target,
                        false,
                    )
                },
    {
        let ghost res_names = res_names_of(resources@);
        let ghost pool_names = def_names_of(on_use_processes@);
        proof {
            assert(resources@.map_values(|r: Resource| r) =~= resources@);
        }
        let mut res_name_vec: Vec<Vec<u8>> = Vec::new();
        let mut i: usize = 0;
        while i < resources.len()
            invariant
                0 <= i <= resources@.len(),
                res_name_vec@.len() == i,
                forall|m: int|
                    0 <= m < i ==> (#[trigger] res_name_vec@[m])@ == resources@[m].name@,
            decreases resources@.len() - i,
        {
            let nm = crate::resource::copy_bytes(&resources[i].name);
            res_name_vec.push(nm);
            i += 1;
        }
        let mut pool_name_vec: Vec<Vec<u8>> = Vec::new();
        let mut i: usize = 0;
        while i < on_use_processes.len()
            invariant
                0 <= i <= on_use_processes@.len(),
                pool_name_vec@.len() == i,
                forall|m: int|
                    0 <= m < i ==> (#[trigger] pool_name_vec@[m])@ == on_use_processes@[m].name@,
            decreases on_use_processes@.len() - i,
        {
            let nm = crate::resource::copy_bytes(&on_use_processes[i].name);
            pool_name_vec.push(nm);
            i += 1;
        }
        proof {
            assert(res_name_vec@.map_values(|v: Vec<u8>| v@) =~= res_names);
            assert(pool_name_vec@.map_values(|v: Vec<u8>| v@) =~= pool_names);
        }
        let res_map = crate::names::build_name_map(&res_name_vec);
        let pool_map = crate::names::build_name_map(&pool_name_vec);
        let ghost proc_defs = processes@;
        let mut defs = processes;
        let mut run_procs: Vec<RunProcess> = Vec::new();
        proof {
            assert(proc_defs.skip(0) =~= proc_defs);
        }
        while defs.len() > 0
            invariant
                run_procs@.len() + defs@.len() == proc_defs.len(),
                defs@ == proc_defs.skip(run_procs@.len() as int),
                crate::names::index_map_view(res_map) == crate::names::spec_names_map(
                    res_names,
                    res_names.len() as int,
                ),
                crate::names::index_map_view(pool_map) == crate::names::spec_names_map(
                    pool_names,
                    pool_names.len() as int,
                ),
                crate::names::names_distinct(res_names),
                crate::names::names_distinct(pool_names),
                res_names.len() <= usize::MAX,
                pool_names.len() <= usize::MAX,
                forall|j: int| 0 <= j < proc_defs.len() ==> (#[trigger] proc_defs[j]).wf(),
                forall|j: int|
                    0 <= j < run_procs@.len() ==> {
                        let rp = (#[trigger] run_procs@[j])@;
                        let d = proc_defs[j];
                        &&& rp.name == d.name@
                        &&& rp.max_catalyst == d.max_catalyst as int
                        &&& rp.period == d.period as int
                        &&& rp.period_delta == d.period_delta as int
                        &&& rp.constraint == d.constraint@.map_values(|v: Vec<TimeRange>| v@)
                        &&& rp.modulo == d.constraint_modulo@
                        &&& rp.input.len() == d.input@.len()
                        &&& rp.output.len() == d.output@.len()
                        &&& rp.catalyst.len() == d.catalyst@.len()
                        &&& forall|k: int|
                            0 <= k < d.input@.len() ==> (#[trigger] rp.input[k]).qty
                                == d.input@[k].1 && resolves_to(
                                res_names,
                                pool_names,
                                d.input@[k].0@,
                                rp.input[k].target,
                                true,
                            )
                        &&& forall|k: int|
                            0 <= k < d.output@.len() ==> (#[trigger] rp.output[k]).qty
                                == d.output@[k].1 && resolves_to(
                                res_names,
                                pool_names,
                                d.output@[k].0@,
                                rp.output[k].target,
                                false,
                            )
                        &&& forall|k: int|
                            0 <= k < d.catalyst@.len() ==> (#[trigger] rp.catalyst[k]).qty
                                == d.catalyst@[k].1 && resolves_to(
                                res_names,
                                pool_names,
                                d.catalyst@[k].0@,
                                rp.catalyst[k].target,
                                false,
                            )
                    },
            decreases defs@.len(),
        {
            let ghost j = run_procs@.len() as int;
            let d = defs.remove(0);
            proof {
                assert(d == proc_defs[j]);
                assert(proc_defs[j].wf());
                assert(defs@ =~= proc_defs.skip(j + 1));
            }
            let input = resolve_entries(
                &d.input,
                &res_map,
                &pool_map,
                true,
                Ghost(res_names),
                Ghost(pool_names),
            );
            let output = resolve_entries(
                &d.output,
                &res_map,
                &pool_map,
                false,
                Ghost(res_names),
                Ghost(pool_names),
            );
            let catalyst = resolve_entries(
                &d.catalyst,
                &res_map,
                &pool_map,
                false,
                Ghost(res_names),
                Ghost(pool_names),
            );
            let rp = RunProcess {
                name: d.name,
                input,
                output,
                catalyst,
                max_catalyst: d.max_catalyst,
                period: d.period,
                period_delta: d.period_delta,
                constraint: d.constraint,
                constraint_modulo: d.constraint_modulo,
            };
            run_procs.push(rp);
        }
        let ghost pool_defs = on_use_processes@;
        let mut pdefs = on_use_processes;
        let mut run_pools: Vec<RunPool> = Vec::new();
        proof {
            assert(pool_defs.skip(0) =~= pool_defs);
        }
        while pdefs.len() > 0
            invariant
                run_pools@.len() + pdefs@.len() == pool_defs.len(),
                pdefs@ == pool_defs.skip(run_pools@.len() as int),
                crate::names::index_map_view(res_map) == crate::names::spec_names_map(
                    res_names,
                    res_names.len() as int,
                ),
                crate::names::index_map_view(pool_map) == crate::names::spec_names_map(
                    pool_names,
                    pool_names.len() as int,
                ),
                crate::names::names_distinct(res_names),
                crate::names::names_distinct(pool_names),
                res_names.len() <= usize::MAX,
                pool_names.len() <= usize::MAX,
                forall|j: int|
                    0 <= j < pool_defs.len() ==> (#[trigger] pool_defs[j]).wf()
                        && pool_defs[j].on_use >= 1,
                forall|j: int|
                    0 <= j < run_pools@.len() ==> {
                        let pl = (#[trigger] run_pools@[j])@;
                        let d = pool_defs[j];
                        &&& pl.name == d.name@
                        &&& pl.on_use == d.on_use as int
                        &&& pl.acc == 0
                        &&& pl.acc_writer == 0
                        &&& pl.input.len() == d.input@.len()
                        &&& forall|k: int|
                            0 <= k < d.input@.len() ==> (#[trigger] pl.input[k]).qty
                                == d.input@[k].1 && resolves_to(
                                res_names,
                                pool_names,
                                d.input@[k].0@,
                                pl.input[k].target,
                                false,
                            )
                    },
            decreases pdefs@.len(),
        {
            let ghost j = run_pools@.len() as int;
            let d = pdefs.remove(0);
            proof {
                assert(d == pool_defs[j]);
                assert(pool_defs[j].wf() && pool_defs[j].on_use >= 1);
                assert(pdefs@ =~= pool_defs.skip(j + 1));
            }
            let input = resolve_entries(
                &d.input,
                &res_map,
                &pool_map,
                false,
                Ghost(res_names),
                Ghost(pool_names),
            );
            let pl = RunPool {
                name: d.name,
                input,
                on_use: d.on_use,
                on_use_accumulate: 0,
                on_use_accumulate_for_writer: 0,
            };
            run_pools.push(pl);
        }
        let sim = Simulation {
            resources,
            processes: run_procs,
            on_use_processes: run_pools,
            time: 0,
            write_every: 1,
            last_write_time: 0,
        };
        proof {
            assert(res_names.len() == sim@.resources.len());
            assert(pool_names.len() == sim@.pools.len());
            assert forall|j: int| 0 <= j < sim@.processes.len() implies proc_wf(
                #[trigger] sim@.processes[j],
                sim@.resources.len() as int,
                sim@.pools.len() as int,
            ) by {
                let rp = sim@.processes[j];
                let d = proc_defs[j];
                assert(rp == run_procs@[j]@);
                lemma_resolved_entries_wf(d.input@, rp.input, res_names, pool_names, true);
                lemma_resolved_entries_wf(d.output@, rp.output, res_names, pool_names, false);
                lemma_resolved_entries_wf(d.catalyst@, rp.catalyst, res_names, pool_names, false);
                assert(rp.constraint.len() == rp.modulo.len());
            }
            assert forall|j: int| 0 <= j < sim@.pools.len() implies pool_wf(
                #[trigger] sim@.pools[j],
                sim@.resources.len() as int,
            ) by {
                let pl = sim@.pools[j];
                let d = pool_defs[j];
                assert(pl == run_pools@[j]@);
                lemma_resolved_entries_wf(d.input@, pl.input, res_names, pool_names, false);
            }
            assert(sim.wf());
        }
        sim
    }

    /// Builds a simulation straight from the lines of a definition file:
    /// the parsed definitions are well-formed with distinct names, so they
    /// feed [`Simulation::new`] unconditionally. The result is fresh — no
    /// decay entries, no statistics — and ready for
    /// [`Simulation::set_start_time`].
    pub fn from_definition_lines(lines: &Vec<Vec<u8>>) -> (r: Result<
        Simulation,
        crate::parser::ParseError,
    >)
        ensures
            r matches Ok(sim) ==> {
                &&& sim.wf()
                &&& sim@.time == 0
                &&& sim@.write_every == 1
                &&& sim@.last_write_time == 0
                &&& forall|i: int|
                    0 <= i < sim@.resources.len() ==> (#[trigger] sim@.resources[i]).queue.len()
                        == 0 && sim@.resources[i].stat_sum == 0
                &&& forall|j: int|
                    0 <= j < sim@.pools.len() ==> (#[trigger] sim@.pools[j]).acc_writer == 0
            },
    {
        match crate::parser::parse_simulation_lines(lines) {
            Ok((resources, processes, on_use_processes)) => {
                let ghost rdefs = resources@;
                let sim = Simulation::new(resources, processes, on_use_processes);
                proof {
                    assert forall|i: int| 0 <= i < sim@.resources.len() implies (
                    #[trigger] sim@.resources[i]).queue.len() == 0 && sim@.resources[i].stat_sum
                        == 0 by {
                        assert(sim@.resources[i] == rdefs[i]@);
                    }
                }
                Ok(sim)
            },
            Err(e) => Err(e),
        }
    }

    /// The current state of every resource, in registry order: the
    /// structured form of the human-readable snapshot the driver prints.
    pub fn snapshot(&self) -> (r: Vec<SnapshotEntry>)
        ensures
            r@.len() == self@.resources.len(),
            forall|i: int|
                0 <= i < r@.len() ==> {
                    let e = #[trigger] r@[i];
                    &&& e.name@ == self@.resources[i].name
                    &&& e.amount == self@.resources[i].amount
                    &&& e.unit@ == self@.resources[i].unit
                    &&& e.max == self@.resources[i].max
                },
    {
        let mut r: Vec<SnapshotEntry> = Vec::new();
        let mut i: usize = 0;
        while i < self.resources.len()
            invariant
                0 <= i <= self.resources@.len(),
                r@.len() == i,
                forall|k: int|
                    0 <= k < i ==> {
                        let e = #[trigger] r@[k];
                        &&& e.name@ == self@.resources[k].name
                        &&& e.amount == self@.resources[k].amount
                        &&& e.unit@ == self@.resources[k].unit
                        &&& e.max == self@.resources[k].max
                    },
            decreases self.resources@.len() - i,
        {
            let e = SnapshotEntry {
                name: crate::resource::copy_bytes(&self.resources[i].name),
                amount: self.resources[i].amount,
                unit: crate::resource::copy_bytes(&self.resources[i].unit),
                max: self.resources[i].max,
            };
            r.push(e);
            i += 1;
        }
        r
    }

    /// Sets the clock before a run begins: both the simulated time and the
    /// report clock move to `time`. To be called on a fresh state, before
    /// any tick has produced decay entries or statistics.
    pub fn set_start_time(&mut self, time: u64)
        requires
            old(self).wf(),
            time <= TIME_CAP,
            forall|i: int|
                0 <= i < old(self)@.resources.len() ==> (#[trigger] old(self)@.resources[i]).queue.len()
                    == 0 && old(self)@.resources[i].stat_sum == 0,
            forall|j: int|
                0 <= j < old(self)@.pools.len() ==> (#[trigger] old(self)@.pools[j]).acc_writer == 0,
        ensures
            final(self).wf(),
            final(self)@ == (SimModel {
                time: time as int,
                last_write_time: time as int,
                ..old(self)@
            }),
    {
        self.time = time;
        self.last_write_time = time;
        proof {
            assert(self@ =~= (SimModel {
                time: time as int,
                last_write_time: time as int,
                ..old(self)@
            }));
            assert forall|i: int| 0 <= i < self@.resources.len() implies -((self@.time
                - self@.last_write_time) * (AMOUNT_CAP as int)) <= (
            #[trigger] self@.resources[i]).stat_sum <= (self@.time - self@.last_write_time) * (
            AMOUNT_CAP as int) by {
                assert((self@.time - self@.last_write_time) * (AMOUNT_CAP as int) == 0)
                    by (nonlinear_arith)
                    requires
                        self@.time == self@.last_write_time,
                ;
            }
            assert forall|j: int| 0 <= j < self@.pools.len() implies 0 <= (
            #[trigger] self@.pools[j]).acc_writer <= (self@.time - self@.last_write_time) * (
            AMOUNT_CAP as int) by {
                assert((self@.time - self@.last_write_time) * (AMOUNT_CAP as int) == 0)
                    by (nonlinear_arith)
                    requires
                        self@.time == self@.last_write_time,
                ;
            }
        }
    }

    /// Sets how often a reporting row is emitted, in simulated seconds.
    pub fn set_reporting_interval(&mut self, seconds: u64)
        requires
            old(self).wf(),
            seconds >= 1,
        ensures
            final(self).wf(),
            final(self)@ == (SimModel { write_every: seconds as int, ..old(self)@ }),
    {
        self.write_every = seconds;
        proof {
            assert(self@ =~= (SimModel { write_every: seconds as int, ..old(self)@ }));
        }
    }

    /// Emits the reporting row for the current state and starts the next
    /// interval: per resource the interval's min, sum, max and current
    /// amount; per pool the drawn quantity — then every accumulator resets
    /// and the report clock catches up.
    pub fn take_row(&mut self) -> (row: Row)
        requires
            old(self).wf(),
        ensures
            final(self).wf(),
            row@ == spec_row_of(old(self)@),
            final(self)@ == spec_after_report(old(self)@),
    {
        let elapsed = self.time - self.last_write_time;
        let time = self.time;
        let ghost orig = self.resources@;
        let mut stats: Vec<ResourceStat> = Vec::new();
        let mut i: usize = 0;
        while i < self.resources.len()
            invariant
                0 <= i <= orig.len(),
                self.resources@.len() == orig.len(),
                stats@.len() == i,
                forall|k: int| 0 <= k < orig.len() ==> (#[trigger] orig[k]).wf(),
                forall|k: int|
                    0 <= k < i ==> (#[trigger] stats@[k]) == (ResourceStat {
                        min: orig[k].resource_min_for_writer,
                        sum: orig[k].resource_avg_for_writer,
                        max: orig[k].resource_max_for_writer,
                        current: orig[k].amount,
                    }),
                forall|k: int|
                    0 <= k < i ==> (#[trigger] self.resources@[k])@ == (ResModel {
                        stat_min: crate::resource::STAT_MIN_INIT as int,
                        stat_max: 0,
                        stat_sum: 0,
                        ..orig[k]@
                    }),
                forall|k: int| 0 <= k < i ==> (#[trigger] self.resources@[k]).wf(),
                forall|k: int| i <= k < orig.len() ==> self.resources@[k] == orig[k],
                self.processes == old(self).processes,
                self.on_use_processes == old(self).on_use_processes,
                self.time == old(self).time,
                self.write_every == old(self).write_every,
                self.last_write_time == old(self).last_write_time,
            decreases orig.len() - i,
        {
            let ghost pre = self.resources@[i as int];
            let st = ResourceStat {
                min: self.resources[i].resource_min_for_writer,
                sum: self.resources[i].resource_avg_for_writer,
                max: self.resources[i].resource_max_for_writer,
                current: self.resources[i].amount,
            };
            stats.push(st);
            self.resources[i].resource_min_for_writer = crate::resource::STAT_MIN_INIT;
            self.resources[i].resource_max_for_writer = 0;
            self.resources[i].resource_avg_for_writer = 0;
            proof {
                assert(self.resources@[i as int]@.queue =~= pre@.queue);
                assert(self.resources@[i as int]@ =~= (ResModel {
                    stat_min: crate::resource::STAT_MIN_INIT as int,
                    stat_max: 0,
                    stat_sum: 0,
                    ..pre@
                }));
            }
            i += 1;
        }
        let ghost porig = self.on_use_processes@;
        let ghost res_after = self.resources@;
        let mut utilization: Vec<i128> = Vec::new();
        let mut j: usize = 0;
        while j < self.on_use_processes.len()
            invariant
                0 <= j <= porig.len(),
                self.on_use_processes@.len() == porig.len(),
                utilization@.len() == j,
                forall|k: int|
                    0 <= k < j ==> (#[trigger] utilization@[k])
                        == porig[k].on_use_accumulate_for_writer,
                forall|k: int|
                    0 <= k < j ==> (#[trigger] self.on_use_processes@[k])@ == (PoolModel {
                        acc_writer: 0,
                        ..porig[k]@
                    }),
                forall|k: int| j <= k < porig.len() ==> self.on_use_processes@[k] == porig[k],
                self.processes == old(self).processes,
                self.resources@ == res_after,
                self.time == old(self).time,
                self.write_every == old(self).write_every,
                self.last_write_time == old(self).last_write_time,
            decreases porig.len() - j,
        {
            let u = self.on_use_processes[j].on_use_accumulate_for_writer;
            utilization.push(u);
            self.on_use_processes[j].on_use_accumulate_for_writer = 0;
            proof {
                assert(self.on_use_processes@[j as int]@ =~= (PoolModel {
                    acc_writer: 0,
                    ..porig[j as int]@
                }));
            }
            j += 1;
        }
        self.last_write_time = self.time;
        let row = Row { time, elapsed, stats, utilization };
        proof {
            assert(row@.stats =~= spec_row_of(old(self)@).stats);
            assert(row@.utilization =~= spec_row_of(old(self)@).utilization);
            assert(row@ =~= spec_row_of(old(self)@));
            assert(self@.resources =~= spec_after_report(old(self)@).resources);
            assert(self@.pools =~= spec_after_report(old(self)@).pools);
            assert(self@ =~= spec_after_report(old(self)@));
            lemma_after_report_wf(old(self)@);
        }
        row
    }

    /// Runs the simulation for `duration` seconds: each second advances one
    /// tick and the clock, and every reporting boundary emits one row. The
    /// returned rows are what the reporting sink receives, in order.
    pub fn run(&mut self, duration: u64) -> (rows: Vec<Row>)
        requires
            old(self).wf(),
            old(self)@.time + duration <= TIME_CAP,
        ensures
            final(self).wf(),
            final(self)@ == spec_run_sim(old(self)@, duration as int),
            rows@.map_values(|r: Row| r@) == spec_rows(old(self)@, duration as int),
    {
        let ghost s0 = self@;
        let mut rows: Vec<Row> = Vec::new();
        let mut time_in_s: u64 = 0;
        while time_in_s < duration
            invariant
                0 <= time_in_s <= duration,
                self.wf(),
                self@ == spec_run_sim(s0, time_in_s as int),
                rows@.map_values(|r: Row| r@) == spec_rows(s0, time_in_s as int),
                self@.time == s0.time + time_in_s,
                self@.write_every == s0.write_every,
                s0.time + duration <= TIME_CAP,
                s0 == old(self)@,
            decreases duration - time_in_s,
        {
            let ghost prev = self@;
            self.simulate_tick();
            proof {
                lemma_tick_wf(prev);
            }
            self.time = self.time + 1;
            proof {
                assert(self@ =~= (SimModel { time: prev.time + 1, ..spec_tick(prev) }));
                assert(self.wf());
            }
            if time_in_s % self.write_every == 0 {
                let row = self.take_row();
                rows.push(row);
                proof {
                    assert(rows@.map_values(|r: Row| r@) =~= spec_rows(s0, time_in_s + 1));
                }
            } else {
                proof {
                    assert(rows@.map_values(|r: Row| r@) =~= spec_rows(s0, time_in_s + 1));
                }
            }
            proof {
                assert(self@ == spec_run_sim(s0, time_in_s + 1));
            }
            time_in_s += 1;
        }
        rows
    }

    /// Advances the state by one simulated second, without moving the
    /// clock: decay, pool pre-reservation, catalyst reset, process
    /// execution, pool settlement, statistics.
    fn simulate_tick(&mut self)
        requires
            old(self).wf(),
        ensures
            final(self)@ == spec_tick(old(self)@),
            forall|i: int|
                0 <= i < final(self).resources@.len() ==> (
                #[trigger] final(self).resources@[i]).wf(),
    {
        let ghost s0 = self@;
        self.decay_resources();
        let ghost r1 = spec_decay_all(s0.resources, s0.time);
        proof {
            lemma_decay_all_props(s0.resources, s0.time);
            assert(self@.pools == s0.pools);
            assert(forall|j: int|
                0 <= j < self@.pools.len() ==> pool_wf(
                    #[trigger] self@.pools[j],
                    self@.resources.len() as int,
                ));
        }
        self.deduct_on_use_processes();
        let ghost r2 = spec_reserve_pools(r1, s0.pools, s0.pools.len() as int).0;
        let ghost p2 = spec_reserve_pools(r1, s0.pools, s0.pools.len() as int).1;
        proof {
            lemma_reserve_pools_props(r1, s0.pools, s0.pools.len() as int);
        }
        self.reset_amount_used_as_catalyst();
        let ghost r3 = spec_reset_all(r2);
        proof {
            assert(self@.resources == r3);
            assert(self@.pools == p2);
            assert(forall|j: int|
                0 <= j < p2.len() ==> pool_wf(#[trigger] p2[j], r3.len() as int));
            assert(self@.processes == s0.processes);
            assert(forall|j: int|
                0 <= j < s0.processes.len() ==> proc_wf(
                    #[trigger] s0.processes[j],
                    r3.len() as int,
                    p2.len() as int,
                ));
            assert forall|i: int, kk: int|
                0 <= i < r3.len() && 0 <= kk < r3[i].queue.len() implies (
            #[trigger] r3[i].queue[kk]).0 <= s0.time + r3[i].life by {
                assert(r3[i].queue == r1[i].queue);
                assert(r3[i].life == s0.resources[i].life);
                let m = choose|m: int|
                    0 <= m < s0.resources[i].queue.len() && r1[i].queue[kk]
                        == s0.resources[i].queue[m];
                assert(s0.resources[i].queue[m].0 <= s0.time + s0.resources[i].life);
            }
        }
        self.run_processes();
        let ghost r4 = spec_run_processes(r3, p2, s0.processes, s0.time, s0.processes.len() as int).0;
        let ghost p4 = spec_run_processes(r3, p2, s0.processes, s0.time, s0.processes.len() as int).1;
        proof {
            lemma_run_processes_props(r3, p2, s0.processes, s0.time, s0.processes.len() as int);
            assert(forall|j: int|
                0 <= j < p4.len() ==> (#[trigger] p4[j]).acc_writer == s0.pools[j].acc_writer);
            assert forall|j: int| 0 <= j < p4.len() implies 0 <= (#[trigger] p4[j]).acc_writer <= (
            TIME_CAP as int) * (AMOUNT_CAP as int) by {
                assert(0 <= s0.pools[j].acc_writer <= (s0.time - s0.last_write_time) * (
                AMOUNT_CAP as int));
                assert((s0.time - s0.last_write_time) * (AMOUNT_CAP as int) <= (TIME_CAP as int) * (
                AMOUNT_CAP as int)) by (nonlinear_arith)
                    requires
                        0 <= s0.time - s0.last_write_time <= TIME_CAP as int,
                ;
            }
        }
        self.add_back_on_use_processes();
        let ghost r5 = spec_settle_pools(r4, p4, p4.len() as int).0;
        proof {
            lemma_settle_pools_props(r4, p4, p4.len() as int);
            assert forall|i: int| 0 <= i < r5.len() implies -((TIME_CAP as int) * (
            AMOUNT_CAP as int)) <= (#[trigger] r5[i]).stat_sum <= (TIME_CAP as int) * (
            AMOUNT_CAP as int) by {
                assert(r5[i].stat_sum == r4[i].stat_sum);
                assert(r4[i].stat_sum == r3[i].stat_sum);
                assert(r3[i].stat_sum == r2[i].stat_sum);
                assert(r2[i].stat_sum == r1[i].stat_sum);
                assert(r1[i].stat_sum == s0.resources[i].stat_sum);
                assert(-((s0.time - s0.last_write_time) * (AMOUNT_CAP as int))
                    <= s0.resources[i].stat_sum <= (s0.time - s0.last_write_time) * (
                AMOUNT_CAP as int));
                assert((s0.time - s0.last_write_time) * (AMOUNT_CAP as int) <= (TIME_CAP as int) * (
                AMOUNT_CAP as int)) by (nonlinear_arith)
                    requires
                        0 <= s0.time - s0.last_write_time <= TIME_CAP as int,
                ;
            }
        }
        self.update_resource_min_max_avg();
        proof {
            assert(self@ =~= spec_tick(s0));
        }
    }

    /// Phase two of a tick: every on-use pool whose own input requirements
    /// are currently satisfiable debits them at once and pessimistically
    /// reserves its whole budget; an unsatisfiable pool is unusable for this
    /// tick. Reserving before any consumer draws prevents order bias among
    /// the rules that compete for a shared pool.
    fn deduct_on_use_processes(&mut self)
        requires
            forall|i: int|
                0 <= i < old(self).resources@.len() ==> (#[trigger] old(self).resources@[i]).wf(),
            forall|j: int|
                0 <= j < old(self)@.pools.len() ==> pool_wf(
                    #[trigger] old(self)@.pools[j],
                    old(self)@.resources.len() as int,
                ),
        ensures
            final(self)@ == (SimModel {
                resources: spec_reserve_pools(
                    old(self)@.resources,
                    old(self)@.pools,
                    old(self)@.pools.len() as int,
                ).0,
                pools: spec_reserve_pools(
                    old(self)@.resources,
                    old(self)@.pools,
                    old(self)@.pools.len() as int,
                ).1,
                ..old(self)@
            }),
            forall|i: int|
                0 <= i < final(self).resources@.len() ==> (
                #[trigger] final(self).resources@[i]).wf(),
            final(self).processes == old(self).processes,
    {
        let ghost rs0 = self@.resources;
        let ghost ps0 = self@.pools;
        proof {
            assert(forall|i: int| 0 <= i < rs0.len() ==> res_wf(#[trigger] rs0[i]));
            assert(forall|j: int| 0 <= j < ps0.len() ==> pool_wf(#[trigger] ps0[j], rs0.len() as int));
        }
        let mut j: usize = 0;
        while j < self.on_use_processes.len()
            invariant
                0 <= j <= ps0.len(),
                self.on_use_processes@.len() == ps0.len(),
                self.resources@.len() == rs0.len(),
                forall|i: int| 0 <= i < rs0.len() ==> res_wf(#[trigger] rs0[i]),
                forall|m: int| 0 <= m < ps0.len() ==> pool_wf(#[trigger] ps0[m], rs0.len() as int),
                forall|i: int|
                    0 <= i < self.resources@.len() ==> (#[trigger] self.resources@[i]).wf(),
                (self@.resources, self@.pools) == spec_reserve_pools(rs0, ps0, j as int),
                self.processes == old(self).processes,
                self.time == old(self).time,
                self.write_every == old(self).write_every,
                self.last_write_time == old(self).last_write_time,
                rs0 == old(self)@.resources,
                ps0 == old(self)@.pools,
            decreases ps0.len() - j,
        {
            let ghost rs_pre = self@.resources;
            let ghost pool_model = ps0[j as int];
            proof {
                lemma_reserve_pools_props(rs0, ps0, j as int);
                assert(self@.pools[j as int] == ps0[j as int]);
                assert(self.on_use_processes@[j as int]@ == pool_model);
            }
            let n_inputs = self.on_use_processes[j].input.len();
            let mut feasible = true;
            let mut k: usize = 0;
            while k < n_inputs
                invariant
                    0 <= k <= pool_model.input.len(),
                    n_inputs == pool_model.input.len(),
                    j < ps0.len(),
                    self.on_use_processes@.len() == ps0.len(),
                    self.on_use_processes@[j as int]@ == pool_model,
                    self.resources@.len() == rs0.len(),
                    pool_wf(pool_model, rs0.len() as int),
                    self@.resources == rs_pre,
                    self@.pools == spec_reserve_pools(rs0, ps0, j as int).1,
                    feasible == spec_pool_feasible_upto(rs_pre, pool_model.input, k as int),
                    self.processes == old(self).processes,
                    self.time == old(self).time,
                    self.write_every == old(self).write_every,
                    self.last_write_time == old(self).last_write_time,
                decreases pool_model.input.len() - k,
            {
                let e = self.on_use_processes[j].input[k];
                match e.target {
                    Target::Res(r) => {
                        if self.resources[r].amount < e.qty {
                            feasible = false;
                        }
                    },
                    _ => {},
                }
                k += 1;
            }
            proof {
                assert(feasible == spec_pool_feasible(rs_pre, pool_model.input));
            }
            if feasible {
                let mut k: usize = 0;
                while k < n_inputs
                    invariant
                        0 <= k <= pool_model.input.len(),
                        n_inputs == pool_model.input.len(),
                        j < ps0.len(),
                        self.on_use_processes@.len() == ps0.len(),
                        self.on_use_processes@[j as int]@ == pool_model,
                        self.resources@.len() == rs0.len(),
                        rs_pre.len() == rs0.len(),
                        pool_wf(pool_model, rs0.len() as int),
                        forall|i: int| 0 <= i < rs_pre.len() ==> res_wf(#[trigger] rs_pre[i]),
                        forall|i: int|
                            0 <= i < self.resources@.len() ==> (
                            #[trigger] self.resources@[i]).wf(),
                        spec_pool_feasible(rs_pre, pool_model.input),
                        self@.resources == spec_debit_pool_inputs(rs_pre, pool_model.input, k as int),
                        self@.pools == spec_reserve_pools(rs0, ps0, j as int).1,
                        self.processes == old(self).processes,
                        self.time == old(self).time,
                        self.write_every == old(self).write_every,
                        self.last_write_time == old(self).last_write_time,
                    decreases pool_model.input.len() - k,
                {
                    let ghost rs_k = self@.resources;
                    let e = self.on_use_processes[j].input[k];
                    proof {
                        assert(pool_model.input[k as int] == e);
                    }
                    match e.target {
                        Target::Res(r) => {
                            proof {
                                assert(entries_wf(pool_model.input, rs_pre.len() as int, 0, false));
                                assert(r < rs_pre.len());
                                assert(forall|m: int|
                                    0 <= m < k ==> (#[trigger] pool_model.input[m]).target
                                        != e.target);
                                lemma_debit_untouched(rs_pre, pool_model.input, k as int, r);
                                assert(rs_k[r as int] == rs_pre[r as int]);
                                assert(rs_pre[r as int].amount >= e.qty);
                            }
                            let ghost pre_r = self.resources@[r as int];
                            self.resources[r].amount = self.resources[r].amount - e.qty;
                            proof {
                                assert(self.resources@[r as int]@.queue =~= pre_r@.queue);
                                assert(self.resources@[r as int]@ =~= (ResModel {
                                    amount: rs_k[r as int].amount - e.qty,
                                    ..rs_k[r as int]
                                }));
                                assert(self@.resources =~= spec_debit_pool_inputs(
                                    rs_pre,
                                    pool_model.input,
                                    k + 1,
                                ));
                            }
                        },
                        _ => {
                            proof {
                                assert(self@.resources =~= spec_debit_pool_inputs(
                                    rs_pre,
                                    pool_model.input,
                                    k + 1,
                                ));
                            }
                        },
                    }
                    k += 1;
                }
                let cap = self.on_use_processes[j].on_use;
                self.on_use_processes[j].on_use_accumulate = -cap;
                proof {
                    assert(self.on_use_processes@[j as int]@ =~= (PoolModel {
                        acc: -pool_model.on_use,
                        ..pool_model
                    }));
                    assert(self@.pools =~= spec_reserve_pools(rs0, ps0, j + 1).1);
                    assert(self@.resources =~= spec_reserve_pools(rs0, ps0, j + 1).0);
                }
            } else {
                self.on_use_processes[j].on_use_accumulate = 0;
                proof {
                    assert(self.on_use_processes@[j as int]@ =~= (PoolModel {
                        acc: 0,
                        ..pool_model
                    }));
                    assert(self@.pools =~= spec_reserve_pools(rs0, ps0, j + 1).1);
                    assert(self@.resources =~= spec_reserve_pools(rs0, ps0, j + 1).0);
                }
            }
            j += 1;
        }
        proof {
            assert(self@ =~= (SimModel {
                resources: spec_reserve_pools(rs0, ps0, ps0.len() as int).0,
                pools: spec_reserve_pools(rs0, ps0, ps0.len() as int).1,
                ..old(self)@
            }));
        }
    }

    /// Phase four of a tick: every ordinary rule, in registry order, fires
    /// as many times as the state it observes admits, debiting inputs,
    /// reserving catalysts and crediting outputs at once — so later rules
    /// see its effects. A resource may appear among both the inputs and the
    /// catalysts of one rule; the inputs are debited before the catalysts
    /// are reserved, so the shared stock can at worst be over-reserved for
    /// later rules (a conservative outcome), never spent below zero.
    fn run_processes(&mut self)
        requires
            forall|i: int|
                0 <= i < old(self).resources@.len() ==> (#[trigger] old(self).resources@[i]).wf(),
            forall|j: int|
                0 <= j < old(self)@.pools.len() ==> pool_wf(
                    #[trigger] old(self)@.pools[j],
                    old(self)@.resources.len() as int,
                ),
            forall|j: int|
                0 <= j < old(self)@.processes.len() ==> proc_wf(
                    #[trigger] old(self)@.processes[j],
                    old(self)@.resources.len() as int,
                    old(self)@.pools.len() as int,
                ),
            forall|i: int, kk: int|
                0 <= i < old(self)@.resources.len() && 0 <= kk
                    < old(self)@.resources[i].queue.len() ==> (
                #[trigger] old(self)@.resources[i].queue[kk]).0 <= old(self)@.time
                    + old(self)@.resources[i].life,
            old(self).time <= TIME_CAP,
        ensures
            final(self)@ == (SimModel {
                resources: spec_run_processes(
                    old(self)@.resources,
                    old(self)@.pools,
                    old(self)@.processes,
                    old(self)@.time,
                    old(self)@.processes.len() as int,
                ).0,
                pools: spec_run_processes(
                    old(self)@.resources,
                    old(self)@.pools,
                    old(self)@.processes,
                    old(self)@.time,
                    old(self)@.processes.len() as int,
                ).1,
                ..old(self)@
            }),
            forall|i: int|
                0 <= i < final(self).resources@.len() ==> (
                #[trigger] final(self).resources@[i]).wf(),
            forall|j: int|
                0 <= j < final(self)@.pools.len() ==> pool_wf(
                    #[trigger] final(self)@.pools[j],
                    final(self)@.resources.len() as int,
                ),
            forall|i: int, kk: int|
                0 <= i < final(self)@.resources.len() && 0 <= kk
                    < final(self)@.resources[i].queue.len() ==> (
                #[trigger] final(self)@.resources[i].queue[kk]).0 <= old(self)@.time
                    + final(self)@.resources[i].life,
            final(self).processes == old(self).processes,
    {
        let now = self.time;
        let ghost rs0 = self@.resources;
        let ghost ps0 = self@.pools;
        let ghost procs0 = self@.processes;
        let mut pi: usize = 0;
        while pi < self.processes.len()
            invariant
                0 <= pi <= procs0.len(),
                self.processes@.len() == procs0.len(),
                self.resources@.len() == rs0.len(),
                self.on_use_processes@.len() == ps0.len(),
                self.processes == old(self).processes,
                procs0 == old(self)@.processes,
                rs0 == old(self)@.resources,
                ps0 == old(self)@.pools,
                now == old(self).time,
                now <= TIME_CAP,
                self.time == old(self).time,
                self.write_every == old(self).write_every,
                self.last_write_time == old(self).last_write_time,
                forall|i: int|
                    0 <= i < self.resources@.len() ==> (#[trigger] self.resources@[i]).wf(),
                forall|j: int|
                    0 <= j < ps0.len() ==> pool_wf(#[trigger] self@.pools[j], rs0.len() as int),
                forall|j: int|
                    0 <= j < procs0.len() ==> proc_wf(
                        #[trigger] procs0[j],
                        rs0.len() as int,
                        ps0.len() as int,
                    ),
                forall|i: int, kk: int|
                    0 <= i < self@.resources.len() && 0 <= kk < self@.resources[i].queue.len()
                        ==> (#[trigger] self@.resources[i].queue[kk]).0 <= now
                        + self@.resources[i].life,
                (self@.resources, self@.pools) == spec_run_processes(
                    rs0,
                    ps0,
                    procs0,
                    now as int,
                    pi as int,
                ),
            decreases procs0.len() - pi,
        {
            let ghost rs_p = self@.resources;
            let ghost ps_p = self@.pools;
            proof {
                assert(self.processes@[pi as int]@ == procs0[pi as int]);
                assert(forall|i: int|
                    0 <= i < rs_p.len() ==> res_wf(#[trigger] rs_p[i]));
                assert(forall|i: int|
                    0 <= i < self.resources@.len() ==> res_wf((#[trigger] self.resources@[i])@));
                assert forall|j: int|
                    0 <= j < self.on_use_processes@.len() implies pool_wf(
                    (#[trigger] self.on_use_processes@[j])@,
                    self.resources@.len() as int,
                ) by {
                    assert(self@.pools[j] == self.on_use_processes@[j]@);
                }
                assert(proc_wf(
                    self.processes@[pi as int]@,
                    self.resources@.len() as int,
                    self.on_use_processes@.len() as int,
                ));
            }
            let n = crate::throughput::times_process_can_run(
                &self.resources,
                &self.on_use_processes,
                &self.processes[pi],
                now,
            );
            let ghost ni = n as int;
            let ghost proc = procs0[pi as int];
            proof {
                assert(ni == crate::throughput::spec_times(rs_p, ps_p, proc, now as int));
            }
            if n > 0 {
                proof {
                    crate::throughput::lemma_times_le_bounds(rs_p, ps_p, proc, now as int);
                }
                let n_in = self.processes[pi].input.len();
                let mut k: usize = 0;
                while k < n_in
                    invariant
                        0 <= k <= proc.input.len(),
                        n_in == proc.input.len(),
                        pi < procs0.len(),
                        self.processes@.len() == procs0.len(),
                        self.processes == old(self).processes,
                        self.processes@[pi as int]@ == proc,
                        self.resources@.len() == rs_p.len(),
                        self.on_use_processes@.len() == ps_p.len(),
                        ni == n as int,
                        ni >= 1,
                        forall|i: int| 0 <= i < rs_p.len() ==> res_wf(#[trigger] rs_p[i]),
                        forall|j: int|
                            0 <= j < ps_p.len() ==> pool_wf(#[trigger] ps_p[j], rs_p.len() as int),
                        proc_wf(proc, rs_p.len() as int, ps_p.len() as int),
                        forall|m: int|
                            0 <= m < proc.input.len() ==> ni
                                <= crate::throughput::spec_input_bound(
                                rs_p,
                                ps_p,
                                #[trigger] proc.input[m],
                            ),
                        forall|i: int|
                            0 <= i < self.resources@.len() ==> (
                            #[trigger] self.resources@[i]).wf(),
                        (self@.resources, self@.pools) == spec_apply_inputs(
                            rs_p,
                            ps_p,
                            proc.input,
                            ni,
                            k as int,
                        ),
                        self.time == old(self).time,
                        self.write_every == old(self).write_every,
                        self.last_write_time == old(self).last_write_time,
                    decreases proc.input.len() - k,
                {
                    let e = self.processes[pi].input[k];
                    proof {
                        assert(proc.input[k as int] == e);
                    }
                    match e.target {
                        Target::Res(r) => {
                            proof {
                                assert(forall|m: int|
                                    0 <= m < k ==> (#[trigger] proc.input[m]).target != e.target);
                                lemma_apply_inputs_untouched_res(
                                    rs_p,
                                    ps_p,
                                    proc.input,
                                    ni,
                                    k as int,
                                    r,
                                );
                                assert(self@.resources[r as int] == rs_p[r as int]);
                                assert(ni <= crate::throughput::spec_input_bound(rs_p, ps_p, e));
                                crate::throughput::lemma_mul_within(
                                    rs_p[r as int].amount - rs_p[r as int].reserved,
                                    e.qty as int,
                                    ni,
                                );
                                assert(e.qty >= 0);
                                assert(res_wf(rs_p[r as int]));
                                assert(0 <= e.qty * ni <= 2 * (AMOUNT_CAP as int));
                                assert(e.qty >= 1 ==> ni <= 2 * (AMOUNT_CAP as int));
                            }
                            let delta: i64 = crate::throughput::scale_qty(e.qty, n);
                            proof {
                                assert(delta == e.qty * ni);
                                assert(0 <= delta <= AMOUNT_CAP);
                                assert(rs_p[r as int].amount - delta >= rs_p[r as int].reserved);
                            }
                            self.resources[r].consume(delta);
                            proof {
                                assert(self@.resources =~= spec_apply_inputs(
                                    rs_p,
                                    ps_p,
                                    proc.input,
                                    ni,
                                    k + 1,
                                ).0);
                                assert(self@.pools =~= spec_apply_inputs(
                                    rs_p,
                                    ps_p,
                                    proc.input,
                                    ni,
                                    k + 1,
                                ).1);
                            }
                        },
                        Target::Pool(p) => {
                            proof {
                                assert(forall|m: int|
                                    0 <= m < k ==> (#[trigger] proc.input[m]).target != e.target);
                                lemma_apply_inputs_untouched_pool(
                                    rs_p,
                                    ps_p,
                                    proc.input,
                                    ni,
                                    k as int,
                                    p,
                                );
                                assert(self@.pools[p as int] == ps_p[p as int]);
                                assert(ni <= crate::throughput::spec_input_bound(rs_p, ps_p, e));
                                crate::throughput::lemma_mul_within(
                                    -ps_p[p as int].acc,
                                    e.qty as int,
                                    ni,
                                );
                                assert(e.qty >= 0);
                                assert(pool_wf(ps_p[p as int], rs_p.len() as int));
                                assert(0 <= e.qty * ni <= 2 * (AMOUNT_CAP as int));
                                assert(e.qty >= 1 ==> ni <= 2 * (AMOUNT_CAP as int));
                            }
                            let delta: i64 = crate::throughput::scale_qty(e.qty, n);
                            let acc = self.on_use_processes[p].on_use_accumulate;
                            self.on_use_processes[p].on_use_accumulate = acc + delta;
                            proof {
                                assert(self.on_use_processes@[p as int]@ =~= (PoolModel {
                                    acc: ps_p[p as int].acc + e.qty * ni,
                                    ..ps_p[p as int]
                                }));
                                assert(self@.pools =~= spec_apply_inputs(
                                    rs_p,
                                    ps_p,
                                    proc.input,
                                    ni,
                                    k + 1,
                                ).1);
                                assert(self@.resources =~= spec_apply_inputs(
                                    rs_p,
                                    ps_p,
                                    proc.input,
                                    ni,
                                    k + 1,
                                ).0);
                            }
                        },
                        Target::Missing => {
                            proof {
                                assert(self@.resources == spec_apply_inputs(
                                    rs_p,
                                    ps_p,
                                    proc.input,
                                    ni,
                                    k + 1,
                                ).0);
                                assert(self@.pools == spec_apply_inputs(
                                    rs_p,
                                    ps_p,
                                    proc.input,
                                    ni,
                                    k + 1,
                                ).1);
                            }
                        },
                    }
                    k += 1;
                }
                let ghost rsx = spec_apply_inputs(
                    rs_p,
                    ps_p,
                    proc.input,
                    ni,
                    proc.input.len() as int,
                ).0;
                let ghost psx = spec_apply_inputs(
                    rs_p,
                    ps_p,
                    proc.input,
                    ni,
                    proc.input.len() as int,
                ).1;
                proof {
                    lemma_apply_inputs_props(rs_p, ps_p, proc.input, ni, proc.input.len() as int);
                }
                let n_cat = self.processes[pi].catalyst.len();
                let mut k: usize = 0;
                while k < n_cat
                    invariant
                        0 <= k <= proc.catalyst.len(),
                        n_cat == proc.catalyst.len(),
                        pi < procs0.len(),
                        self.processes@.len() == procs0.len(),
                        self.processes == old(self).processes,
                        self.processes@[pi as int]@ == proc,
                        self.resources@.len() == rs_p.len(),
                        rsx.len() == rs_p.len(),
                        self.on_use_processes@.len() == ps_p.len(),
                        ni == n as int,
                        ni >= 1,
                        forall|i: int| 0 <= i < rs_p.len() ==> res_wf(#[trigger] rs_p[i]),
                        forall|i: int| 0 <= i < rsx.len() ==> res_wf(#[trigger] rsx[i]),
                        forall|i: int|
                            0 <= i < rsx.len() ==> (#[trigger] rsx[i]).reserved
                                == rs_p[i].reserved,
                        proc_wf(proc, rs_p.len() as int, ps_p.len() as int),
                        forall|m: int|
                            0 <= m < proc.catalyst.len() ==> ni
                                <= crate::throughput::spec_catalyst_bound(
                                rs_p,
                                #[trigger] proc.catalyst[m],
                            ),
                        forall|i: int|
                            0 <= i < self.resources@.len() ==> (
                            #[trigger] self.resources@[i]).wf(),
                        self@.resources == spec_apply_catalysts(rsx, proc.catalyst, ni, k as int),
                        self@.pools == psx,
                        self.time == old(self).time,
                        self.write_every == old(self).write_every,
                        self.last_write_time == old(self).last_write_time,
                    decreases proc.catalyst.len() - k,
                {
                    let e = self.processes[pi].catalyst[k];
                    proof {
                        assert(proc.catalyst[k as int] == e);
                    }
                    match e.target {
                        Target::Res(r) => {
                            proof {
                                assert(forall|m: int|
                                    0 <= m < k ==> (#[trigger] proc.catalyst[m]).target
                                        != e.target);
                                lemma_apply_catalysts_untouched(rsx, proc.catalyst, ni, k as int, r);
                                assert(self@.resources[r as int] == rsx[r as int]);
                                assert(ni <= crate::throughput::spec_catalyst_bound(rs_p, e));
                                crate::throughput::lemma_mul_within(
                                    rs_p[r as int].amount - rs_p[r as int].reserved,
                                    e.qty as int,
                                    ni,
                                );
                                assert(e.qty >= 0);
                                assert(res_wf(rs_p[r as int]));
                                assert(0 <= e.qty * ni <= 2 * (AMOUNT_CAP as int));
                                assert(e.qty >= 1 ==> ni <= 2 * (AMOUNT_CAP as int));
                            }
                            let delta: i64 = crate::throughput::scale_qty(e.qty, n);
                            proof {
                                assert(delta == e.qty * ni);
                                assert(self@.resources[r as int].reserved == rs_p[r as int].reserved);
                                assert(rs_p[r as int].reserved + delta <= rs_p[r as int].amount);
                            }
                            self.resources[r].reserve_catalyst(delta);
                            proof {
                                assert(self@.resources =~= spec_apply_catalysts(
                                    rsx,
                                    proc.catalyst,
                                    ni,
                                    k + 1,
                                ));
                            }
                        },
                        _ => {
                            proof {
                                assert(self@.resources == spec_apply_catalysts(
                                    rsx,
                                    proc.catalyst,
                                    ni,
                                    k + 1,
                                ));
                            }
                        },
                    }
                    k += 1;
                }
                let ghost rsy = spec_apply_catalysts(rsx, proc.catalyst, ni, proc.catalyst.len() as int);
                proof {
                    lemma_apply_catalysts_props(
                        rs_p,
                        rsx,
                        proc.catalyst,
                        ni,
                        proc.catalyst.len() as int,
                    );
                }
                let n_out = self.processes[pi].output.len();
                let mut k: usize = 0;
                while k < n_out
                    invariant
                        0 <= k <= proc.output.len(),
                        n_out == proc.output.len(),
                        pi < procs0.len(),
                        self.processes@.len() == procs0.len(),
                        self.processes == old(self).processes,
                        self.processes@[pi as int]@ == proc,
                        self.resources@.len() == rs_p.len(),
                        rsy.len() == rs_p.len(),
                        self.on_use_processes@.len() == ps_p.len(),
                        ni == n as int,
                        ni >= 1,
                        now <= TIME_CAP,
                        self.time == old(self).time,
                        now == old(self).time,
                        forall|i: int| 0 <= i < rs_p.len() ==> res_wf(#[trigger] rs_p[i]),
                        forall|i: int| 0 <= i < rsy.len() ==> res_wf(#[trigger] rsy[i]),
                        forall|i: int|
                            0 <= i < rsy.len() ==> (#[trigger] rsy[i]).amount <= rs_p[i].amount,
                        forall|i: int|
                            0 <= i < rsy.len() ==> (#[trigger] rsy[i]).max == rs_p[i].max
                                && rsy[i].life == rs_p[i].life,
                        forall|i: int, kk: int|
                            0 <= i < rsy.len() && 0 <= kk < rsy[i].queue.len() ==> (
                            #[trigger] rsy[i].queue[kk]).0 <= now + rsy[i].life,
                        proc_wf(proc, rs_p.len() as int, ps_p.len() as int),
                        forall|m: int|
                            0 <= m < proc.output.len() ==> ni
                                <= crate::throughput::spec_output_bound(
                                rs_p,
                                #[trigger] proc.output[m],
                            ),
                        forall|i: int|
                            0 <= i < self.resources@.len() ==> (
                            #[trigger] self.resources@[i]).wf(),
                        self@.resources == spec_apply_outputs(rsy, proc.output, ni, now as int, k as int),
                        self@.pools == psx,
                        self.write_every == old(self).write_every,
                        self.last_write_time == old(self).last_write_time,
                    decreases proc.output.len() - k,
                {
                    let e = self.processes[pi].output[k];
                    proof {
                        assert(proc.output[k as int] == e);
                    }
                    match e.target {
                        Target::Res(r) => {
                            proof {
                                assert(forall|m: int|
                                    0 <= m < k ==> (#[trigger] proc.output[m]).target != e.target);
                                lemma_apply_outputs_untouched(
                                    rsy,
                                    proc.output,
                                    ni,
                                    now as int,
                                    k as int,
                                    r,
                                );
                                assert(self@.resources[r as int] == rsy[r as int]);
                                assert(ni <= crate::throughput::spec_output_bound(rs_p, e));
                                crate::throughput::lemma_mul_within(
                                    rs_p[r as int].max - rs_p[r as int].amount,
                                    e.qty as int,
                                    ni,
                                );
                                assert(e.qty >= 0);
                                assert(res_wf(rs_p[r as int]));
                                assert(0 <= e.qty * ni <= 2 * (AMOUNT_CAP as int));
                                assert(e.qty >= 1 ==> ni <= 2 * (AMOUNT_CAP as int));
                            }
                            let delta: i64 = crate::throughput::scale_qty(e.qty, n);
                            proof {
                                assert(delta == e.qty * ni);
                                assert(self@.resources[r as int].amount + delta <= rs_p[r as int].max);
                            }
                            self.resources[r].credit_output(delta, now);
                            proof {
                                assert(self@.resources =~= spec_apply_outputs(
                                    rsy,
                                    proc.output,
                                    ni,
                                    now as int,
                                    k + 1,
                                ));
                            }
                        },
                        _ => {
                            proof {
                                assert(self@.resources == spec_apply_outputs(
                                    rsy,
                                    proc.output,
                                    ni,
                                    now as int,
                                    k + 1,
                                ));
                            }
                        },
                    }
                    k += 1;
                }
                proof {
                    lemma_apply_outputs_props(
                        rs_p,
                        rsy,
                        proc.output,
                        ni,
                        now as int,
                        proc.output.len() as int,
                    );
                    assert((self@.resources, self@.pools) == spec_apply_process(
                        rs_p,
                        ps_p,
                        proc,
                        ni,
                        now as int,
                    ));
                    assert((self@.resources, self@.pools) == spec_run_processes(
                        rs0,
                        ps0,
                        procs0,
                        now as int,
                        pi + 1,
                    ));
                }
            } else {
                proof {
                    assert((self@.resources, self@.pools) == spec_run_processes(
                        rs0,
                        ps0,
                        procs0,
                        now as int,
                        pi + 1,
                    ));
                }
            }
            pi += 1;
        }
        proof {
            assert(self@ =~= (SimModel {
                resources: spec_run_processes(
                    rs0,
                    ps0,
                    procs0,
                    now as int,
                    procs0.len() as int,
                ).0,
                pools: spec_run_processes(rs0, ps0, procs0, now as int, procs0.len() as int).1,
                ..old(self)@
            }));
        }
    }

    /// Phase five of a tick: every pool refunds the unspent fraction of its
    /// budget to its own inputs, proportionally to their unit ratios, and
    /// records the drawn quantity for reporting.
    fn add_back_on_use_processes(&mut self)
        requires
            forall|i: int|
                0 <= i < old(self).resources@.len() ==> (#[trigger] old(self).resources@[i]).wf(),
            forall|j: int|
                0 <= j < old(self)@.pools.len() ==> pool_wf(
                    #[trigger] old(self)@.pools[j],
                    old(self)@.resources.len() as int,
                ),
            forall|j: int|
                0 <= j < old(self)@.pools.len() ==> 0 <= (#[trigger] old(self)@.pools[j]).acc_writer
                    <= (TIME_CAP as int) * (AMOUNT_CAP as int),
        ensures
            final(self)@ == (SimModel {
                resources: spec_settle_pools(
                    old(self)@.resources,
                    old(self)@.pools,
                    old(self)@.pools.len() as int,
                ).0,
                pools: spec_settle_pools(
                    old(self)@.resources,
                    old(self)@.pools,
                    old(self)@.pools.len() as int,
                ).1,
                ..old(self)@
            }),
            forall|i: int|
                0 <= i < final(self).resources@.len() ==> (
                #[trigger] final(self).resources@[i]).wf(),
            final(self).processes == old(self).processes,
    {
        let ghost rs0 = self@.resources;
        let ghost ps0 = self@.pools;
        let mut j: usize = 0;
        while j < self.on_use_processes.len()
            invariant
                0 <= j <= ps0.len(),
                self.on_use_processes@.len() == ps0.len(),
                self.resources@.len() == rs0.len(),
                forall|i: int| 0 <= i < rs0.len() ==> res_wf(#[trigger] rs0[i]),
                forall|m: int| 0 <= m < ps0.len() ==> pool_wf(#[trigger] ps0[m], rs0.len() as int),
                forall|m: int|
                    0 <= m < ps0.len() ==> 0 <= (#[trigger] ps0[m]).acc_writer <= (TIME_CAP as int)
                        * (AMOUNT_CAP as int),
                forall|i: int|
                    0 <= i < self.resources@.len() ==> (#[trigger] self.resources@[i]).wf(),
                (self@.resources, self@.pools) == spec_settle_pools(rs0, ps0, j as int),
                self.processes == old(self).processes,
                self.time == old(self).time,
                self.write_every == old(self).write_every,
                self.last_write_time == old(self).last_write_time,
                rs0 == old(self)@.resources,
                ps0 == old(self)@.pools,
            decreases ps0.len() - j,
        {
            let ghost rs_pre = self@.resources;
            let ghost pool_model = ps0[j as int];
            proof {
                lemma_settle_pools_props(rs0, ps0, j as int);
                assert(self@.pools[j as int] == ps0[j as int]);
                assert(self.on_use_processes@[j as int]@ == pool_model);
            }
            let cap = self.on_use_processes[j].on_use;
            let acc = self.on_use_processes[j].on_use_accumulate;
            let n_inputs = self.on_use_processes[j].input.len();
            let mut k: usize = 0;
            while k < n_inputs
                invariant
                    0 <= k <= pool_model.input.len(),
                    n_inputs == pool_model.input.len(),
                    j < ps0.len(),
                    self.on_use_processes@.len() == ps0.len(),
                    self.on_use_processes@[j as int]@ == pool_model,
                    self.resources@.len() == rs0.len(),
                    rs_pre.len() == rs0.len(),
                    pool_wf(pool_model, rs0.len() as int),
                    cap == pool_model.on_use,
                    acc == pool_model.acc,
                    forall|i: int| 0 <= i < rs_pre.len() ==> res_wf(#[trigger] rs_pre[i]),
                    forall|i: int|
                        0 <= i < self.resources@.len() ==> (#[trigger] self.resources@[i]).wf(),
                    self@.resources == spec_settle_refunds(
                        rs_pre,
                        pool_model.input,
                        pool_model.acc,
                        pool_model.on_use,
                        k as int,
                    ),
                    self@.pools == spec_settle_pools(rs0, ps0, j as int).1,
                    self.processes == old(self).processes,
                    self.time == old(self).time,
                    self.write_every == old(self).write_every,
                    self.last_write_time == old(self).last_write_time,
                decreases pool_model.input.len() - k,
            {
                let e = self.on_use_processes[j].input[k];
                proof {
                    assert(pool_model.input[k as int] == e);
                }
                match e.target {
                    Target::Res(r) => {
                        proof {
                            assert(r < rs0.len());
                            assert(e.qty >= 0);
                            lemma_refund_share_bounds(
                                e.qty as int,
                                pool_model.acc,
                                pool_model.on_use,
                            );
                            assert(e.qty <= AMOUNT_CAP);
                            assert((e.qty as int) * ((-pool_model.acc) as int) <= (AMOUNT_CAP as int)
                                * (AMOUNT_CAP as int)) by (nonlinear_arith)
                                requires
                                    0 <= e.qty <= AMOUNT_CAP,
                                    0 <= -pool_model.acc <= AMOUNT_CAP,
                            ;
                        }
                        let addition_wide: i128 = (e.qty as i128) * ((-acc) as i128) / (cap as i128);
                        let addition: i64 = addition_wide as i64;
                        proof {
                            assert(addition == e.qty * (-pool_model.acc) / pool_model.on_use);
                            assert(0 <= addition <= e.qty);
                        }
                        let ghost pre_r = self.resources@[r as int];
                        let v = clip_add(self.resources[r].amount, addition);
                        self.resources[r].amount = v;
                        proof {
                            assert(self.resources@[r as int]@.queue =~= pre_r@.queue);
                            assert(self.resources@[r as int]@ =~= (ResModel {
                                amount: crate::resource::spec_clip(pre_r@.amount + addition),
                                ..pre_r@
                            }));
                            assert(self@.resources =~= spec_settle_refunds(
                                rs_pre,
                                pool_model.input,
                                pool_model.acc,
                                pool_model.on_use,
                                k + 1,
                            ));
                        }
                    },
                    _ => {
                        proof {
                            assert(self@.resources == spec_settle_refunds(
                                rs_pre,
                                pool_model.input,
                                pool_model.acc,
                                pool_model.on_use,
                                k + 1,
                            ));
                        }
                    },
                }
                k += 1;
            }
            let drawn = acc + cap;
            let w = self.on_use_processes[j].on_use_accumulate_for_writer;
            self.on_use_processes[j].on_use_accumulate_for_writer = w + drawn as i128;
            proof {
                assert(self.on_use_processes@[j as int]@ =~= (PoolModel {
                    acc_writer: pool_model.acc_writer + pool_model.acc + pool_model.on_use,
                    ..pool_model
                }));
                assert(self@.pools =~= spec_settle_pools(rs0, ps0, j + 1).1);
                assert(self@.resources =~= spec_settle_pools(rs0, ps0, j + 1).0);
            }
            j += 1;
        }
        proof {
            assert(self@ =~= (SimModel {
                resources: spec_settle_pools(rs0, ps0, ps0.len() as int).0,
                pools: spec_settle_pools(rs0, ps0, ps0.len() as int).1,
                ..old(self)@
            }));
        }
    }

    /// Phase six of a tick: every resource folds its current amount into the
    /// reporting interval's min/avg/max accumulators.
    fn update_resource_min_max_avg(&mut self)
        requires
            forall|i: int|
                0 <= i < old(self).resources@.len() ==> (#[trigger] old(self).resources@[i]).wf(),
            forall|i: int|
                0 <= i < old(self)@.resources.len() ==> -((TIME_CAP as int) * (AMOUNT_CAP as int))
                    <= (#[trigger] old(self)@.resources[i]).stat_sum <= (TIME_CAP as int) * (
                AMOUNT_CAP as int),
        ensures
            final(self)@ == (SimModel {
                resources: old(self)@.resources.map_values(|r: ResModel| spec_tick_stats(r)),
                ..old(self)@
            }),
            forall|i: int|
                0 <= i < final(self).resources@.len() ==> (
                #[trigger] final(self).resources@[i]).wf(),
            final(self).processes == old(self).processes,
            final(self).on_use_processes == old(self).on_use_processes,
    {
        let ghost orig = self.resources@;
        proof {
            assert forall|k: int| 0 <= k < orig.len() implies -((TIME_CAP as int) * (
            AMOUNT_CAP as int)) <= (#[trigger] orig[k])@.stat_sum <= (TIME_CAP as int) * (
            AMOUNT_CAP as int) by {
                assert(old(self)@.resources[k] == orig[k]@);
            }
        }
        let mut i: usize = 0;
        while i < self.resources.len()
            invariant
                0 <= i <= orig.len(),
                self.resources@.len() == orig.len(),
                forall|k: int| 0 <= k < orig.len() ==> (#[trigger] orig[k]).wf(),
                forall|k: int|
                    0 <= k < orig.len() ==> -((TIME_CAP as int) * (AMOUNT_CAP as int)) <= (
                    #[trigger] orig[k])@.stat_sum <= (TIME_CAP as int) * (AMOUNT_CAP as int),
                forall|k: int|
                    0 <= k < i ==> (#[trigger] self.resources@[k])@ == spec_tick_stats(orig[k]@),
                forall|k: int| 0 <= k < i ==> (#[trigger] self.resources@[k]).wf(),
                forall|k: int| i <= k < orig.len() ==> self.resources@[k] == orig[k],
                self.processes == old(self).processes,
                self.on_use_processes == old(self).on_use_processes,
                self.time == old(self).time,
                self.write_every == old(self).write_every,
                self.last_write_time == old(self).last_write_time,
            decreases orig.len() - i,
        {
            proof {
                assert(self.resources@[i as int] == orig[i as int]);
                assert(orig[i as int].wf());
            }
            self.resources[i].update_stats();
            i += 1;
        }
        proof {
            assert(self@.resources =~= old(self)@.resources.map_values(
                |r: ResModel| spec_tick_stats(r),
            ));
            assert(self@ =~= (SimModel {
                resources: old(self)@.resources.map_values(|r: ResModel| spec_tick_stats(r)),
                ..old(self)@
            }));
        }
    }

    /// Phase three of a tick: zeroes every catalyst reservation counter.
    fn reset_amount_used_as_catalyst(&mut self)
        requires
            forall|i: int|
                0 <= i < old(self).resources@.len() ==> (#[trigger] old(self).resources@[i]).wf(),
        ensures
            final(self)@ == (SimModel { resources: spec_reset_all(old(self)@.resources), ..old(self)@ }),
            forall|i: int|
                0 <= i < final(self).resources@.len() ==> (
                #[trigger] final(self).resources@[i]).wf(),
            final(self).processes == old(self).processes,
            final(self).on_use_processes == old(self).on_use_processes,
    {
        let ghost orig = self.resources@;
        let mut i: usize = 0;
        while i < self.resources.len()
            invariant
                0 <= i <= self.resources@.len(),
                self.resources@.len() == orig.len(),
                forall|k: int| 0 <= k < orig.len() ==> (#[trigger] orig[k]).wf(),
                forall|k: int|
                    0 <= k < i ==> (#[trigger] self.resources@[k])@ == (ResModel {
                        reserved: 0,
                        ..orig[k]@
                    }),
                forall|k: int| 0 <= k < i ==> (#[trigger] self.resources@[k]).wf(),
                forall|k: int| i <= k < orig.len() ==> self.resources@[k] == orig[k],
                self.processes == old(self).processes,
                self.on_use_processes == old(self).on_use_processes,
                self.time == old(self).time,
                self.write_every == old(self).write_every,
                self.last_write_time == old(self).last_write_time,
            decreases self.resources@.len() - i,
        {
            let ghost pre = self.resources@[i as int];
            self.resources[i].amount_used_as_catalyst = 0;
            proof {
                assert(self.resources@[i as int]@.queue =~= pre@.queue);
                assert(self.resources@[i as int]@ =~= (ResModel { reserved: 0, ..pre@ }));
            }
            i += 1;
        }
        proof {
            assert(self@.resources =~= spec_reset_all(old(self)@.resources));
            assert(self@ =~= (SimModel {
                resources: spec_reset_all(old(self)@.resources),
                ..old(self)@
            }));
        }
    }
}

} // verus!
