//! Transformation rules: ordinary processes (consume inputs, require
//! catalysts, produce outputs on a periodic, time-windowed schedule) and
//! on-use pools (processes with a per-tick shared usage budget that other
//! processes draw on by name).

use vstd::prelude::*;
use crate::constraint::TimeRange;
use crate::resource::AMOUNT_CAP;

verus! {

/// What a rule entry refers to once names are resolved against the
/// registry: a resource of the ledger, an on-use pool, or nothing — an
/// unknown name is a definition error that makes the rule unrunnable, never
/// a crash.
#[derive(Clone, Copy, PartialEq, Eq, Structural, Debug)]
pub enum Target {
    Res(usize),
    Pool(usize),
    Missing,
}

/// One requirement or yield of a rule: a resolved target and a per-invocation
/// quantity in fixed-point units.
#[derive(Clone, Copy, PartialEq, Eq, Structural, Debug)]
pub struct Entry {
    pub target: Target,
    pub qty: i64,
}

/// A process definition as the loader produces it: maps are association
/// lists from resource name to quantity, in declaration order. A definition
/// with `on_use > 0` is an on-use pool; its `on_use` value is the pool's
/// per-tick budget.
#[derive(Debug, Clone)]
pub struct Process {
    pub name: Vec<u8>,
    pub input: Vec<(Vec<u8>, i64)>,
    pub output: Vec<(Vec<u8>, i64)>,
    pub catalyst: Vec<(Vec<u8>, i64)>,
    pub max_catalyst: u64,
    pub period: u64,
    pub period_delta: u64,
    pub constraint: Vec<Vec<TimeRange>>,
    pub constraint_modulo: Vec<u64>,
    pub on_use: i64,
}

/// Every quantity of a definition list lies in the representable band.
pub open spec fn def_list_wf(l: Seq<(Vec<u8>, i64)>) -> bool {
    forall|i: int| 0 <= i < l.len() ==> 0 <= (#[trigger] l[i]).1 <= AMOUNT_CAP
}

/// The names of a definition list are pairwise distinct, as keys of a
/// mapping are.
pub open spec fn def_names_distinct(l: Seq<(Vec<u8>, i64)>) -> bool {
    forall|i: int, j: int|
        0 <= i < j < l.len() ==> (#[trigger] l[i]).0@ != (#[trigger] l[j]).0@
}

impl Process {
    /// Well-formedness of a definition: quantities and the budget inside the
    /// representable band, constraint ranges paired one-to-one with their
    /// moduli, and each map's keys distinct.
    pub open spec fn wf(&self) -> bool {
        &&& def_list_wf(self.input@)
        &&& def_list_wf(self.output@)
        &&& def_list_wf(self.catalyst@)
        &&& def_names_distinct(self.input@)
        &&& def_names_distinct(self.output@)
        &&& def_names_distinct(self.catalyst@)
        &&& self.constraint@.len() == self.constraint_modulo@.len()
        &&& 0 <= self.on_use <= AMOUNT_CAP
    }
}

impl Default for Process {
    /// An empty rule: no requirements, no yields, a single allowed
    /// invocation, and no schedule (a zero period is never due).
    fn default() -> (r: Process)
        ensures
            r.wf(),
            r.input@.len() == 0,
            r.output@.len() == 0,
            r.catalyst@.len() == 0,
            r.max_catalyst == 1,
            r.period == 0,
            r.period_delta == 0,
            r.constraint@.len() == 0,
            r.constraint_modulo@.len() == 0,
            r.on_use == 0,
            r.name@.len() == 0,
    {
        Process {
            name: Vec::new(),
            input: Vec::new(),
            output: Vec::new(),
            catalyst: Vec::new(),
            max_catalyst: 1,
            period: 0,
            period_delta: 0,
            constraint: Vec::new(),
            constraint_modulo: Vec::new(),
            on_use: 0,
        }
    }
}

/// Mathematical model of a resolved ordinary process.
#[verifier::ext_equal]
pub ghost struct ProcModel {
    pub name: Seq<u8>,
    pub input: Seq<Entry>,
    pub output: Seq<Entry>,
    pub catalyst: Seq<Entry>,
    pub max_catalyst: int,
    pub period: int,
    pub period_delta: int,
    pub constraint: Seq<Seq<TimeRange>>,
    pub modulo: Seq<u64>,
}

/// An ordinary process with its entry names resolved to ledger and pool
/// indices. Resolution happens once, at construction: the registry is
/// immutable during a run, so a name means the same thing at every tick.
#[derive(Debug)]
pub struct RunProcess {
    pub name: Vec<u8>,
    pub input: Vec<Entry>,
    pub output: Vec<Entry>,
    pub catalyst: Vec<Entry>,
    pub max_catalyst: u64,
    pub period: u64,
    pub period_delta: u64,
    pub constraint: Vec<Vec<TimeRange>>,
    pub constraint_modulo: Vec<u64>,
}

impl View for RunProcess {
    type V = ProcModel;

    open spec fn view(&self) -> ProcModel {
        ProcModel {
            name: self.name@,
            input: self.input@,
            output: self.output@,
            catalyst: self.catalyst@,
            max_catalyst: self.max_catalyst as int,
            period: self.period as int,
            period_delta: self.period_delta as int,
            constraint: self.constraint@.map_values(|v: Vec<TimeRange>| v@),
            modulo: self.constraint_modulo@,
        }
    }
}

/// Mathematical model of an on-use pool. `acc` is the running reservation
/// accumulator: `-on_use` right after a successful pre-reservation, moved
/// toward zero by each consumer's draw; `acc_writer` accumulates the drawn
/// quantity of each tick for reporting.
#[verifier::ext_equal]
pub ghost struct PoolModel {
    pub name: Seq<u8>,
    pub input: Seq<Entry>,
    pub on_use: int,
    pub acc: int,
    pub acc_writer: int,
}

/// An on-use pool: a shared depleting budget of `on_use` units per tick,
/// usable only when its own input requirements were satisfied at the start
/// of the tick.
#[derive(Debug)]
pub struct RunPool {
    pub name: Vec<u8>,
    pub input: Vec<Entry>,
    pub on_use: i64,
    pub on_use_accumulate: i64,
    pub on_use_accumulate_for_writer: i128,
}

impl View for RunPool {
    type V = PoolModel;

    open spec fn view(&self) -> PoolModel {
        PoolModel {
            name: self.name@,
            input: self.input@,
            on_use: self.on_use as int,
            acc: self.on_use_accumulate as int,
            acc_writer: self.on_use_accumulate_for_writer as int,
        }
    }
}

/// Well-formedness of a resolved entry list: quantities in band, every
/// resource index inside the ledger, pool references only where allowed and
/// inside the pool registry, and no two entries aimed at the same place —
/// map keys are distinct and resolution is injective.
pub open spec fn entries_wf(es: Seq<Entry>, n_res: int, n_pool: int, allow_pool: bool) -> bool {
    &&& forall|i: int|
        0 <= i < es.len() ==> {
            &&& 0 <= (#[trigger] es[i]).qty <= AMOUNT_CAP
            &&& match es[i].target {
                Target::Res(r) => r < n_res,
                Target::Pool(p) => allow_pool && p < n_pool,
                Target::Missing => true,
            }
        }
    &&& forall|i: int, j: int|
        0 <= i < j < es.len() ==> ((#[trigger] es[i]).target == (#[trigger] es[j]).target
            ==> es[i].target is Missing)
}

/// Well-formedness of a resolved process against registry sizes.
pub open spec fn proc_wf(p: ProcModel, n_res: int, n_pool: int) -> bool {
    &&& entries_wf(p.input, n_res, n_pool, true)
    &&& entries_wf(p.output, n_res, n_pool, false)
    &&& entries_wf(p.catalyst, n_res, n_pool, false)
    &&& p.constraint.len() == p.modulo.len()
}

/// Well-formedness of a pool: a positive budget in band, the accumulator
/// between full reservation and zero, and resolved inputs that only name
/// ledger resources.
pub open spec fn pool_wf(p: PoolModel, n_res: int) -> bool {
    &&& 1 <= p.on_use <= AMOUNT_CAP
    &&& -p.on_use <= p.acc <= 0
    &&& entries_wf(p.input, n_res, 0, false)
}

} // verus!
