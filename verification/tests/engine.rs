use reson::process::Process;
use reson::resource::{Resource, STAT_MIN_INIT};
use reson::simulation::Simulation;

fn resource(name: &[u8], max: i64, amount: i64, life: u64) -> Resource {
    let mut r = Resource::default();
    r.name = name.to_vec();
    r.max = max;
    r.amount = amount;
    r.life = life;
    r
}

fn process(name: &[u8]) -> Process {
    let mut p = Process::default();
    p.name = name.to_vec();
    p
}

#[test]
fn producer_fills_resource_each_tick() {
    // wood {max: 100, amount: 10}, chop {output: wood: 5, period: 1s},
    // three ticks: 10 -> 15 -> 20 -> 25, each row showing the rising
    // current value and a matching running max.
    let wood = resource(b"wood", 100, 10, 0);
    let mut chop = process(b"chop");
    chop.output = vec![(b"wood".to_vec(), 5)];
    chop.period = 1;
    let mut sim = Simulation::new(vec![wood], vec![chop], vec![]);
    let rows = sim.run(3);
    assert_eq!(rows.len(), 3);
    assert_eq!(rows[0].stats[0].current, 15);
    assert_eq!(rows[1].stats[0].current, 20);
    assert_eq!(rows[2].stats[0].current, 25);
    assert_eq!(rows[0].stats[0].max, 15);
    assert_eq!(rows[1].stats[0].max, 20);
    assert_eq!(rows[2].stats[0].max, 25);
    assert_eq!(rows[0].stats[0].min, 15);
    assert_eq!(rows[0].stats[0].sum, 15);
    assert_eq!(rows[0].elapsed, 1);
    assert_eq!(sim.resources[0].amount, 25);
}

#[test]
fn producer_stops_at_capacity() {
    let wood = resource(b"wood", 20, 10, 0);
    let mut chop = process(b"chop");
    chop.output = vec![(b"wood".to_vec(), 4)];
    chop.period = 1;
    let mut sim = Simulation::new(vec![wood], vec![chop], vec![]);
    sim.run(5);
    // 10 -> 14 -> 18 -> 20 (headroom 2 admits no whole invocation of 4).
    assert_eq!(sim.resources[0].amount, 18);
    sim.run(5);
    assert_eq!(sim.resources[0].amount, 18);
}

#[test]
fn consumer_respects_input_bound() {
    let ore = resource(b"ore", 1000, 10, 0);
    let metal = resource(b"metal", 1000, 0, 0);
    let mut smelt = process(b"smelt");
    smelt.input = vec![(b"ore".to_vec(), 3)];
    smelt.output = vec![(b"metal".to_vec(), 1)];
    smelt.period = 1;
    let mut sim = Simulation::new(vec![ore, metal], vec![smelt], vec![]);
    sim.run(1);
    assert_eq!(sim.resources[0].amount, 7);
    assert_eq!(sim.resources[1].amount, 1);
    sim.run(5);
    // 10 units of ore feed exactly 3 invocations; 1 unit remains forever.
    assert_eq!(sim.resources[0].amount, 1);
    assert_eq!(sim.resources[1].amount, 3);
}

#[test]
fn concurrency_cap_limits_invocations() {
    let ore = resource(b"ore", 1000, 100, 0);
    let metal = resource(b"metal", 1000, 0, 0);
    let mut smelt = process(b"smelt");
    smelt.input = vec![(b"ore".to_vec(), 3)];
    smelt.output = vec![(b"metal".to_vec(), 1)];
    smelt.period = 1;
    smelt.max_catalyst = 4;
    let mut sim = Simulation::new(vec![ore, metal], vec![smelt], vec![]);
    sim.run(1);
    // Four simultaneous invocations: inputs would admit 33.
    assert_eq!(sim.resources[0].amount, 88);
    assert_eq!(sim.resources[1].amount, 4);
}

#[test]
fn catalyst_is_reserved_not_consumed() {
    let tool = resource(b"tool", 100, 2, 0);
    let plank = resource(b"plank", 100, 0, 0);
    let mut saw_a = process(b"saw_a");
    saw_a.catalyst = vec![(b"tool".to_vec(), 1)];
    saw_a.output = vec![(b"plank".to_vec(), 1)];
    saw_a.period = 1;
    saw_a.max_catalyst = 10;
    let mut saw_b = process(b"saw_b");
    saw_b.catalyst = vec![(b"tool".to_vec(), 1)];
    saw_b.output = vec![(b"plank".to_vec(), 10)];
    saw_b.period = 1;
    saw_b.max_catalyst = 10;
    let mut sim = Simulation::new(vec![tool, plank], vec![saw_a, saw_b], vec![]);
    sim.run(1);
    // Two tool units: the first rule reserves both (2 invocations); the
    // second finds none uncommitted and cannot run. The tool itself is
    // never consumed.
    assert_eq!(sim.resources[0].amount, 2);
    assert_eq!(sim.resources[1].amount, 2);
}

#[test]
fn unknown_input_name_never_runs() {
    let wood = resource(b"wood", 100, 50, 0);
    let mut ghost_mill = process(b"mill");
    ghost_mill.input = vec![(b"nothing".to_vec(), 1)];
    ghost_mill.output = vec![(b"wood".to_vec(), 5)];
    ghost_mill.period = 1;
    let mut sim = Simulation::new(vec![wood], vec![ghost_mill], vec![]);
    sim.run(3);
    assert_eq!(sim.resources[0].amount, 50);
}

#[test]
fn unknown_output_name_is_ignored() {
    let wood = resource(b"wood", 100, 50, 0);
    let mut mill = process(b"mill");
    mill.input = vec![(b"wood".to_vec(), 5)];
    mill.output = vec![(b"nowhere".to_vec(), 5)];
    mill.period = 1;
    let mut sim = Simulation::new(vec![wood], vec![mill], vec![]);
    sim.run(1);
    assert_eq!(sim.resources[0].amount, 45);
}

#[test]
fn decay_round_trip_loses_exactly_what_was_produced() {
    // Produced wood lives three seconds: each tick adds 5 and, from the
    // fourth tick on, the batch produced three ticks earlier expires.
    let wood = resource(b"wood", 1000, 0, 3);
    let mut chop = process(b"chop");
    chop.output = vec![(b"wood".to_vec(), 5)];
    chop.period = 1;
    let mut sim = Simulation::new(vec![wood], vec![chop], vec![]);
    let rows = sim.run(6);
    let levels: Vec<i64> = rows.iter().map(|r| r.stats[0].current).collect();
    // t=0 produces a batch expiring at t=3; the tick at t=3 first decays
    // that batch, then produces anew: the level plateaus at 15.
    assert_eq!(levels, vec![5, 10, 15, 15, 15, 15]);
}

#[test]
fn decay_only_at_expiry() {
    let mut r = resource(b"r", 1000, 10, 0);
    r.decay_at = vec![5];
    r.decay_amount = vec![4];
    r.decay(4);
    assert_eq!(r.amount, 10);
    assert_eq!(r.decay_at.len(), 1);
    r.decay(5);
    assert_eq!(r.amount, 6);
    assert_eq!(r.decay_at.len(), 0);
}

#[test]
fn consumption_is_charged_against_pending_decay() {
    let mut r = resource(b"r", 1000, 9, 0);
    r.decay_at = vec![5, 6];
    r.decay_amount = vec![4, 5];
    // Consuming 6 drains the first pending batch and part of the second.
    r.consume(6);
    assert_eq!(r.amount, 3);
    assert_eq!(r.decay_amount, vec![0, 3]);
    r.decay(6);
    assert_eq!(r.amount, 0);
}

#[test]
fn pool_shared_by_two_rules_admits_one() {
    // saw {on_use_capacity: 1, input: {fuel: 1}}, two rules each drawing
    // 0.6 of the pool: only one fires, the tick's utilization reads 0.6,
    // and 0.4 of the fuel comes back — all in fixed-point thousandths.
    let fuel = resource(b"fuel", 100_000, 10_000, 0);
    let mut saw = process(b"saw");
    saw.on_use = 1000;
    saw.input = vec![(b"fuel".to_vec(), 1000)];
    let mut cut_a = process(b"cut_a");
    cut_a.input = vec![(b"saw".to_vec(), 600)];
    cut_a.period = 1;
    let mut cut_b = process(b"cut_b");
    cut_b.input = vec![(b"saw".to_vec(), 600)];
    cut_b.period = 1;
    let mut sim = Simulation::new(vec![fuel], vec![cut_a, cut_b], vec![saw]);
    let rows = sim.run(1);
    // Utilization: 0.6 of the budget was drawn.
    assert_eq!(rows[0].utilization, vec![600]);
    // Fuel: 1.0 debited at reservation, 0.4 refunded at settlement.
    assert_eq!(sim.resources[0].amount, 9_400);
    // Conservation: drawn + refund == capacity.
    let drawn = rows[0].utilization[0] as i64;
    let refund = sim.resources[0].amount - (10_000 - 1000);
    assert_eq!(drawn + refund, 1000);
}

#[test]
fn infeasible_pool_blocks_consumers() {
    let fuel = resource(b"fuel", 100_000, 500, 0);
    let mut saw = process(b"saw");
    saw.on_use = 1000;
    saw.input = vec![(b"fuel".to_vec(), 1000)];
    let mut cut = process(b"cut");
    cut.input = vec![(b"saw".to_vec(), 600)];
    cut.period = 1;
    let mut sim = Simulation::new(vec![fuel], vec![cut], vec![saw]);
    sim.run(1);
    // Not enough fuel to make the pool usable: nothing is debited and the
    // consumer cannot run.
    assert_eq!(sim.resources[0].amount, 500);
}

#[test]
fn throughput_monotone_in_requirement() {
    // The same rule with a larger per-invocation input requirement never
    // runs more often: 10 ore admit 5 invocations at quantity 2 but only 3
    // at quantity 3.
    let amounts = [(2, 5), (3, 3), (5, 2), (11, 0)];
    for (qty, expected) in amounts {
        let ore = resource(b"ore", 1000, 10, 0);
        let metal = resource(b"metal", 1000, 0, 0);
        let mut smelt = process(b"smelt");
        smelt.input = vec![(b"ore".to_vec(), qty)];
        smelt.output = vec![(b"metal".to_vec(), 1)];
        smelt.period = 1;
        smelt.max_catalyst = 100;
        let mut sim = Simulation::new(vec![ore, metal], vec![smelt], vec![]);
        sim.run(1);
        assert_eq!(sim.resources[1].amount, expected);
    }
}

#[test]
fn shared_input_and_catalyst_over_reserves() {
    // A resource listed as both input and catalyst of one rule: the bound
    // admits two invocations against the ten available units; the debit
    // lands first, so the stock ends at zero with the reservation counter
    // above it — later rules see nothing uncommitted, and nothing goes
    // negative.
    let x = resource(b"x", 1000, 10, 0);
    let y = resource(b"y", 1000, 0, 0);
    let mut both = process(b"both");
    both.input = vec![(b"x".to_vec(), 5)];
    both.catalyst = vec![(b"x".to_vec(), 5)];
    both.output = vec![(b"y".to_vec(), 1)];
    both.period = 1;
    both.max_catalyst = 10;
    let mut late = process(b"late");
    late.catalyst = vec![(b"x".to_vec(), 1)];
    late.output = vec![(b"y".to_vec(), 100)];
    late.period = 1;
    let mut sim = Simulation::new(vec![x, y], vec![both, late], vec![]);
    sim.run(1);
    assert_eq!(sim.resources[0].amount, 0);
    assert_eq!(sim.resources[1].amount, 2);
}

#[test]
fn periodic_due_check() {
    assert!(reson::constraint::time_period_check(5, 2, 2));
    assert!(reson::constraint::time_period_check(5, 2, 7));
    assert!(!reson::constraint::time_period_check(5, 2, 8));
    // A phase offset ahead of the clock wraps mathematically.
    assert!(reson::constraint::time_period_check(10, 7, 7));
    assert!(!reson::constraint::time_period_check(10, 7, 3));
    assert!(reson::constraint::time_period_check(10, 17, 7));
    // A zero period is a definition error: never due.
    assert!(!reson::constraint::time_period_check(0, 0, 0));
}

#[test]
fn wraparound_window() {
    // A range [50, 10] modulo 60 admits {50..59, 0..10} and rejects
    // {11..49}.
    let ranges = vec![vec![reson::constraint::TimeRange { start: 50, end: 10 }]];
    let moduli = vec![60];
    for t in 0u64..60 {
        let admitted = reson::constraint::constraint_check(&ranges, &moduli, t);
        let expected = t >= 50 || t <= 10;
        assert_eq!(admitted, expected, "time {}", t);
    }
}

#[test]
fn conjunction_of_windows() {
    // Both scales must admit: seconds in [0, 1] modulo 10 and in [0, 14]
    // modulo 60.
    let ranges = vec![
        vec![reson::constraint::TimeRange { start: 0, end: 1 }],
        vec![reson::constraint::TimeRange { start: 0, end: 14 }],
    ];
    let moduli = vec![10, 60];
    assert!(reson::constraint::constraint_check(&ranges, &moduli, 0));
    assert!(reson::constraint::constraint_check(&ranges, &moduli, 11));
    assert!(!reson::constraint::constraint_check(&ranges, &moduli, 2));
    assert!(!reson::constraint::constraint_check(&ranges, &moduli, 21));
    // No constraints at all: always admitted.
    assert!(reson::constraint::constraint_check(&vec![], &vec![], 12345));
}

#[test]
fn constrained_process_runs_only_in_window() {
    let wood = resource(b"wood", 1000, 0, 0);
    let mut chop = process(b"chop");
    chop.output = vec![(b"wood".to_vec(), 1)];
    chop.period = 1;
    chop.constraint = vec![vec![reson::constraint::TimeRange { start: 2, end: 3 }]];
    chop.constraint_modulo = vec![10];
    let mut sim = Simulation::new(vec![wood], vec![chop], vec![]);
    sim.run(20);
    // Two admitted seconds per ten-second cycle.
    assert_eq!(sim.resources[0].amount, 4);
}

#[test]
fn reporting_interval_groups_ticks() {
    let wood = resource(b"wood", 1000, 0, 0);
    let mut chop = process(b"chop");
    chop.output = vec![(b"wood".to_vec(), 2)];
    chop.period = 1;
    let mut sim = Simulation::new(vec![wood], vec![chop], vec![]);
    sim.set_start_time(100);
    sim.set_reporting_interval(2);
    let rows = sim.run(4);
    assert_eq!(rows.len(), 2);
    assert_eq!(rows[0].time, 101);
    assert_eq!(rows[0].elapsed, 1);
    assert_eq!(rows[0].stats[0].current, 2);
    assert_eq!(rows[1].time, 103);
    assert_eq!(rows[1].elapsed, 2);
    assert_eq!(rows[1].stats[0].current, 6);
    // The interval's min/sum/max cover the two ticks since the last row.
    assert_eq!(rows[1].stats[0].min, 4);
    assert_eq!(rows[1].stats[0].max, 6);
    assert_eq!(rows[1].stats[0].sum, 10);
}

#[test]
fn statistics_reset_between_rows() {
    let wood = resource(b"wood", 1000, 0, 0);
    let mut chop = process(b"chop");
    chop.output = vec![(b"wood".to_vec(), 1)];
    chop.period = 1;
    let mut sim = Simulation::new(vec![wood], vec![chop], vec![]);
    let rows = sim.run(2);
    assert_eq!(rows[0].stats[0].min, 1);
    assert_eq!(rows[1].stats[0].min, 2);
    assert_eq!(sim.resources[0].resource_min_for_writer, STAT_MIN_INIT);
    assert_eq!(sim.resources[0].resource_max_for_writer, 0);
    assert_eq!(sim.resources[0].resource_avg_for_writer, 0);
}

#[test]
fn pool_name_is_not_a_catalyst() {
    // Catalyst entries resolve against resources only: a catalyst naming a
    // pool is a definition error and the rule never runs.
    let fuel = resource(b"fuel", 1000, 100, 0);
    let wood = resource(b"wood", 1000, 0, 0);
    let mut saw = process(b"saw");
    saw.on_use = 10;
    saw.input = vec![(b"fuel".to_vec(), 1)];
    let mut cut = process(b"cut");
    cut.catalyst = vec![(b"saw".to_vec(), 1)];
    cut.output = vec![(b"wood".to_vec(), 1)];
    cut.period = 1;
    let mut sim = Simulation::new(vec![fuel, wood], vec![cut], vec![saw]);
    sim.run(1);
    assert_eq!(sim.resources[1].amount, 0);
}

#[test]
fn decay_can_drive_a_stock_negative() {
    // A pending decay larger than the stock leaves a visible negative
    // amount — a starvation anomaly the simulation reports and survives.
    let mut r = resource(b"r", 1000, 3, 0);
    r.decay_at = vec![1];
    r.decay_amount = vec![5];
    r.decay(1);
    assert_eq!(r.amount, -2);
}

#[test]
fn snapshot_reflects_state() {
    let wood = resource(b"wood", 100, 10, 0);
    let sim = Simulation::new(vec![wood], vec![], vec![]);
    let snap = sim.snapshot();
    assert_eq!(snap.len(), 1);
    assert_eq!(snap[0].name, b"wood".to_vec());
    assert_eq!(snap[0].amount, 10);
    assert_eq!(snap[0].max, 100);
}

#[test]
fn pool_refund_after_refill_is_a_visible_anomaly() {
    // A pool input refilled to capacity between reservation and settlement
    // can be pushed above its capacity by the refund. The overshoot stays
    // visible in the reported amount; nothing clamps it silently.
    let fuel = resource(b"fuel", 10, 10, 0);
    let mut saw = process(b"saw");
    saw.on_use = 2;
    saw.input = vec![(b"fuel".to_vec(), 2)];
    let mut refill = process(b"refill");
    refill.output = vec![(b"fuel".to_vec(), 2)];
    refill.period = 1;
    let mut cut = process(b"cut");
    cut.input = vec![(b"saw".to_vec(), 1)];
    cut.period = 1;
    let mut sim = Simulation::new(vec![fuel], vec![refill, cut], vec![saw]);
    sim.run(1);
    // Reservation debits 2 (fuel 8), the refill tops it back to 10, the
    // consumer draws half the budget, and settlement refunds 2 * 1 / 2 = 1.
    assert_eq!(sim.resources[0].amount, 11);
    assert_eq!(sim.resources[0].max, 10);
}

#[test]
fn zero_quantity_entry_imposes_no_bound() {
    let water = resource(b"water", 1000, 5, 0);
    let wood = resource(b"wood", 1000, 0, 0);
    let mut chop = process(b"chop");
    chop.input = vec![(b"water".to_vec(), 0)];
    chop.output = vec![(b"wood".to_vec(), 1)];
    chop.period = 1;
    chop.max_catalyst = 3;
    let mut sim = Simulation::new(vec![water, wood], vec![chop], vec![]);
    sim.run(1);
    assert_eq!(sim.resources[0].amount, 5);
    assert_eq!(sim.resources[1].amount, 3);
}
