use reson::parser::{
    ParseError, parse_fixed, parse_simulation_lines, parse_time_string, parse_u64,
};
use reson::simulation::Simulation;

fn lines(text: &str) -> Vec<Vec<u8>> {
    text.split('\n').map(|l| l.as_bytes().to_vec()).collect()
}

#[test]
fn parse_u64_accepts_digit_runs() {
    assert_eq!(parse_u64(&b"0".to_vec()), Some(0));
    assert_eq!(parse_u64(&b"12345".to_vec()), Some(12345));
    assert_eq!(parse_u64(&b"".to_vec()), None);
    assert_eq!(parse_u64(&b"12a".to_vec()), None);
    assert_eq!(parse_u64(&b"-3".to_vec()), None);
}

#[test]
fn parse_fixed_scales_to_thousandths() {
    assert_eq!(parse_fixed(&b"1".to_vec()), Some(1000));
    assert_eq!(parse_fixed(&b"0.6".to_vec()), Some(600));
    assert_eq!(parse_fixed(&b"2.25".to_vec()), Some(2250));
    assert_eq!(parse_fixed(&b"0.125".to_vec()), Some(125));
    // Digits past the third fraction place are dropped.
    assert_eq!(parse_fixed(&b"1.2345".to_vec()), Some(1234));
    assert_eq!(parse_fixed(&b"1.".to_vec()), Some(1000));
    assert_eq!(parse_fixed(&b"x".to_vec()), None);
    assert_eq!(parse_fixed(&b"1.2.3".to_vec()), None);
}

#[test]
fn parse_time_string_units() {
    assert_eq!(parse_time_string(&b"5".to_vec(), &b"s".to_vec()), Some(5));
    assert_eq!(parse_time_string(&b"5".to_vec(), &b"m".to_vec()), Some(300));
    assert_eq!(parse_time_string(&b"2".to_vec(), &b"h".to_vec()), Some(7200));
    assert_eq!(parse_time_string(&b"1".to_vec(), &b"d".to_vec()), Some(86400));
    assert_eq!(parse_time_string(&b"1".to_vec(), &b"w".to_vec()), Some(604800));
    assert_eq!(parse_time_string(&b"1".to_vec(), &b"y".to_vec()), Some(31557600));
    assert_eq!(parse_time_string(&b"1".to_vec(), &b"q".to_vec()), None);
    assert_eq!(parse_time_string(&b"x".to_vec(), &b"s".to_vec()), None);
}

#[test]
fn parses_resources_and_processes() {
    let text = "\
wood
resource
    unit kg
    max 100
    amount 10

chop
process
    produce
        wood 5
    period 1 s
";
    let (resources, processes, pools) = parse_simulation_lines(&lines(text)).unwrap();
    assert_eq!(resources.len(), 1);
    assert_eq!(resources[0].name, b"wood".to_vec());
    assert_eq!(resources[0].unit, b"kg".to_vec());
    assert_eq!(resources[0].max, 100_000);
    assert_eq!(resources[0].amount, 10_000);
    assert_eq!(processes.len(), 1);
    assert_eq!(processes[0].name, b"chop".to_vec());
    assert_eq!(processes[0].period, 1);
    assert_eq!(processes[0].output.len(), 1);
    assert_eq!(processes[0].output[0].0, b"wood".to_vec());
    assert_eq!(processes[0].output[0].1, 5000);
    assert_eq!(pools.len(), 0);
}

#[test]
fn positive_on_use_budget_makes_a_pool() {
    let text = "\
saw
process
    on_use 1
    use
        fuel 1
";
    let (_, processes, pools) = parse_simulation_lines(&lines(text)).unwrap();
    assert_eq!(processes.len(), 0);
    assert_eq!(pools.len(), 1);
    assert_eq!(pools[0].name, b"saw".to_vec());
    assert_eq!(pools[0].on_use, 1000);
    assert_eq!(pools[0].input[0].1, 1000);
}

#[test]
fn lifetime_in_seconds() {
    let text = "\
milk
resource
    life 2 m
";
    let (resources, _, _) = parse_simulation_lines(&lines(text)).unwrap();
    assert_eq!(resources[0].life, 120);
}

#[test]
fn constraint_ranges_scale_to_seconds() {
    let text = "\
work
process
    period 1 s
    constraint
        h 9-17
        s 50-10
";
    let (_, processes, _) = parse_simulation_lines(&lines(text)).unwrap();
    let p = &processes[0];
    assert_eq!(p.constraint_modulo, vec![86400, 60]);
    assert_eq!(p.constraint[0][0].start, 9 * 3600);
    assert_eq!(p.constraint[0][0].end, 18 * 3600 - 1);
    // A wrapping range keeps its raw endpoints; the evaluator handles the
    // wrap.
    assert_eq!(p.constraint[1][0].start, 50);
    assert_eq!(p.constraint[1][0].end, 10);
}

#[test]
fn week_scale_shifts_for_epoch_weekday() {
    let text = "\
work
process
    constraint
        w 0-1
";
    let (_, processes, _) = parse_simulation_lines(&lines(text)).unwrap();
    let p = &processes[0];
    assert_eq!(p.constraint_modulo, vec![604800]);
    // Day zero shifts by four days: the epoch was a Thursday.
    assert_eq!(p.constraint[0][0].start, 4 * 86400);
    assert_eq!(p.constraint[0][0].end, (2 + 4) * 86400 - 1);
}

#[test]
fn single_constraint_value_covers_one_unit() {
    let text = "\
work
process
    constraint
        h 9
";
    let (_, processes, _) = parse_simulation_lines(&lines(text)).unwrap();
    let p = &processes[0];
    assert_eq!(p.constraint[0][0].start, 9 * 3600);
    assert_eq!(p.constraint[0][0].end, 10 * 3600 - 1);
}

#[test]
fn later_definition_replaces_earlier_in_place() {
    let text = "\
wood
resource
    amount 1
iron
resource
    amount 2
wood
resource
    amount 3
";
    let (resources, _, _) = parse_simulation_lines(&lines(text)).unwrap();
    assert_eq!(resources.len(), 2);
    assert_eq!(resources[0].name, b"wood".to_vec());
    assert_eq!(resources[0].amount, 3000);
    assert_eq!(resources[1].name, b"iron".to_vec());
}

#[test]
fn comments_and_blank_lines_are_skipped() {
    let text = "\
# a definition file

wood
resource
# nothing here
    amount 4
";
    let (resources, _, _) = parse_simulation_lines(&lines(text)).unwrap();
    assert_eq!(resources.len(), 1);
    assert_eq!(resources[0].amount, 4000);
}

#[test]
fn malformed_values_are_rejected() {
    let bad_number = "\
wood
resource
    max abc
";
    assert_eq!(parse_simulation_lines(&lines(bad_number)).unwrap_err(), ParseError::BadNumber);
    let bad_time = "\
wood
resource
    life 5 q
";
    assert_eq!(parse_simulation_lines(&lines(bad_time)).unwrap_err(), ParseError::BadTime);
    let bad_constraint = "\
work
process
    constraint
        q 1-2
";
    assert_eq!(parse_simulation_lines(&lines(bad_constraint)).unwrap_err(), ParseError::BadConstraint);
    let missing = "\
wood
resource
    max
";
    assert_eq!(parse_simulation_lines(&lines(missing)).unwrap_err(), ParseError::MissingValue);
}

#[test]
fn unknown_keywords_are_skipped() {
    let text = "\
wood
resource
    colour brown
    amount 2
";
    let (resources, _, _) = parse_simulation_lines(&lines(text)).unwrap();
    assert_eq!(resources[0].amount, 2000);
}

#[test]
fn simulation_builds_straight_from_lines() {
    let text = "\
wood
resource
    amount 1

chop
process
    produce
        wood 1
    period 1 s
";
    let mut sim = Simulation::from_definition_lines(&lines(text)).unwrap();
    sim.set_start_time(1000);
    sim.run(2);
    assert_eq!(sim.resources[0].amount, 3000);
    assert_eq!(sim.time, 1002);
}

#[test]
fn parsed_definitions_drive_the_engine() {
    let text = "\
wood
resource
    max 100
    amount 10

chop
process
    produce
        wood 5
    period 1 s
";
    let (resources, processes, pools) = parse_simulation_lines(&lines(text)).unwrap();
    let mut sim = Simulation::new(resources, processes, pools);
    sim.run(3);
    // Fixed-point thousandths: 25.0 units of wood after three ticks.
    assert_eq!(sim.resources[0].amount, 25_000);
}
