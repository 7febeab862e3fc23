use rust_governor::config::{default_content, read_config, Entry};
use rust_governor::policy::{
    cooling_mode, first_fit, level_at_least, level_at_most, level_of_bits, sort_by_threshold, Level,
    Policy, Step, Targets,
};

fn at(k: u32) -> Level {
    Level::At(k)
}

fn step(k: u32, v: u32) -> Step {
    Step { threshold: at(k), value: v }
}

fn rows(t: &[Step]) -> Vec<(Option<u32>, u32)> {
    t.iter()
        .map(|s| {
            let k = match s.threshold {
                Level::At(k) => Some(k),
                Level::Unordered => None,
            };
            (k, s.value)
        })
        .collect()
}

/// Loads in these tests are whole percentages, placed at their own value.
fn steps(t: &[Entry]) -> Vec<Step> {
    t.iter().map(|e| step(e.threshold.parse().unwrap(), e.value)).collect()
}

fn default_policy() -> Policy {
    let lines: Vec<String> = default_content().lines().map(String::from).collect();
    let c = read_config(&lines).unwrap();
    Policy::new(
        &steps(&c.ac_max),
        &steps(&c.ac_turbo),
        &steps(&c.ac_epp),
        at(c.ac_cooling),
        c.dc_max_cap,
        &steps(&c.dc_max),
        &steps(&c.dc_epp),
        at(c.dc_cooling),
    )
}

#[test]
fn sorting_orders_by_threshold_and_keeps_file_order_among_equals() {
    let t = vec![step(50, 1), step(10, 2), step(50, 3), step(10, 4), step(30, 5)];
    let s = sort_by_threshold(&t);
    assert_eq!(
        rows(&s),
        vec![(Some(10), 2), (Some(10), 4), (Some(30), 5), (Some(50), 1), (Some(50), 3)]
    );
}

#[test]
fn a_single_row_without_order_can_be_sorted() {
    let t = vec![Step { threshold: Level::Unordered, value: 9 }];
    assert_eq!(rows(&sort_by_threshold(&t)), vec![(None, 9)]);
}

#[test]
fn first_fit_takes_the_first_covering_row() {
    let t = vec![step(10, 1), step(20, 2), step(30, 3)];
    assert_eq!(first_fit(&t, at(0)), Some(1));
    assert_eq!(first_fit(&t, at(10)), Some(1));
    assert_eq!(first_fit(&t, at(11)), Some(2));
    assert_eq!(first_fit(&t, at(30)), Some(3));
    assert_eq!(first_fit(&t, at(31)), None);
    assert_eq!(first_fit(&t, Level::Unordered), None);
}

#[test]
fn least_covering_threshold_wins_whatever_the_file_order() {
    // file order: 60, 20, 40, 20 ; at load 15 the first row at 20 wins,
    // at load 30 the row at 40
    let p = Policy::new(
        &vec![step(60, 1), step(20, 2), step(40, 3), step(20, 4)],
        &vec![],
        &vec![],
        at(45),
        70,
        &vec![],
        &vec![],
        at(60),
    );
    assert_eq!(p.choose_targets(at(15), true).max, 2);
    assert_eq!(p.choose_targets(at(30), true).max, 3);
    assert_eq!(p.choose_targets(at(61), true).max, 100);
}

#[test]
fn default_policy_on_mains_power() {
    let p = default_policy();
    assert_eq!(p.choose_targets(at(0), true), Targets { max: 80, turbo: 0, epp: 100, cooling: 0 });
    assert_eq!(p.choose_targets(at(12), true), Targets { max: 80, turbo: 0, epp: 70, cooling: 0 });
    assert_eq!(p.choose_targets(at(45), true), Targets { max: 100, turbo: 0, epp: 33, cooling: 0 });
    assert_eq!(p.choose_targets(at(46), true), Targets { max: 100, turbo: 0, epp: 33, cooling: 1 });
    assert_eq!(p.choose_targets(at(75), true), Targets { max: 100, turbo: 2, epp: 20, cooling: 1 });
    assert_eq!(p.choose_targets(at(101), true), Targets { max: 100, turbo: 0, epp: 100, cooling: 1 });
}

#[test]
fn default_policy_on_battery() {
    let p = default_policy();
    assert_eq!(p.choose_targets(at(0), false), Targets { max: 50, turbo: 0, epp: 100, cooling: 0 });
    assert_eq!(p.choose_targets(at(30), false), Targets { max: 60, turbo: 0, epp: 80, cooling: 0 });
    assert_eq!(p.choose_targets(at(60), false), Targets { max: 70, turbo: 0, epp: 70, cooling: 0 });
    assert_eq!(p.choose_targets(at(61), false), Targets { max: 70, turbo: 0, epp: 60, cooling: 1 });
    // above every threshold: the cap, for both max and preference
    assert_eq!(p.choose_targets(at(150), false), Targets { max: 70, turbo: 0, epp: 70, cooling: 1 });
}

#[test]
fn battery_max_never_exceeds_the_cap() {
    let p = Policy::new(&vec![], &vec![], &vec![], at(45), 40, &vec![step(50, 90), step(100, 20)], &vec![], at(60));
    assert_eq!(p.choose_targets(at(10), false).max, 40);
    assert_eq!(p.choose_targets(at(70), false).max, 20);
    assert_eq!(p.choose_targets(at(200), false).max, 40);
}

#[test]
fn a_load_without_order_gets_the_defaults() {
    let p = default_policy();
    assert_eq!(
        p.choose_targets(Level::Unordered, true),
        Targets { max: 100, turbo: 0, epp: 100, cooling: 0 }
    );
    assert_eq!(
        p.choose_targets(Level::Unordered, false),
        Targets { max: 70, turbo: 0, epp: 70, cooling: 0 }
    );
}

#[test]
fn cooling_turns_active_only_above_the_threshold() {
    assert_eq!(cooling_mode(at(44), at(45)), 0);
    assert_eq!(cooling_mode(at(45), at(45)), 0);
    assert_eq!(cooling_mode(at(46), at(45)), 1);
    assert_eq!(cooling_mode(Level::Unordered, at(45)), 0);
    assert_eq!(cooling_mode(at(46), Level::Unordered), 0);
}

#[test]
fn levels_compare_as_the_floats_do() {
    let xs = [
        0.0f32,
        -0.0,
        1.0,
        -1.0,
        0.5,
        45.0,
        45.000004,
        100.0,
        f32::MIN_POSITIVE,
        -f32::MIN_POSITIVE,
        1e-45,
        -1e-45,
        f32::MAX,
        f32::MIN,
        f32::INFINITY,
        f32::NEG_INFINITY,
        f32::NAN,
        -f32::NAN,
    ];
    for a in xs {
        for b in xs {
            let (la, lb) = (level_of_bits(a.to_bits()), level_of_bits(b.to_bits()));
            assert_eq!(level_at_most(la, lb), a <= b, "{a} <= {b}");
            assert_eq!(level_at_least(la, lb), a >= b, "{a} >= {b}");
        }
    }
    assert!(matches!(level_of_bits(f32::NAN.to_bits()), Level::Unordered));
}
