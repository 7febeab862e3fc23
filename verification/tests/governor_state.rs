use rust_governor::governor::plan_tick;
use rust_governor::policy::{Level, Policy, Step, Targets};
use rust_governor::state::{Applied, GovernorState, LoadWindow, Setting, Write, HISTORY_LEN};

fn policy() -> Policy {
    let s = |k: u32, v: u32| Step { threshold: Level::At(k), value: v };
    Policy::new(
        &vec![s(50, 60), s(100, 100)],
        &vec![s(50, 0), s(100, 2)],
        &vec![s(50, 80), s(100, 10)],
        Level::At(45),
        70,
        &vec![s(100, 50)],
        &vec![s(100, 90)],
        Level::At(60),
    )
}

#[test]
fn window_keeps_the_latest_samples() {
    let mut w = LoadWindow::new(3);
    for x in 1..=5u32 {
        w.add(x);
    }
    assert_eq!(w.samples(), &vec![3, 4, 5]);
    assert_eq!(w.len(), 3);
    assert_eq!(w.capacity(), 3);
}

#[test]
fn window_of_no_samples_stays_empty() {
    let mut w = LoadWindow::new(0);
    w.add(1.5f32);
    assert!(w.samples().is_empty());
}

#[test]
fn governor_history_holds_ten_loads() {
    let mut g: GovernorState<f32> = GovernorState::new();
    for i in 0..25 {
        g.add_load(i as f32);
    }
    assert_eq!(HISTORY_LEN, 10);
    assert_eq!(g.history().len(), 10);
    assert_eq!(g.history()[0], 15.0);
    assert_eq!(g.history()[9], 24.0);
}

#[test]
fn the_first_source_noted_is_a_change_and_a_repeat_is_not() {
    let mut g: GovernorState<f32> = GovernorState::new();
    assert_eq!(g.last_power_source(), None);
    assert!(g.note_power_source(true));
    assert!(!g.note_power_source(true));
    assert!(g.note_power_source(false));
    assert_eq!(g.last_power_source(), Some(false));
}

#[test]
fn a_change_writes_all_four_settings_in_order() {
    let g: GovernorState<f32> = GovernorState::new();
    let t = Targets { max: 1, turbo: 2, epp: 3, cooling: 4 };
    let ws = g.pending_writes(t, true, true);
    assert_eq!(
        ws,
        vec![
            Write { setting: Setting::Boost, value: 2 },
            Write { setting: Setting::MaxState, value: 1 },
            Write { setting: Setting::Epp, value: 3 },
            Write { setting: Setting::Cooling, value: 4 },
        ]
    );
}

#[test]
fn only_differing_settings_are_written_without_a_change() {
    let mut g: GovernorState<f32> = GovernorState::new();
    let t = Targets { max: 1, turbo: 2, epp: 3, cooling: 4 };
    for w in g.pending_writes(t, true, true) {
        g.record_write(true, w);
    }
    assert!(g.pending_writes(t, true, false).is_empty());
    let t2 = Targets { max: 1, turbo: 2, epp: 9, cooling: 4 };
    assert_eq!(g.pending_writes(t2, true, false), vec![Write { setting: Setting::Epp, value: 9 }]);
    // battery settings are kept apart
    assert_eq!(g.pending_writes(t, false, false).len(), 4);
    assert_eq!(g.applied(false), Applied { boost: None, max: None, epp: None, cooling: None });
}

#[test]
fn a_failed_write_stays_pending() {
    let mut g: GovernorState<f32> = GovernorState::new();
    let t = Targets { max: 1, turbo: 2, epp: 3, cooling: 4 };
    for w in g.pending_writes(t, false, true) {
        if w.setting != Setting::MaxState {
            g.record_write(false, w);
        }
    }
    assert_eq!(g.pending_writes(t, false, false), vec![Write { setting: Setting::MaxState, value: 1 }]);
}

#[test]
fn a_steady_tick_after_successful_writes_writes_nothing() {
    let p = policy();
    let mut g: GovernorState<f32> = GovernorState::new();
    let first = plan_tick(&mut g, &p, Level::At(70), true);
    assert!(first.changed);
    assert_eq!(first.targets, Targets { max: 100, turbo: 2, epp: 10, cooling: 1 });
    assert_eq!(first.writes.len(), 4);
    for w in first.writes {
        g.record_write(true, w);
    }
    let second = plan_tick(&mut g, &p, Level::At(70), true);
    assert!(!second.changed);
    assert!(second.writes.is_empty());
    // unplugging rewrites everything for the battery
    let third = plan_tick(&mut g, &p, Level::At(70), false);
    assert!(third.changed);
    assert_eq!(third.targets, Targets { max: 50, turbo: 0, epp: 90, cooling: 1 });
    assert_eq!(third.writes.len(), 4);
}

#[test]
fn returning_to_mains_rewrites_even_unchanged_values() {
    let p = policy();
    let mut g: GovernorState<f32> = GovernorState::new();
    for w in plan_tick(&mut g, &p, Level::At(10), true).writes {
        g.record_write(true, w);
    }
    plan_tick(&mut g, &p, Level::At(10), false);
    let back = plan_tick(&mut g, &p, Level::At(10), true);
    assert!(back.changed);
    assert_eq!(back.writes.len(), 4);
}
