//! Registering and polling watches.

use calcite_core::script::{Action, Predicate, WatchKind, WatchRegistry, WatchSpec};
use calcite_core::script_eval::{poll, predicate_holds, render_template};
use calcite_core::State;


#[test]
fn registry_smoke() {
    let mut r = WatchRegistry::new();
    let idx = r.register(WatchSpec {
        name: "tick".to_string(),
        kind: WatchKind::Stride { every: 100, last_fired_at: 0 },
        gate: None,
        actions: vec![Action::Emit],
        sample_vars: Vec::new(),
    });
    assert_eq!(idx, 0);
    assert_eq!(r.len(), 1);
    assert!(!r.halt_requested());
    assert_eq!(r.name_index("tick"), Some(0));
    assert_eq!(r.name_index("missing"), None);
}

fn empty_state() -> State {
    State::default()
}

#[test]
fn stride_fires_every_n() {
    let mut reg = WatchRegistry::new();
    reg.register(WatchSpec {
        name: "tick100".to_string(),
        kind: WatchKind::Stride { every: 100, last_fired_at: 0 },
        gate: None,
        actions: vec![Action::Emit],
        sample_vars: Vec::new(),
    });
    let mut state = empty_state();
    let mut count = 0;
    for tick in 0..=1000 {
        poll(&mut reg, &mut state, tick);
        count += reg.drain_events().len();
    }
    assert_eq!(count, 10);
}

#[test]
fn stride_fires_on_unaligned_poll_cadence() {
    let mut reg = WatchRegistry::new();
    reg.register(WatchSpec {
        name: "tick100".to_string(),
        kind: WatchKind::Stride { every: 100, last_fired_at: 0 },
        gate: None,
        actions: vec![Action::Emit],
        sample_vars: Vec::new(),
    });
    let mut state = empty_state();
    let mut count = 0;
    let mut tick = 0u32;
    while tick <= 10_000 {
        tick += 137;
        poll(&mut reg, &mut state, tick);
        count += reg.drain_events().len();
    }
    assert!(count >= 70, "stride starved on unaligned poll: only {count} fires");
}

#[test]
fn burst_fires_count_consecutive() {
    let mut reg = WatchRegistry::new();
    reg.register(WatchSpec {
        name: "burst".to_string(),
        kind: WatchKind::Burst { every: 100, count: 3 },
        gate: None,
        actions: vec![Action::Emit],
        sample_vars: Vec::new(),
    });
    let mut state = empty_state();
    let mut count = 0;
    for tick in 0..1000 {
        poll(&mut reg, &mut state, tick);
        count += reg.drain_events().len();
    }
    assert_eq!(count, 30);
}

#[test]
fn at_fires_exactly_once() {
    let mut reg = WatchRegistry::new();
    reg.register(WatchSpec {
        name: "scheduled".to_string(),
        kind: WatchKind::At { tick: 500 },
        gate: None,
        actions: vec![Action::Emit],
        sample_vars: Vec::new(),
    });
    let mut state = empty_state();
    let mut events = Vec::new();
    for tick in 0..1000 {
        poll(&mut reg, &mut state, tick);
        events.extend(reg.drain_events());
    }
    assert_eq!(events.len(), 1);
    assert_eq!(events[0].tick, 500);
}

#[test]
fn pseudo_pulse_make_then_release() {
    let mut reg = WatchRegistry::new();
    reg.register(WatchSpec {
        name: "tap".to_string(),
        kind: WatchKind::At { tick: 100 },
        gate: None,
        actions: vec![Action::PseudoActivePulse {
            pseudo: "active".to_string(),
            selector: "kb-1".to_string(),
            hold_ticks: 50,
        }],
        sample_vars: Vec::new(),
    });
    let mut state = empty_state();
    poll(&mut reg, &mut state, 99);
    assert!(!state.pseudo_class_active("active", "kb-1"));
    poll(&mut reg, &mut state, 100);
    assert!(state.pseudo_class_active("active", "kb-1"));
    poll(&mut reg, &mut state, 149);
    assert!(state.pseudo_class_active("active", "kb-1"));
    poll(&mut reg, &mut state, 150);
    assert!(!state.pseudo_class_active("active", "kb-1"));
}

#[test]
fn predicate_byte_pattern_at() {
    let mut state = empty_state();
    state.write_mem(100, b'F' as i32);
    state.write_mem(102, b'O' as i32);
    state.write_mem(104, b'O' as i32);
    let p = Predicate::BytePatternAt {
        base: 100,
        stride: 2,
        max_window: 200,
        needle: b"FOO".to_vec(),
    };
    assert!(predicate_holds(&p, &mut state));
    let p_miss = Predicate::BytePatternAt {
        base: 100,
        stride: 2,
        max_window: 200,
        needle: b"BAR".to_vec(),
    };
    assert!(!predicate_holds(&p_miss, &mut state));
}

#[test]
fn a_pattern_may_end_with_its_window() {
    let mut state = empty_state();
    for (i, byte) in b"ABC".iter().enumerate() {
        state.write_mem(100 + 2 * i as i32, *byte as i32);
    }
    let pattern = |max_window: u32| Predicate::BytePatternAt {
        base: 100,
        stride: 2,
        max_window,
        needle: b"ABC".to_vec(),
    };
    assert!(predicate_holds(&pattern(5), &mut state));
    assert!(predicate_holds(&pattern(6), &mut state));
    assert!(!predicate_holds(&pattern(4), &mut state));
}

#[test]
fn template_substitution() {
    assert_eq!(render_template("a-{tick}-{name}.bin", 42, "x"), "a-42-x.bin");
    assert_eq!(render_template("plain", 1, "y"), "plain");
}

#[test]
fn edge_primed_by_first_poll() {
    let mut reg = WatchRegistry::new();
    reg.register(WatchSpec {
        name: "edge".to_string(),
        kind: WatchKind::Edge {
            addr: 0x100,
            last: 0,
            primed: false,
        },
        gate: None,
        actions: vec![Action::Emit],
        sample_vars: Vec::new(),
    });
    let mut state = empty_state();
    poll(&mut reg, &mut state, 0);
    assert_eq!(reg.drain_events().len(), 0);
    poll(&mut reg, &mut state, 1);
    assert_eq!(reg.drain_events().len(), 0);
    state.write_mem(0x100, 0x42);
    poll(&mut reg, &mut state, 2);
    assert_eq!(reg.drain_events().len(), 1);
    poll(&mut reg, &mut state, 3);
    assert_eq!(reg.drain_events().len(), 0);
}
