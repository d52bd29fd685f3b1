//! Watches over a machine that counts its ticks.

use calcite_core::script::{
    Action, DumpSink, MeasurementEvent, Predicate, WatchKind, WatchRegistry, WatchSpec,
};
use calcite_core::script_eval::poll;
use calcite_core::types::{CssValue, PropertyDef, PropertySyntax};
use calcite_core::State;

/// The properties of the machine, with their initial values.
const COUNTER: &[(&str, i64)] = &[("--n", 0), ("--opcode", 144)];

fn build(properties: &[(&str, i64)]) -> State {
    let mut state = State::default();
    let props: Vec<PropertyDef> = properties
        .iter()
        .map(|(name, value)| PropertyDef {
            name: name.to_string(),
            syntax: PropertySyntax::Integer,
            inherits: true,
            initial_value: Some(CssValue::Integer(*value)),
        })
        .collect();
    state.load_properties(&props);
    state
}

/// One tick: the counter, where there is one, goes up.
fn advance(state: &mut State) {
    if let Some(n) = state.get_var("n") {
        state.set_var("n", n + 1);
    }
}

fn run_with_polling(
    state: &mut State,
    reg: &mut WatchRegistry,
    n_ticks: u32,
) -> Vec<MeasurementEvent> {
    let mut events = Vec::new();
    for tick in 1..=n_ticks {
        advance(state);
        poll(reg, state, tick);
        events.extend(reg.drain_events());
        if reg.halt_requested() {
            break;
        }
    }
    events
}

#[test]
fn stride_fires_every_n_ticks_against_real_engine() {
    let mut state = build(COUNTER);
    let mut reg = WatchRegistry::new();
    reg.register(WatchSpec {
        name: "every100".to_string(),
        kind: WatchKind::Stride { every: 100, last_fired_at: 0 },
        gate: None,
        actions: vec![Action::Emit],
        sample_vars: vec!["n".to_string()],
    });
    let events = run_with_polling(&mut state, &mut reg, 1000);

    assert_eq!(events.len(), 10);

    assert_eq!(events[0].sampled_vars, vec![("n".to_string(), 100)]);
    assert_eq!(events[9].sampled_vars, vec![("n".to_string(), 1000)]);
    assert_eq!(events[0].tick, 100);
    assert_eq!(events[9].tick, 1000);
}

#[test]
fn cond_fires_once_when_byte_predicate_holds() {

    let mut state = build(COUNTER);
    let mut reg = WatchRegistry::new();

    reg.register(WatchSpec {
        name: "poll".to_string(),
        kind: WatchKind::Stride { every: 50, last_fired_at: 0 },
        gate: None,
        actions: vec![],
        sample_vars: vec![],
    });

    reg.register(WatchSpec {
        name: "byte_set".to_string(),
        kind: WatchKind::Cond {
            tests: vec![Predicate::ByteEq { addr: 0x200, val: 1 }],
            repeat: false,
            fired: false,
            last_held: false,
        },
        gate: Some("poll".to_string()),
        actions: vec![Action::Emit, Action::Halt],
        sample_vars: vec!["n".to_string()],
    });

    let mut events = Vec::new();
    let mut halted = false;
    for tick in 1..=1000 {
        if tick == 500 {
            state.write_mem(0x200, 1);
        }
        advance(&mut state);
        poll(&mut reg, &mut state, tick);
        events.extend(reg.drain_events());
        if reg.halt_requested() {
            halted = true;
            break;
        }
    }
    assert!(halted, "cond should have requested halt");
    assert_eq!(events.len(), 1);

    assert_eq!(events[0].tick, 500);
    assert_eq!(events[0].watch_name, "byte_set");
    assert!(events[0].halted);
    assert_eq!(events[0].sampled_vars, vec![("n".to_string(), 500)]);
}

#[test]
fn edge_fires_on_zero_to_one_transition() {
    let mut state = build(COUNTER);
    let mut reg = WatchRegistry::new();
    reg.register(WatchSpec {
        name: "poll".to_string(),
        kind: WatchKind::Stride { every: 1, last_fired_at: 0 },
        gate: None,
        actions: vec![],
        sample_vars: vec![],
    });
    reg.register(WatchSpec {
        name: "edge".to_string(),
        kind: WatchKind::Edge {
            addr: 0x300,
            last: 0,
            primed: false,
        },
        gate: Some("poll".to_string()),
        actions: vec![Action::Emit],
        sample_vars: vec![],
    });

    let mut events = Vec::new();
    for tick in 1..=1000 {
        if tick == 700 {
            state.write_mem(0x300, 0xAB);
        }
        if tick == 800 {
            state.write_mem(0x300, 0x00);
        }
        advance(&mut state);
        poll(&mut reg, &mut state, tick);
        events.extend(reg.drain_events());
    }

    assert_eq!(events.len(), 2);
    assert_eq!(events[0].tick, 700);
    assert_eq!(events[1].tick, 800);
}

#[test]
fn halt_kind_stops_run_and_emits() {
    let mut state = build(COUNTER);
    let mut reg = WatchRegistry::new();
    reg.register(WatchSpec {
        name: "halt_byte".to_string(),
        kind: WatchKind::Halt { addr: 0x400 },
        gate: None,
        actions: vec![Action::Emit],
        sample_vars: vec![],
    });

    let mut events = Vec::new();
    let mut last_tick = 0u32;
    for tick in 1..=2000 {
        if tick == 1234 {
            state.write_mem(0x400, 0xFF);
        }
        advance(&mut state);
        poll(&mut reg, &mut state, tick);
        events.extend(reg.drain_events());
        last_tick = tick;
        if reg.halt_requested() {
            break;
        }
    }
    assert_eq!(last_tick, 1234);
    assert_eq!(events.len(), 1);
    assert_eq!(events[0].tick, 1234);
    assert!(events[0].halted);
}

#[test]
fn at_kind_fires_exactly_once_at_target_tick() {
    let mut state = build(COUNTER);
    let mut reg = WatchRegistry::new();
    reg.register(WatchSpec {
        name: "scheduled".to_string(),
        kind: WatchKind::At { tick: 333 },
        gate: None,
        actions: vec![Action::Emit, Action::SetVar {
            name: "n".to_string(),
            value: 999_999,
        }],
        sample_vars: vec![],
    });
    let events = run_with_polling(&mut state, &mut reg, 500);
    assert_eq!(events.len(), 1);
    assert_eq!(events[0].tick, 333);

    assert_eq!(state.get_var("n"), Some(1_000_166));
}

#[test]
fn dump_mem_range_attaches_payload_to_event() {
    let mut state = build(COUNTER);

    for i in 0..16 {
        state.write_mem(0x500 + i, (i + 1) as i32);
    }
    let mut reg = WatchRegistry::new();
    reg.set_dump_sink(DumpSink::Memory);
    reg.register(WatchSpec {
        name: "dump_at_100".to_string(),
        kind: WatchKind::At { tick: 100 },
        gate: None,
        actions: vec![Action::DumpMemRange {
            addr: 0x500,
            len: 16,
            path_template: "ignored".to_string(),
        }],
        sample_vars: vec![],
    });
    let events = run_with_polling(&mut state, &mut reg, 200);
    assert_eq!(events.len(), 1);
    assert_eq!(events[0].dumps.len(), 1);
    let dump = &events[0].dumps[0];
    assert_eq!(dump.tag, "mem");
    assert_eq!(dump.addr, 0x500);
    assert_eq!(dump.bytes, (1u8..=16).collect::<Vec<u8>>());

    assert!(dump.path.is_none());
}

#[test]
fn cond_with_byte_pattern_at() {

    let mut state = build(COUNTER);
    let mut reg = WatchRegistry::new();
    reg.register(WatchSpec {
        name: "poll".to_string(),
        kind: WatchKind::Stride { every: 25, last_fired_at: 0 },
        gate: None,
        actions: vec![],
        sample_vars: vec![],
    });
    reg.register(WatchSpec {
        name: "needle_visible".to_string(),
        kind: WatchKind::Cond {
            tests: vec![Predicate::BytePatternAt {
                base: 0x100,
                stride: 2,
                max_window: 200,
                needle: b"HELLO".to_vec(),
            }],
            repeat: false,
            fired: false,
            last_held: false,
        },
        gate: Some("poll".to_string()),
        actions: vec![Action::Emit, Action::Halt],
        sample_vars: vec![],
    });

    let mut halted = false;
    let mut events = Vec::new();
    for tick in 1..=1000 {
        if tick == 350 {
            for (i, &b) in b"HELLO".iter().enumerate() {
                state.write_mem(0x100 + 10 + (i as i32) * 2, b as i32);
            }
        }
        advance(&mut state);
        poll(&mut reg, &mut state, tick);
        events.extend(reg.drain_events());
        if reg.halt_requested() {
            halted = true;
            break;
        }
    }
    assert!(halted);
    assert_eq!(events.len(), 1);

    assert_eq!(events[0].tick, 350);
    assert_eq!(events[0].watch_name, "needle_visible");
}

#[test]
fn setvar_pulse_writes_make_then_break_after_hold_ticks() {

    let css = &[("--n", 0), ("--keyboard", 0), ("--opcode", 144)];
    let mut state = build(css);
    let mut reg = WatchRegistry::new();

    reg.register(WatchSpec {
        name: "tap".to_string(),
        kind: WatchKind::At { tick: 100 },
        gate: None,
        actions: vec![Action::SetVarPulse {
            name: "keyboard".to_string(),
            value: 0x1c0d,
            hold_ticks: 50,
        }],
        sample_vars: vec![],
    });

    let mut samples: Vec<(u32, i32)> = Vec::new();
    for tick in 1..=300 {
        advance(&mut state);
        poll(&mut reg, &mut state, tick);
        let _ = reg.drain_events();
        if matches!(tick, 99 | 100 | 120 | 149 | 150 | 200) {
            let v = state.get_var("keyboard").unwrap_or(0);
            samples.push((tick, v));
        }
    }

    assert_eq!(samples.iter().find(|(t,_)| *t==99).unwrap().1, 0);

    assert_eq!(samples.iter().find(|(t,_)| *t==100).unwrap().1, 0x1c0d);

    assert_eq!(samples.iter().find(|(t,_)| *t==120).unwrap().1, 0x1c0d);
    assert_eq!(samples.iter().find(|(t,_)| *t==149).unwrap().1, 0x1c0d);

    assert_eq!(samples.iter().find(|(t,_)| *t==150).unwrap().1, 0);
    assert_eq!(samples.iter().find(|(t,_)| *t==200).unwrap().1, 0);
}

#[test]
fn setvar_pulse_skips_when_release_pending() {

    let css = &[("--keyboard", 0), ("--opcode", 144)];
    let mut state = build(css);
    let mut reg = WatchRegistry::new();

    reg.register(WatchSpec {
        name: "tap1".to_string(),
        kind: WatchKind::At { tick: 100 },
        gate: None,
        actions: vec![Action::SetVarPulse {
            name: "keyboard".to_string(),
            value: 0x1c0d,
            hold_ticks: 100,
        }],
        sample_vars: vec![],
    });
    reg.register(WatchSpec {
        name: "tap2".to_string(),
        kind: WatchKind::At { tick: 150 },
        gate: None,
        actions: vec![Action::SetVarPulse {
            name: "keyboard".to_string(),
            value: 0x1c0d,
            hold_ticks: 100,
        }],
        sample_vars: vec![],
    });

    let mut samples: Vec<(u32, i32)> = Vec::new();
    for tick in 1..=400 {
        advance(&mut state);
        poll(&mut reg, &mut state, tick);
        let _ = reg.drain_events();
        if matches!(tick, 99 | 100 | 149 | 150 | 199 | 200 | 201) {
            samples.push((tick, state.get_var("keyboard").unwrap_or(0)));
        }
    }
    let at = |t: u32| samples.iter().find(|(x,_)| *x==t).unwrap().1;
    assert_eq!(at(99),  0);
    assert_eq!(at(100), 0x1c0d);
    assert_eq!(at(149), 0x1c0d);
    assert_eq!(at(150), 0x1c0d);
    assert_eq!(at(199), 0x1c0d);
    assert_eq!(at(200), 0);
    assert_eq!(at(201), 0);
}

#[test]
fn sustain_cond_pulse_alternates_make_and_break_at_2x_poll_stride() {

    let css = &[("--keyboard", 0), ("--opcode", 144), ("--target_byte", 1)];
    let mut state = build(css);
    let mut reg = WatchRegistry::new();

    reg.register(WatchSpec {
        name: "poll".to_string(),
        kind: WatchKind::Stride { every: 100, last_fired_at: 0 },
        gate: None,
        actions: vec![],
        sample_vars: vec![],
    });

    state.write_mem(0x300, 1);
    reg.register(WatchSpec {
        name: "tap".to_string(),
        kind: WatchKind::Cond {
            tests: vec![Predicate::ByteEq { addr: 0x300, val: 1 }],
            repeat: true,
            fired: false,
            last_held: false,
        },
        gate: Some("poll".to_string()),
        actions: vec![Action::SetVarPulse {
            name: "keyboard".to_string(),
            value: 0x1c0d,
            hold_ticks: 100,
        }],
        sample_vars: vec![],
    });

    let mut samples: Vec<(u32, i32)> = Vec::new();
    for tick in 1..=600 {
        advance(&mut state);
        poll(&mut reg, &mut state, tick);
        let _ = reg.drain_events();

        if tick % 100 == 50 {
            samples.push((tick, state.get_var("keyboard").unwrap_or(0)));
        }
    }

    let at = |t: u32| samples.iter().find(|(x,_)| *x==t).unwrap().1;
    assert_eq!(at(50),  0);
    assert_eq!(at(150), 0x1c0d);
    assert_eq!(at(250), 0);
    assert_eq!(at(350), 0x1c0d);
    assert_eq!(at(450), 0);
    assert_eq!(at(550), 0x1c0d);
}
