//! What watches do when they fire.

use calcite_core::script::{Action, DumpSink, PendingRelease, PendingReleaseKind, WatchRegistry};
use calcite_core::script_eval::poll;
use calcite_core::script_spec::parse_watch;
use calcite_core::types::{CssValue, PropertyDef, PropertySyntax};
use calcite_core::State;

fn machine(names: &[&str]) -> State {
    let mut state = State::default();
    let props: Vec<PropertyDef> = names
        .iter()
        .map(|n| PropertyDef {
            name: format!("--{n}"),
            syntax: PropertySyntax::Integer,
            inherits: true,
            initial_value: Some(CssValue::Integer(0)),
        })
        .collect();
    state.load_properties(&props);
    state
}

fn registry(specs: &[&str]) -> WatchRegistry {
    let mut reg = WatchRegistry::default();
    for s in specs {
        reg.register(parse_watch(s).unwrap());
    }
    reg
}

#[test]
fn names_and_counts() {
    let mut reg = registry(&["a:stride:every=2:then=emit", "b:at:tick=3:then=emit"]);
    let mut state = machine(&[]);
    assert_eq!(reg.watch_names(), vec!["a", "b"]);
    assert_eq!(reg.len(), 2);
    assert!(!reg.is_empty());
    for tick in 1..=5 {
        poll(&mut reg, &mut state, tick);
    }
    assert_eq!(reg.fire_count(0), 2);
    assert_eq!(reg.fire_count(1), 1);
    assert_eq!(reg.drain_events().len(), 3);
    assert_eq!(reg.drain_events().len(), 0);
}

#[test]
fn dumps_go_to_files_on_request() {
    let mut reg = registry(&["d:at:tick=7:then=dump=0x10,3,{name}-{tick}.bin+snapshot"]);
    reg.set_dump_sink(DumpSink::File);
    let mut state = machine(&["AX"]);
    state.write_mem(0x11, 0xAB);
    poll(&mut reg, &mut state, 7);
    let events = reg.drain_events();
    assert_eq!(events.len(), 1);
    assert_eq!(events[0].dumps.len(), 2);
    assert_eq!(events[0].dumps[0].path.as_deref(), Some("d-7.bin"));
    assert!(events[0].dumps[0].bytes.is_empty());
    assert_eq!(events[0].dumps[1].tag, "snapshot");
    let files = reg.drain_file_writes();
    assert_eq!(files.len(), 2);
    assert_eq!(files[0].path, "d-7.bin");
    assert_eq!(files[0].bytes, vec![0, 0xAB, 0]);
    assert_eq!(files[1].path, "snapshot_7.bin");
    assert_eq!(files[1].bytes, state.snapshot());
    assert_eq!(files[1].watch_name, "d");
    assert!(reg.drain_file_writes().is_empty());
}

#[test]
fn gated_watch_fires_only_with_its_gate() {
    let mut reg = registry(&["slow:stride:every=3", "fast:stride:every=1:gate=slow:then=emit"]);
    let mut state = machine(&[]);
    let mut ticks = Vec::new();
    for tick in 1..=7 {
        poll(&mut reg, &mut state, tick);
        ticks.extend(reg.drain_events().iter().map(|e| e.tick));
    }
    assert_eq!(ticks, vec![3, 6]);
}

#[test]
fn gate_may_be_registered_later() {
    let mut reg = registry(&["fast:stride:every=1:gate=slow:then=emit", "slow:stride:every=3"]);
    let mut state = machine(&[]);
    let mut ticks = Vec::new();
    for tick in 1..=7 {
        poll(&mut reg, &mut state, tick);
        ticks.extend(reg.drain_events().iter().map(|e| e.tick));
    }
    assert_eq!(ticks, vec![3, 6]);
}

#[test]
fn unknown_gate_keeps_a_watch_silent() {
    let mut reg = registry(&["w:stride:every=1:gate=nobody:then=emit"]);
    let mut state = machine(&[]);
    for tick in 1..=4 {
        poll(&mut reg, &mut state, tick);
    }
    assert!(reg.drain_events().is_empty());
}

#[test]
fn halt_is_not_taken_back() {
    let mut reg = registry(&["h:halt:addr=0x20", "s:at:tick=2:then=setvar=AX,-3"]);
    let mut state = machine(&["AX"]);
    state.write_mem(0x20, 1);
    poll(&mut reg, &mut state, 1);
    assert!(reg.halt_requested());
    state.write_mem(0x20, 0);
    poll(&mut reg, &mut state, 2);
    assert!(reg.halt_requested());
    assert_eq!(state.get_var("AX"), Some(-3));
}

#[test]
fn one_pulse_per_target_at_a_time() {
    let mut reg = registry(&[
        "p:at:tick=1:then=setvar_pulse=AX,5,10",
        "q:at:tick=2:then=setvar_pulse=AX,6,1+setvar_pulse=BX,7,1",
    ]);
    let mut state = machine(&["AX", "BX"]);
    poll(&mut reg, &mut state, 1);
    poll(&mut reg, &mut state, 2);
    assert_eq!(state.get_var("AX"), Some(5));
    assert_eq!(state.get_var("BX"), Some(7));
    assert_eq!(reg.pending_releases.len(), 2);
    poll(&mut reg, &mut state, 3);
    assert_eq!(state.get_var("BX"), Some(0));
    assert_eq!(state.get_var("AX"), Some(5));
    poll(&mut reg, &mut state, 11);
    assert_eq!(state.get_var("AX"), Some(0));
    assert!(reg.pending_releases.is_empty());
}

#[test]
fn samples_of_missing_variables_are_zero() {
    let mut reg = registry(&["s:at:tick=1:sample=AX,ZZ:then=emit"]);
    let mut state = machine(&["AX"]);
    state.set_var("AX", 12);
    poll(&mut reg, &mut state, 1);
    assert_eq!(
        reg.drain_events()[0].sampled_vars,
        vec![("AX".to_string(), 12), ("ZZ".to_string(), 0)]
    );
}

#[test]
fn actions_are_plain_values() {
    let watch = parse_watch("s:at:tick=1:then=emit").unwrap();
    assert!(matches!(watch.actions[0].clone(), Action::Emit));
}

fn release(release_tick: u32, name: &str) -> PendingRelease {
    PendingRelease { release_tick, kind: PendingReleaseKind::Var { name: name.to_string() } }
}

fn waiting(reg: &WatchRegistry) -> Vec<(u32, String)> {
    reg.pending_releases
        .iter()
        .map(|r| match &r.kind {
            PendingReleaseKind::Var { name } => (r.release_tick, name.clone()),
            PendingReleaseKind::Pseudo { selector, .. } => (r.release_tick, selector.clone()),
        })
        .collect()
}

#[test]
fn different_targets_stay_different_in_any_order() {
    let mut reg = registry(&["p:at:tick=1:then=setvar_pulse=AX,5,3+setvar_pulse=CX,6,2"]);
    reg.pending_releases = vec![release(9, "AX"), release(4, "BX")];
    let mut state = machine(&["AX", "BX", "CX"]);
    poll(&mut reg, &mut state, 1);
    let mut names: Vec<String> = waiting(&reg).into_iter().map(|(_, name)| name).collect();
    names.sort();
    assert_eq!(names, vec!["AX", "BX", "CX"]);
    assert_eq!(state.get_var("AX"), Some(0));
    assert_eq!(state.get_var("CX"), Some(6));
}

#[test]
fn ordered_releases_stay_ordered_though_targets_repeat() {
    let mut reg = registry(&["p:at:tick=1:then=setvar_pulse=CX,6,4"]);
    reg.pending_releases = vec![release(1, "BX"), release(3, "AX"), release(8, "AX")];
    let mut state = machine(&["AX", "BX", "CX"]);
    poll(&mut reg, &mut state, 1);
    let ticks: Vec<u32> = waiting(&reg).into_iter().map(|(tick, _)| tick).collect();
    assert_eq!(ticks, vec![3, 5, 8]);
}

#[test]
fn due_releases_are_gone_after_a_poll() {
    let mut reg = registry(&["p:stride:every=1:then=setvar_pulse=AX,5,1"]);
    let mut state = machine(&["AX"]);
    poll(&mut reg, &mut state, 1);
    assert_eq!(waiting(&reg), vec![(2, "AX".to_string())]);
    poll(&mut reg, &mut state, 2);
    assert!(waiting(&reg).is_empty());
    assert_eq!(reg.released_this_poll.len(), 1);
    assert_eq!(state.get_var("AX"), Some(0));
    poll(&mut reg, &mut state, 3);
    assert_eq!(waiting(&reg), vec![(4, "AX".to_string())]);
    assert!(reg.released_this_poll.is_empty());
}

#[test]
fn fire_counts_move_with_their_marks() {
    let mut reg = registry(&[
        "fast:stride:every=1:gate=slow",
        "slow:stride:every=2",
        "lost:stride:every=1:gate=nobody",
    ]);
    let mut state = machine(&[]);
    for tick in 1..=6 {
        let before: Vec<u32> = (0..3).map(|i| reg.fire_count(i)).collect();
        poll(&mut reg, &mut state, tick);
        for i in 0..3 {
            assert_eq!(reg.fire_count(i), before[i] + reg.gate_fired[i] as u32);
        }
        if reg.fire_count(0) > before[0] {
            assert!(reg.fire_count(1) > before[1]);
        }
    }
    assert_eq!(reg.fire_counts, vec![3, 3, 0]);
}
